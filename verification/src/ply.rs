//! Stanford PLY: header and body parsing.
//!
//! The header is parsed into a [`PlyHeader`]. The body is read into rows of
//! raw property values ([`PlyValue`]) and a triangle index list; which
//! property holds which vertex attribute is given by a [`VertexLayout`].
//! Turning raw values into floating-point attributes is left to the caller.

use vstd::prelude::*;
use vstd::utf8::valid_utf8;
use vstd::string::StringSliceAdditionalSpecFns;
use crate::bytes::{
    be16, be32, be64, le16, le32, le64, read_u16_be, read_u16_le, read_u32_be, read_u32_le, read_u64_be,
    read_u64_le, signed16, signed32, signed8, to_i16, to_i32, to_i8,
};
use crate::floatbits::{f32_bits_to_unsigned, f32_bits_to_unsigned_exec, f64_bits_to_unsigned, f64_bits_to_unsigned_exec, sat};
use crate::text::{
    eq_bytes, eq_bytes_ignore_case, parse_u32, parse_u32_spec, eq_ignore_case, find_bytes, find_from, lemma_find_from_some, lemma_trim_first_word, is_valid_utf8, lines, parse_usize,
    parse_usize_spec, split_lines, split_words, trim, trim_bytes, vv, words,
};

verus! {

#[derive(Debug, Clone, Copy, PartialEq, Eq, Structural)]
pub enum PlyFormat {
    Ascii,
    BinaryLE,
    BinaryBE,
}

#[derive(Debug, Clone, Copy, PartialEq, Eq, Structural)]
pub enum ScalarType {
    I8,
    U8,
    I16,
    U16,
    I32,
    U32,
    F32,
    F64,
}

#[derive(Debug, Clone, Copy, PartialEq, Eq, Structural)]
pub enum PropType {
    Scalar(ScalarType),
    List { count_type: ScalarType, value_type: ScalarType },
}

/// One `property` line of an element.
#[derive(Debug, Clone)]
pub struct Property {
    pub name: Vec<u8>,
    pub prop_type: PropType,
}

/// One `element` declaration with its properties.
#[derive(Debug, Clone)]
pub struct Element {
    pub name: Vec<u8>,
    pub count: usize,
    pub properties: Vec<Property>,
}

/// A parsed PLY header.
#[derive(Debug, Clone)]
pub struct PlyHeader {
    pub format: PlyFormat,
    pub elements: Vec<Element>,
    /// Byte offset at which the data section begins.
    pub header_byte_len: usize,
    pub comments: Vec<Vec<u8>>,
}

/// Errors reported while reading a PLY file.
#[derive(Debug, Clone, Copy, PartialEq, Eq, Structural)]
pub enum PlyError {
    /// No `end_header` marker.
    MissingEndHeader,
    /// The header is not UTF-8.
    HeaderNotUtf8,
    /// A `format` line names no known format.
    UnknownFormat,
    /// A list property's count type is missing or unknown.
    InvalidListCountType,
    /// A list property's value type is missing or unknown.
    InvalidListValueType,
    /// A scalar property's type is missing or unknown.
    UnknownScalarType,
    /// The ASCII body is not UTF-8.
    BodyNotUtf8,
    /// An element declares more rows than the body can hold.
    ElementCountTooLarge { count: usize },
    /// An ASCII face row declares more vertex indices than it lists.
    FaceCountMismatch { declared: u32 },
    /// A face refers to a vertex that does not exist.
    IndexOutOfRange { index: u32 },
    /// The binary body ends inside a row.
    UnexpectedEnd,
}

pub struct PropertyView {
    pub name: Seq<u8>,
    pub prop_type: PropType,
}

pub struct ElementView {
    pub name: Seq<u8>,
    pub count: usize,
    pub properties: Seq<PropertyView>,
}

pub struct HeaderView {
    pub format: PlyFormat,
    pub elements: Seq<ElementView>,
    pub header_byte_len: usize,
    pub comments: Seq<Seq<u8>>,
}

impl View for Property {
    type V = PropertyView;

    open spec fn view(&self) -> PropertyView {
        PropertyView { name: self.name@, prop_type: self.prop_type }
    }
}

impl View for Element {
    type V = ElementView;

    open spec fn view(&self) -> ElementView {
        ElementView {
            name: self.name@,
            count: self.count,
            properties: self.properties@.map_values(|p: Property| p@),
        }
    }
}

impl View for PlyHeader {
    type V = HeaderView;

    open spec fn view(&self) -> HeaderView {
        HeaderView {
            format: self.format,
            elements: self.elements@.map_values(|e: Element| e@),
            header_byte_len: self.header_byte_len,
            comments: vv(self.comments),
        }
    }
}

/// Size in bytes of one value of the type.
pub open spec fn scalar_size(t: ScalarType) -> nat {
    match t {
        ScalarType::I8 | ScalarType::U8 => 1,
        ScalarType::I16 | ScalarType::U16 => 2,
        ScalarType::I32 | ScalarType::U32 | ScalarType::F32 => 4,
        ScalarType::F64 => 8,
    }
}

/// The type a PLY type name denotes (both the classic and the sized names).
pub open spec fn scalar_type_of(w: Seq<u8>) -> Option<ScalarType> {
    if w == "char".spec_bytes() || w == "int8".spec_bytes() {
        Some(ScalarType::I8)
    } else if w == "uchar".spec_bytes() || w == "uint8".spec_bytes() {
        Some(ScalarType::U8)
    } else if w == "short".spec_bytes() || w == "int16".spec_bytes() {
        Some(ScalarType::I16)
    } else if w == "ushort".spec_bytes() || w == "uint16".spec_bytes() {
        Some(ScalarType::U16)
    } else if w == "int".spec_bytes() || w == "int32".spec_bytes() {
        Some(ScalarType::I32)
    } else if w == "uint".spec_bytes() || w == "uint32".spec_bytes() {
        Some(ScalarType::U32)
    } else if w == "float".spec_bytes() || w == "float32".spec_bytes() {
        Some(ScalarType::F32)
    } else if w == "double".spec_bytes() || w == "float64".spec_bytes() {
        Some(ScalarType::F64)
    } else {
        None
    }
}

/// `true` when `w` is the bytes of the literal `lit`.
fn is_lit(w: &[u8], lit: &str) -> (r: bool)
    ensures
        r == (w@ == lit.spec_bytes()),
{
    eq_bytes(w, lit.as_bytes())
}

impl ScalarType {
    /// Size in bytes of one value of this type.
    pub fn byte_size(self) -> (r: usize)
        ensures
            r == scalar_size(self),
    {
        match self {
            ScalarType::I8 | ScalarType::U8 => 1,
            ScalarType::I16 | ScalarType::U16 => 2,
            ScalarType::I32 | ScalarType::U32 | ScalarType::F32 => 4,
            ScalarType::F64 => 8,
        }
    }

    /// The type named by `s`, as written in a `property` line.
    pub fn from_str(s: &str) -> (r: Option<ScalarType>)
        ensures
            r == scalar_type_of(s.spec_bytes()),
    {
        Self::from_bytes(s.as_bytes())
    }

    /// The type named by the bytes `w`.
    pub fn from_bytes(w: &[u8]) -> (r: Option<ScalarType>)
        ensures
            r == scalar_type_of(w@),
    {
        if is_lit(w, "char") || is_lit(w, "int8") {
            Some(ScalarType::I8)
        } else if is_lit(w, "uchar") || is_lit(w, "uint8") {
            Some(ScalarType::U8)
        } else if is_lit(w, "short") || is_lit(w, "int16") {
            Some(ScalarType::I16)
        } else if is_lit(w, "ushort") || is_lit(w, "uint16") {
            Some(ScalarType::U16)
        } else if is_lit(w, "int") || is_lit(w, "int32") {
            Some(ScalarType::I32)
        } else if is_lit(w, "uint") || is_lit(w, "uint32") {
            Some(ScalarType::U32)
        } else if is_lit(w, "float") || is_lit(w, "float32") {
            Some(ScalarType::F32)
        } else if is_lit(w, "double") || is_lit(w, "float64") {
            Some(ScalarType::F64)
        } else {
            None
        }
    }
}

// ── Header ───────────────────────────────────────────────────────────────────

/// The header state before any line is read.
pub open spec fn empty_header() -> HeaderView {
    HeaderView { format: PlyFormat::Ascii, elements: seq![], header_byte_len: 0, comments: seq![] }
}

/// The `i`-th word, or `dflt` when there are fewer words.
pub open spec fn word_or(parts: Seq<Seq<u8>>, i: int, dflt: Seq<u8>) -> Seq<u8> {
    if i < parts.len() { parts[i] } else { dflt }
}

/// The type named by the `i`-th word, if there is one.
pub open spec fn type_word(parts: Seq<Seq<u8>>, i: int) -> Option<ScalarType> {
    if i < parts.len() { scalar_type_of(parts[i]) } else { None }
}

/// The property a `property` line (split into `parts`) declares.
pub open spec fn property_of(parts: Seq<Seq<u8>>) -> Result<PropertyView, PlyError> {
    if parts.len() > 1 && parts[1] == "list".spec_bytes() {
        match type_word(parts, 2) {
            None => Err(PlyError::InvalidListCountType),
            Some(ct) => match type_word(parts, 3) {
                None => Err(PlyError::InvalidListValueType),
                Some(vt) => Ok(PropertyView {
                    name: word_or(parts, 4, "unknown".spec_bytes()),
                    prop_type: PropType::List { count_type: ct, value_type: vt },
                }),
            },
        }
    } else {
        match type_word(parts, 1) {
            None => Err(PlyError::UnknownScalarType),
            Some(t) => Ok(PropertyView {
                name: word_or(parts, 2, "unknown".spec_bytes()),
                prop_type: PropType::Scalar(t),
            }),
        }
    }
}

/// The effect of one header line on the header read so far.
#[verifier::opaque]
pub open spec fn header_line(st: HeaderView, raw: Seq<u8>) -> Result<HeaderView, PlyError> {
    let line = trim(raw);
    let parts = words(line);
    if line.len() == 0 || line == "ply".spec_bytes() || parts.len() == 0 {
        Ok(st)
    } else if parts[0] == "format".spec_bytes() {
        let f = if parts.len() > 1 && parts[1] == "ascii".spec_bytes() {
            Some(PlyFormat::Ascii)
        } else if parts.len() > 1 && parts[1] == "binary_little_endian".spec_bytes() {
            Some(PlyFormat::BinaryLE)
        } else if parts.len() > 1 && parts[1] == "binary_big_endian".spec_bytes() {
            Some(PlyFormat::BinaryBE)
        } else {
            None
        };
        match f {
            Some(f) => Ok(HeaderView { format: f, ..st }),
            None => Err(PlyError::UnknownFormat),
        }
    } else if parts[0] == "comment".spec_bytes() {
        Ok(HeaderView { comments: st.comments.push(trim(line.skip("comment".spec_bytes().len() as int))), ..st })
    } else if parts[0] == "element".spec_bytes() {
        let count: usize = if parts.len() > 2 {
            match parse_usize_spec(parts[2]) {
                Some(c) => c,
                None => 0,
            }
        } else {
            0
        };
        let e = ElementView {
            name: word_or(parts, 1, "unknown".spec_bytes()),
            count,
            properties: seq![],
        };
        Ok(HeaderView { elements: st.elements.push(e), ..st })
    } else if parts[0] == "property".spec_bytes() {
        if st.elements.len() == 0 {
            Ok(st)
        } else {
            match property_of(parts) {
                Err(e) => Err(e),
                Ok(p) => {
                    let last = st.elements.last();
                    let e = ElementView { properties: last.properties.push(p), ..last };
                    Ok(HeaderView { elements: st.elements.drop_last().push(e), ..st })
                },
            }
        }
    } else {
        Ok(st)
    }
}

/// The header after reading `ls` in order, starting from `st`.
pub open spec fn header_lines(st: HeaderView, ls: Seq<Seq<u8>>) -> Result<HeaderView, PlyError>
    decreases ls.len(),
{
    if ls.len() == 0 {
        Ok(st)
    } else {
        match header_line(st, ls[0]) {
            Ok(st2) => header_lines(st2, ls.drop_first()),
            Err(e) => Err(e),
        }
    }
}

/// Offset of the body: past `end_header` and one optional `\r` and `\n`.
pub open spec fn body_start(data: Seq<u8>, h: int) -> int {
    let a = h + "end_header".spec_bytes().len();
    let b = if a < data.len() && data[a] == 13 { a + 1 } else { a };
    if b < data.len() && data[b] == 10 { b + 1 } else { b }
}

/// The header of a PLY file: the lines before the first `end_header`.
pub open spec fn parse_header_spec(data: Seq<u8>) -> Result<HeaderView, PlyError> {
    match find_from(data, "end_header".spec_bytes(), 0) {
        None => Err(PlyError::MissingEndHeader),
        Some(h) => if !valid_utf8(data.take(h)) {
            Err(PlyError::HeaderNotUtf8)
        } else {
            match header_lines(empty_header(), lines(data.take(h))) {
                Ok(st) => Ok(HeaderView { header_byte_len: body_start(data, h) as usize, ..st }),
                Err(e) => Err(e),
            }
        },
    }
}

fn word_or_exec(parts: &Vec<Vec<u8>>, i: usize, dflt: &str) -> (r: Vec<u8>)
    ensures
        r@ == word_or(vv(*parts), i as int, dflt.spec_bytes()),
{
    if i < parts.len() {
        parts[i].clone()
    } else {
        vstd::slice::slice_to_vec(dflt.as_bytes())
    }
}

fn type_word_exec(parts: &Vec<Vec<u8>>, i: usize) -> (r: Option<ScalarType>)
    ensures
        r == type_word(vv(*parts), i as int),
{
    if i < parts.len() {
        ScalarType::from_bytes(parts[i].as_slice())
    } else {
        None
    }
}

fn property_exec(parts: &Vec<Vec<u8>>) -> (r: Result<Property, PlyError>)
    ensures
        match r {
            Ok(p) => property_of(vv(*parts)) == Ok::<PropertyView, PlyError>(p@),
            Err(e) => property_of(vv(*parts)) == Err::<PropertyView, PlyError>(e),
        },
{
    if parts.len() > 1 && is_lit(parts[1].as_slice(), "list") {
        let ct = match type_word_exec(parts, 2) {
            None => return Err(PlyError::InvalidListCountType),
            Some(t) => t,
        };
        let vt = match type_word_exec(parts, 3) {
            None => return Err(PlyError::InvalidListValueType),
            Some(t) => t,
        };
        let name = word_or_exec(parts, 4, "unknown");
        Ok(Property { name, prop_type: PropType::List { count_type: ct, value_type: vt } })
    } else {
        let t = match type_word_exec(parts, 1) {
            None => return Err(PlyError::UnknownScalarType),
            Some(t) => t,
        };
        let name = word_or_exec(parts, 2, "unknown");
        Ok(Property { name, prop_type: PropType::Scalar(t) })
    }
}

fn header_line_exec(h: &mut PlyHeader, raw: &[u8]) -> (r: Result<(), PlyError>)
    ensures
        match r {
            Ok(()) => header_line(old(h)@, raw@) == Ok::<HeaderView, PlyError>(final(h)@),
            Err(e) => header_line(old(h)@, raw@) == Err::<HeaderView, PlyError>(e),
        },
        final(h).header_byte_len == old(h).header_byte_len,
{
    reveal(header_line);
    let line = trim_bytes(raw);
    let parts = split_words(line.as_slice());
    if line.len() == 0 || is_lit(line.as_slice(), "ply") || parts.len() == 0 {
        return Ok(());
    }
    let ghost st = h@;
    if is_lit(parts[0].as_slice(), "format") {
        let f = if parts.len() > 1 && is_lit(parts[1].as_slice(), "ascii") {
            PlyFormat::Ascii
        } else if parts.len() > 1 && is_lit(parts[1].as_slice(), "binary_little_endian") {
            PlyFormat::BinaryLE
        } else if parts.len() > 1 && is_lit(parts[1].as_slice(), "binary_big_endian") {
            PlyFormat::BinaryBE
        } else {
            return Err(PlyError::UnknownFormat);
        };
        h.format = f;
        Ok(())
    } else if is_lit(parts[0].as_slice(), "comment") {
        let kw = "comment".as_bytes();
        proof {
            lemma_trim_first_word(raw@);
            assert(vv(parts)[0] == parts@[0]@);
        }
        let rest = vstd::slice::slice_subrange(line.as_slice(), kw.len(), line.len());
        let c = trim_bytes(rest);
        proof {
            assert(rest@ =~= line@.skip(kw@.len() as int));
        }
        h.comments.push(c);
        assert(vv(h.comments) =~= st.comments.push(c@));
        Ok(())
    } else if is_lit(parts[0].as_slice(), "element") {
        let count: usize = if parts.len() > 2 {
            match parse_usize(parts[2].as_slice()) {
                Some(c) => c,
                None => 0,
            }
        } else {
            0
        };
        let name = word_or_exec(&parts, 1, "unknown");
        let e = Element { name, count, properties: Vec::new() };
        h.elements.push(e);
        proof {
            assert(e@.properties =~= Seq::<PropertyView>::empty());
            assert(h@.elements =~= st.elements.push(e@));
        }
        Ok(())
    } else if is_lit(parts[0].as_slice(), "property") {
        if h.elements.len() == 0 {
            return Ok(());
        }
        let p = property_exec(&parts)?;
        let k = h.elements.len() - 1;
        let mut e = h.elements.pop().unwrap();
        let ghost old_e = e@;
        e.properties.push(p);
        h.elements.push(e);
        proof {
            assert(st.elements.last() == old_e);
            assert(e@.properties =~= old_e.properties.push(p@));
            assert(h@.elements =~= st.elements.drop_last().push(e@));
        }
        Ok(())
    } else {
        Ok(())
    }
}

/// Parses the header of a PLY file.
pub fn parse_header(data: &[u8]) -> (r: Result<PlyHeader, PlyError>)
    ensures
        match r {
            Ok(h) => parse_header_spec(data@) == Ok::<HeaderView, PlyError>(h@),
            Err(e) => parse_header_spec(data@) == Err::<HeaderView, PlyError>(e),
        },
{
    let marker = "end_header".as_bytes();
    let dlen = data.len();
    let h_end = match find_bytes(data, marker) {
        None => return Err(PlyError::MissingEndHeader),
        Some(i) => i,
    };
    proof {
        lemma_find_from_some(data@, marker@, 0);
    }
    let text = vstd::slice::slice_subrange(data, 0, h_end);
    assert(text@ =~= data@.take(h_end as int));
    if !is_valid_utf8(text) {
        return Err(PlyError::HeaderNotUtf8);
    }
    proof {
        assert(text@.len() == h_end);
    }
    let mut start = h_end + marker.len();
    if start < data.len() && data[start] == 13 {
        start = start + 1;
    }
    if start < data.len() && data[start] == 10 {
        start = start + 1;
    }
    let ls = split_lines(text);
    let mut h = PlyHeader {
        format: PlyFormat::Ascii,
        elements: Vec::new(),
        header_byte_len: start,
        comments: Vec::new(),
    };
    let ghost all = vv(ls);
    let mut i: usize = 0;
    proof {
        assert(h@.elements =~= empty_header().elements);
        assert(h@.comments =~= empty_header().comments);
        assert(all.skip(0) =~= all);
    }
    while i < ls.len()
        invariant
            all == vv(ls),
            all == lines(data@.take(h_end as int)),
            find_from(data@, "end_header".spec_bytes(), 0) == Some(h_end as int),
            valid_utf8(data@.take(h_end as int)),
            start == body_start(data@, h_end as int),
            i <= ls@.len(),
            h.header_byte_len == start,
            header_lines(empty_header(), all) == header_lines(
                HeaderView { header_byte_len: 0, ..h@ },
                all.skip(i as int),
            ),
        decreases ls@.len() - i,
    {
        let ghost before = h@;
        let ghost rest = all.skip(i as int);
        match header_line_exec(&mut h, ls[i].as_slice()) {
            Err(e) => {
                proof {
                    assert(rest[0] == ls@[i as int]@);
                    lemma_header_line_base(before, ls@[i as int]@);
                    assert(header_lines(HeaderView { header_byte_len: 0, ..before }, rest) == Err::<HeaderView, PlyError>(e));
                    assert(header_lines(empty_header(), all) == Err::<HeaderView, PlyError>(e));
                    assert(lines(data@.take(h_end as int)) == all);
                }
                return Err(e);
            },
            Ok(()) => {
                proof {
                    assert(rest[0] == ls@[i as int]@);
                    assert(rest.drop_first() =~= all.skip(i + 1));
                    lemma_header_line_base(before, ls@[i as int]@);
                }
            },
        }
        i = i + 1;
    }
    proof {
        assert(all.skip(i as int) =~= Seq::<Seq<u8>>::empty());
    }
    Ok(h)
}

/// A header line's effect does not depend on the stored body offset.
proof fn lemma_header_line_base(st: HeaderView, raw: Seq<u8>)
    ensures
        match header_line(st, raw) {
            Ok(s2) => header_line(HeaderView { header_byte_len: 0, ..st }, raw) == Ok::<HeaderView, PlyError>(
                HeaderView { header_byte_len: 0, ..s2 },
            ),
            Err(e) => header_line(HeaderView { header_byte_len: 0, ..st }, raw) == Err::<HeaderView, PlyError>(e),
        },
{
    reveal(header_line);
}

} // verus!

verus! {

// ── Body ─────────────────────────────────────────────────────────────────────

/// A raw property value. Floating-point values are kept as their IEEE-754
/// bit patterns; ASCII values are kept as the text of their token.
#[derive(Debug, Clone)]
pub enum PlyValue {
    Int(i64),
    F32Bits(u32),
    F64Bits(u64),
    Text(Vec<u8>),
    /// Stands for a list property in a vertex row, keeping positions aligned.
    ListPlaceholder,
}

pub enum PlyValueView {
    Int(i64),
    F32Bits(u32),
    F64Bits(u64),
    Text(Seq<u8>),
    ListPlaceholder,
}

impl View for PlyValue {
    type V = PlyValueView;

    open spec fn view(&self) -> PlyValueView {
        match self {
            PlyValue::Int(i) => PlyValueView::Int(*i),
            PlyValue::F32Bits(b) => PlyValueView::F32Bits(*b),
            PlyValue::F64Bits(b) => PlyValueView::F64Bits(*b),
            PlyValue::Text(t) => PlyValueView::Text(t@),
            PlyValue::ListPlaceholder => PlyValueView::ListPlaceholder,
        }
    }
}

/// Which value of a vertex row holds which vertex attribute.
#[derive(Debug, Clone)]
pub struct VertexLayout {
    pub x: Option<usize>,
    pub y: Option<usize>,
    pub z: Option<usize>,
    pub nx: Option<usize>,
    pub ny: Option<usize>,
    pub nz: Option<usize>,
    pub red: Option<usize>,
    pub green: Option<usize>,
    pub blue: Option<usize>,
    pub alpha: Option<usize>,
    /// U coordinate of texture channels 0 to 7.
    pub uv_s: Vec<Option<usize>>,
    /// V coordinate of texture channels 0 to 7.
    pub uv_t: Vec<Option<usize>>,
    /// Colours are stored as `uchar` (to be scaled by 1/255).
    pub color_is_byte: bool,
}

pub struct VertexLayoutView {
    pub x: Option<usize>,
    pub y: Option<usize>,
    pub z: Option<usize>,
    pub nx: Option<usize>,
    pub ny: Option<usize>,
    pub nz: Option<usize>,
    pub red: Option<usize>,
    pub green: Option<usize>,
    pub blue: Option<usize>,
    pub alpha: Option<usize>,
    pub uv_s: Seq<Option<usize>>,
    pub uv_t: Seq<Option<usize>>,
    pub color_is_byte: bool,
}

impl View for VertexLayout {
    type V = VertexLayoutView;

    open spec fn view(&self) -> VertexLayoutView {
        VertexLayoutView {
            x: self.x,
            y: self.y,
            z: self.z,
            nx: self.nx,
            ny: self.ny,
            nz: self.nz,
            red: self.red,
            green: self.green,
            blue: self.blue,
            alpha: self.alpha,
            uv_s: self.uv_s@,
            uv_t: self.uv_t@,
            color_is_byte: self.color_is_byte,
        }
    }
}

/// The rows of one `vertex` element with their layout.
#[derive(Debug, Clone)]
pub struct VertexBlock {
    pub layout: VertexLayout,
    pub rows: Vec<Vec<PlyValue>>,
}

pub struct VertexBlockView {
    pub layout: VertexLayoutView,
    pub rows: Seq<Seq<PlyValueView>>,
}

pub open spec fn row_view(r: Vec<PlyValue>) -> Seq<PlyValueView> {
    r@.map_values(|v: PlyValue| v@)
}

impl View for VertexBlock {
    type V = VertexBlockView;

    open spec fn view(&self) -> VertexBlockView {
        VertexBlockView {
            layout: self.layout@,
            rows: self.rows@.map_values(|r: Vec<PlyValue>| row_view(r)),
        }
    }
}

/// The vertex data and triangle list of a PLY body.
#[derive(Debug, Clone)]
pub struct PlyMesh {
    pub blocks: Vec<VertexBlock>,
    /// Triangle corner indices, three per triangle.
    pub indices: Vec<u32>,
}

pub struct PlyMeshView {
    pub blocks: Seq<VertexBlockView>,
    pub indices: Seq<u32>,
}

impl View for PlyMesh {
    type V = PlyMeshView;

    open spec fn view(&self) -> PlyMeshView {
        PlyMeshView {
            blocks: self.blocks@.map_values(|b: VertexBlock| b@),
            indices: self.indices@,
        }
    }
}

// ── Property lookup ──────────────────────────────────────────────────────────

/// Whether property `p` is named (ignoring ASCII case) by one of `names`.
pub open spec fn named_any(p: PropertyView, names: Seq<&str>) -> bool {
    exists|k: int| 0 <= k < names.len() && eq_ignore_case(p.name, #[trigger] names[k].spec_bytes())
}

/// Index of the first property named by one of `names`, from `i` on.
pub open spec fn find_prop_from(props: Seq<PropertyView>, names: Seq<&str>, i: int) -> Option<usize>
    decreases props.len() - i,
{
    if i < 0 || i >= props.len() {
        None
    } else if named_any(props[i], names) {
        Some(i as usize)
    } else {
        find_prop_from(props, names, i + 1)
    }
}

pub open spec fn find_prop_spec(props: Seq<PropertyView>, names: Seq<&str>) -> Option<usize> {
    find_prop_from(props, names, 0)
}

fn named_any_exec(p: &Property, names: &[&str]) -> (r: bool)
    ensures
        r == named_any(p@, names@),
{
    let mut k: usize = 0;
    while k < names.len()
        invariant
            k <= names@.len(),
            forall|j: int| 0 <= j < k ==> !eq_ignore_case(p@.name, #[trigger] names@[j].spec_bytes()),
        decreases names@.len() - k,
    {
        if eq_bytes_ignore_case(p.name.as_slice(), names[k].as_bytes()) {
            return true;
        }
        k = k + 1;
    }
    false
}

/// Index of the first property named (ignoring ASCII case) by one of `names`.
pub fn find_prop(elem: &Element, names: &[&str]) -> (r: Option<usize>)
    ensures
        r == find_prop_spec(elem@.properties, names@),
{
    let ghost props = elem@.properties;
    let mut i: usize = 0;
    while i < elem.properties.len()
        invariant
            props == elem@.properties,
            props.len() == elem.properties@.len(),
            i <= props.len(),
            find_prop_spec(props, names@) == find_prop_from(props, names@, i as int),
        decreases props.len() - i,
    {
        if named_any_exec(&elem.properties[i], names) {
            return Some(i);
        }
        i = i + 1;
    }
    None
}

/// Whether the property at `i` is a scalar `uchar`.
pub open spec fn is_byte_prop(props: Seq<PropertyView>, i: Option<usize>) -> bool {
    match i {
        Some(k) => k < props.len() && props[k as int].prop_type == PropType::Scalar(ScalarType::U8),
        None => false,
    }
}

pub open spec fn uv_s_names(ch: int) -> Seq<&'static str> {
    if ch == 0 { seq!["s", "u", "texture_u"] }
    else if ch == 1 { seq!["s1", "texture_u1"] }
    else if ch == 2 { seq!["s2", "texture_u2"] }
    else if ch == 3 { seq!["s3", "texture_u3"] }
    else if ch == 4 { seq!["s4", "texture_u4"] }
    else if ch == 5 { seq!["s5", "texture_u5"] }
    else if ch == 6 { seq!["s6", "texture_u6"] }
    else { seq!["s7", "texture_u7"] }
}

pub open spec fn uv_t_names(ch: int) -> Seq<&'static str> {
    if ch == 0 { seq!["t", "v", "texture_v"] }
    else if ch == 1 { seq!["t1", "texture_v1"] }
    else if ch == 2 { seq!["t2", "texture_v2"] }
    else if ch == 3 { seq!["t3", "texture_v3"] }
    else if ch == 4 { seq!["t4", "texture_v4"] }
    else if ch == 5 { seq!["t5", "texture_v5"] }
    else if ch == 6 { seq!["t6", "texture_v6"] }
    else { seq!["t7", "texture_v7"] }
}

/// The layout of a vertex element: position, normal, colour and eight UV
/// channels, each found by name.
pub open spec fn layout_of(props: Seq<PropertyView>) -> VertexLayoutView {
    let red = find_prop_spec(props, seq!["red", "r"]);
    VertexLayoutView {
        x: find_prop_spec(props, seq!["x"]),
        y: find_prop_spec(props, seq!["y"]),
        z: find_prop_spec(props, seq!["z"]),
        nx: find_prop_spec(props, seq!["nx"]),
        ny: find_prop_spec(props, seq!["ny"]),
        nz: find_prop_spec(props, seq!["nz"]),
        red,
        green: find_prop_spec(props, seq!["green", "g"]),
        blue: find_prop_spec(props, seq!["blue", "b"]),
        alpha: find_prop_spec(props, seq!["alpha", "a"]),
        uv_s: Seq::new(8, |ch: int| find_prop_spec(props, uv_s_names(ch))),
        uv_t: Seq::new(8, |ch: int| find_prop_spec(props, uv_t_names(ch))),
        color_is_byte: is_byte_prop(props, red),
    }
}

fn uv_names_exec(ch: usize, t: bool) -> (r: &'static [&'static str])
    requires
        ch < 8,
    ensures
        r@ == (if t { uv_t_names(ch as int) } else { uv_s_names(ch as int) }),
{
    if !t {
        if ch == 0 { &["s", "u", "texture_u"] }
        else if ch == 1 { &["s1", "texture_u1"] }
        else if ch == 2 { &["s2", "texture_u2"] }
        else if ch == 3 { &["s3", "texture_u3"] }
        else if ch == 4 { &["s4", "texture_u4"] }
        else if ch == 5 { &["s5", "texture_u5"] }
        else if ch == 6 { &["s6", "texture_u6"] }
        else { &["s7", "texture_u7"] }
    } else {
        if ch == 0 { &["t", "v", "texture_v"] }
        else if ch == 1 { &["t1", "texture_v1"] }
        else if ch == 2 { &["t2", "texture_v2"] }
        else if ch == 3 { &["t3", "texture_v3"] }
        else if ch == 4 { &["t4", "texture_v4"] }
        else if ch == 5 { &["t5", "texture_v5"] }
        else if ch == 6 { &["t6", "texture_v6"] }
        else { &["t7", "texture_v7"] }
    }
}

/// The layout of a vertex element.
pub fn vertex_layout(elem: &Element) -> (r: VertexLayout)
    ensures
        r@ == layout_of(elem@.properties),
        first_named_prop(elem@.properties, "x".spec_bytes(), r.x),
        first_named_prop(elem@.properties, "y".spec_bytes(), r.y),
        first_named_prop(elem@.properties, "z".spec_bytes(), r.z),
        first_named_prop(elem@.properties, "nx".spec_bytes(), r.nx),
        first_named_prop(elem@.properties, "ny".spec_bytes(), r.ny),
        first_named_prop(elem@.properties, "nz".spec_bytes(), r.nz),
{
    let np = elem.properties.len();
    proof {
        assert(elem@.properties.len() == np);
        lemma_layout_by_name(elem@.properties);
    }
    let n_x: &[&str] = &["x"];
    let n_y: &[&str] = &["y"];
    let n_z: &[&str] = &["z"];
    let n_nx: &[&str] = &["nx"];
    let n_ny: &[&str] = &["ny"];
    let n_nz: &[&str] = &["nz"];
    let n_red: &[&str] = &["red", "r"];
    let n_green: &[&str] = &["green", "g"];
    let n_blue: &[&str] = &["blue", "b"];
    let n_alpha: &[&str] = &["alpha", "a"];
    assert(n_x@ =~= seq!["x"]);
    assert(n_y@ =~= seq!["y"]);
    assert(n_z@ =~= seq!["z"]);
    assert(n_nx@ =~= seq!["nx"]);
    assert(n_ny@ =~= seq!["ny"]);
    assert(n_nz@ =~= seq!["nz"]);
    assert(n_red@ =~= seq!["red", "r"]);
    assert(n_green@ =~= seq!["green", "g"]);
    assert(n_blue@ =~= seq!["blue", "b"]);
    assert(n_alpha@ =~= seq!["alpha", "a"]);
    let red = find_prop(elem, n_red);
    let color_is_byte = match red {
        Some(k) => k < elem.properties.len() && elem.properties[k].prop_type == PropType::Scalar(ScalarType::U8),
        None => false,
    };
    let mut uv_s: Vec<Option<usize>> = Vec::new();
    let mut uv_t: Vec<Option<usize>> = Vec::new();
    let mut ch: usize = 0;
    while ch < 8
        invariant
            ch <= 8,
            uv_s@.len() == ch,
            uv_t@.len() == ch,
            forall|c: int| 0 <= c < ch ==> uv_s@[c] == find_prop_spec(elem@.properties, uv_s_names(c)),
            forall|c: int| 0 <= c < ch ==> uv_t@[c] == find_prop_spec(elem@.properties, uv_t_names(c)),
        decreases 8 - ch,
    {
        uv_s.push(find_prop(elem, uv_names_exec(ch, false)));
        uv_t.push(find_prop(elem, uv_names_exec(ch, true)));
        ch = ch + 1;
    }
    let r = VertexLayout {
        x: find_prop(elem, n_x),
        y: find_prop(elem, n_y),
        z: find_prop(elem, n_z),
        nx: find_prop(elem, n_nx),
        ny: find_prop(elem, n_ny),
        nz: find_prop(elem, n_nz),
        red,
        green: find_prop(elem, n_green),
        blue: find_prop(elem, n_blue),
        alpha: find_prop(elem, n_alpha),
        uv_s,
        uv_t,
        color_is_byte,
    };
    proof {
        assert(r@.uv_s =~= layout_of(elem@.properties).uv_s);
        assert(r@.uv_t =~= layout_of(elem@.properties).uv_t);
    }
    r
}

} // verus!

verus! {

// ── Values ───────────────────────────────────────────────────────────────────

/// The raw value of type `t` stored at byte `off` of `b`.
pub open spec fn value_at(b: Seq<u8>, off: int, t: ScalarType, be: bool) -> PlyValueView {
    let v16 = if be { be16(b, off) } else { le16(b, off) };
    let v32 = if be { be32(b, off) } else { le32(b, off) };
    let v64 = if be { be64(b, off) } else { le64(b, off) };
    match t {
        ScalarType::I8 => PlyValueView::Int(signed8(b[off] as nat) as i64),
        ScalarType::U8 => PlyValueView::Int(b[off] as i64),
        ScalarType::I16 => PlyValueView::Int(signed16(v16) as i64),
        ScalarType::U16 => PlyValueView::Int(v16 as i64),
        ScalarType::I32 => PlyValueView::Int(signed32(v32) as i64),
        ScalarType::U32 => PlyValueView::Int(v32 as i64),
        ScalarType::F32 => PlyValueView::F32Bits(v32 as u32),
        ScalarType::F64 => PlyValueView::F64Bits(v64 as u64),
    }
}

/// The `n` bytes at `off` of `b2` are those of `b1` in reverse order.
pub open spec fn reversed_at(b1: Seq<u8>, b2: Seq<u8>, off: int, n: nat) -> bool {
    &&& 0 <= off
    &&& off + n <= b1.len()
    &&& off + n <= b2.len()
    &&& forall|k: int| 0 <= k < n ==> #[trigger] b2[off + k] == b1[off + n - 1 - k]
}

/// A scalar stored big-endian reads as the same value as its bytes
/// reversed read little-endian: the two byte orders of a binary body agree
/// value by value.
pub proof fn lemma_value_byte_order(b1: Seq<u8>, b2: Seq<u8>, off: int, t: ScalarType)
    requires
        reversed_at(b1, b2, off, scalar_size(t)),
    ensures
        value_at(b1, off, t, true) == value_at(b2, off, t, false),
{
    let n = scalar_size(t);
    assert(b2[off + 0] == b1[off + n - 1]);
    if n >= 2 {
        assert(b2[off + 1] == b1[off + n - 2]);
    }
    if n >= 4 {
        assert(b2[off + 2] == b1[off + n - 3]);
        assert(b2[off + 3] == b1[off + n - 4]);
    }
    if n == 8 {
        assert(b2[off + 4] == b1[off + 3]);
        assert(b2[off + 5] == b1[off + 2]);
        assert(b2[off + 6] == b1[off + 1]);
        assert(b2[off + 7] == b1[off + 0]);
        assert(be64(b1, off) == le64(b2, off));
    }
}

/// The value converted as Rust's `as` converts it to an unsigned integer
/// type whose maximum is `max`: truncated toward zero, 0 for negatives and
/// NaN, saturated at `max`.
pub open spec fn value_to_unsigned(v: PlyValueView, max: nat) -> nat {
    match v {
        PlyValueView::Int(i) => if i < 0 { 0 } else { sat(i as nat, max) },
        PlyValueView::F32Bits(b) => f32_bits_to_unsigned(b, max),
        PlyValueView::F64Bits(b) => f64_bits_to_unsigned(b, max),
        _ => 0,
    }
}

/// Reads the value of type `t` at `off`.
pub fn read_value(b: &[u8], off: usize, t: ScalarType, be: bool) -> (r: PlyValue)
    requires
        off + scalar_size(t) <= b@.len(),
    ensures
        r@ == value_at(b@, off as int, t, be),
{
    match t {
        ScalarType::I8 => PlyValue::Int(to_i8(b[off]) as i64),
        ScalarType::U8 => PlyValue::Int(b[off] as i64),
        ScalarType::I16 => {
            let v = if be { read_u16_be(b, off) } else { read_u16_le(b, off) };
            PlyValue::Int(to_i16(v) as i64)
        },
        ScalarType::U16 => {
            let v = if be { read_u16_be(b, off) } else { read_u16_le(b, off) };
            PlyValue::Int(v as i64)
        },
        ScalarType::I32 => {
            let v = if be { read_u32_be(b, off) } else { read_u32_le(b, off) };
            PlyValue::Int(to_i32(v) as i64)
        },
        ScalarType::U32 => {
            let v = if be { read_u32_be(b, off) } else { read_u32_le(b, off) };
            PlyValue::Int(v as i64)
        },
        ScalarType::F32 => {
            let v = if be { read_u32_be(b, off) } else { read_u32_le(b, off) };
            PlyValue::F32Bits(v)
        },
        ScalarType::F64 => {
            let v = if be { read_u64_be(b, off) } else { read_u64_le(b, off) };
            PlyValue::F64Bits(v)
        },
    }
}

/// The value as an unsigned integer of maximum `max`.
pub fn value_to_unsigned_exec(v: &PlyValue, max: u64) -> (r: u64)
    ensures
        r == value_to_unsigned(v@, max as nat),
{
    match v {
        PlyValue::Int(i) => {
            if *i < 0 {
                0
            } else if (*i as u64) > max {
                max
            } else {
                *i as u64
            }
        },
        PlyValue::F32Bits(b) => f32_bits_to_unsigned_exec(*b, max),
        PlyValue::F64Bits(b) => f64_bits_to_unsigned_exec(*b, max),
        _ => 0,
    }
}

// ── Triangulation ────────────────────────────────────────────────────────────

/// Fan triangles `(v0, vi, vi+1)` for `i` from `i` on.
pub open spec fn fan_from(vs: Seq<u32>, i: int) -> Seq<u32>
    decreases vs.len() - i,
{
    if i < 1 || i + 1 >= vs.len() {
        seq![]
    } else {
        seq![vs[0], vs[i], vs[i + 1]] + fan_from(vs, i + 1)
    }
}

/// Fan triangulation of a polygon: `(v0, v1, v2), (v0, v2, v3), ...`;
/// nothing for fewer than three corners.
pub open spec fn fan(vs: Seq<u32>) -> Seq<u32> {
    if vs.len() >= 3 {
        fan_from(vs, 1)
    } else {
        seq![]
    }
}

/// Appends the fan triangulation of `vs`.
pub fn push_fan(out: &mut Vec<u32>, vs: &[u32])
    ensures
        final(out)@ == old(out)@ + fan(vs@),
{
    if vs.len() < 3 {
        assert(old(out)@ + fan(vs@) =~= old(out)@);
        return;
    }
    let mut i: usize = 1;
    while i < vs.len() - 1
        invariant
            vs@.len() >= 3,
            1 <= i < vs@.len(),
            out@ + fan_from(vs@, i as int) == old(out)@ + fan(vs@),
        decreases vs@.len() - i,
    {
        let ghost before = out@;
        out.push(vs[0]);
        out.push(vs[i]);
        out.push(vs[i + 1]);
        assert(out@ =~= before + seq![vs@[0], vs@[i as int], vs@[i + 1]]);
        assert(before + fan_from(vs@, i as int) =~= out@ + fan_from(vs@, i + 1));
        i = i + 1;
    }
    assert(out@ + fan_from(vs@, i as int) =~= out@);
}

// ── Binary rows ──────────────────────────────────────────────────────────────

/// A list property holding face corners.
pub open spec fn is_face_list(p: PropertyView) -> bool {
    named_any(p, seq!["vertex_indices", "vertex_index"])
}

/// What one row (from property `props[0]` on) yields.
pub struct RowOut {
    pub values: Seq<PlyValueView>,
    pub face: Seq<u32>,
    pub end: int,
}

/// The corner indices of a face list of `cnt` values of type `vt` at `start`.
pub open spec fn list_values(b: Seq<u8>, start: int, cnt: nat, vt: ScalarType, be: bool) -> Seq<u32> {
    Seq::new(
        cnt,
        |j: int| value_to_unsigned(value_at(b, start + j * scalar_size(vt), vt, be), u32::MAX as nat) as u32,
    )
}

/// One property read at `cur`: its value, the face corners it holds, and
/// the offset after it.
#[verifier::opaque]
pub open spec fn prop_step(b: Seq<u8>, be: bool, p: PropertyView, cur: int) -> Result<(PlyValueView, Seq<u32>, int), PlyError> {
    match p.prop_type {
        PropType::Scalar(t) => if cur + scalar_size(t) > b.len() {
            Err(PlyError::UnexpectedEnd)
        } else {
            Ok((value_at(b, cur, t, be), seq![], cur + scalar_size(t)))
        },
        PropType::List { count_type: ct, value_type: vt } => if cur + scalar_size(ct) > b.len() {
            Err(PlyError::UnexpectedEnd)
        } else {
            let cnt = value_to_unsigned(value_at(b, cur, ct, be), usize::MAX as nat);
            let start = cur + scalar_size(ct);
            if start + cnt * scalar_size(vt) > b.len() {
                Err(PlyError::UnexpectedEnd)
            } else {
                let vals = if is_face_list(p) { list_values(b, start, cnt, vt, be) } else { seq![] };
                Ok((PlyValueView::ListPlaceholder, vals, start + cnt * scalar_size(vt)))
            }
        },
    }
}

/// Reads one row of properties `props` starting at `cur`.
pub open spec fn row_from(b: Seq<u8>, be: bool, props: Seq<PropertyView>, cur: int) -> Result<RowOut, PlyError>
    decreases props.len(),
{
    if props.len() == 0 {
        Ok(RowOut { values: seq![], face: seq![], end: cur })
    } else {
        match prop_step(b, be, props[0], cur) {
            Err(e) => Err(e),
            Ok((v, f, c2)) => match row_from(b, be, props.drop_first(), c2) {
                Err(e) => Err(e),
                Ok(rest) => Ok(RowOut { values: seq![v] + rest.values, face: f + rest.face, end: rest.end }),
            },
        }
    }
}

/// What a run of rows yields.
pub struct RowsOut {
    pub rows: Seq<Seq<PlyValueView>>,
    pub faces: Seq<u32>,
    pub end: int,
}

/// Reads `n` rows starting at `cur`; each row's face corners are fan-triangulated.
pub open spec fn rows_from(b: Seq<u8>, be: bool, props: Seq<PropertyView>, cur: int, n: nat) -> Result<RowsOut, PlyError>
    decreases n,
{
    if n == 0 {
        Ok(RowsOut { rows: seq![], faces: seq![], end: cur })
    } else {
        match row_from(b, be, props, cur) {
            Err(e) => Err(e),
            Ok(r) => match rows_from(b, be, props, r.end, (n - 1) as nat) {
                Err(e) => Err(e),
                Ok(rest) => Ok(RowsOut { rows: seq![r.values] + rest.rows, faces: fan(r.face) + rest.faces, end: rest.end }),
            },
        }
    }
}

/// The least number of bytes a row of `props` occupies.
pub open spec fn min_row_size(props: Seq<PropertyView>) -> nat
    decreases props.len(),
{
    if props.len() == 0 {
        0
    } else {
        let s = match props[0].prop_type {
            PropType::Scalar(t) => scalar_size(t),
            PropType::List { count_type, .. } => scalar_size(count_type),
        };
        s + min_row_size(props.drop_first())
    }
}

/// The vertex blocks and triangle corners read so far.
#[verifier::ext_equal]
pub struct BodyOut {
    pub blocks: Seq<VertexBlockView>,
    pub indices: Seq<u32>,
}

/// What one element contributes, given its rows.
pub open spec fn element_out(e: ElementView, rows: Seq<Seq<PlyValueView>>, faces: Seq<u32>) -> BodyOut {
    if e.name == "vertex".spec_bytes() {
        BodyOut { blocks: seq![VertexBlockView { layout: layout_of(e.properties), rows }], indices: seq![] }
    } else if e.name == "face".spec_bytes() {
        BodyOut { blocks: seq![], indices: faces }
    } else {
        BodyOut { blocks: seq![], indices: seq![] }
    }
}

pub open spec fn join(a: BodyOut, b: BodyOut) -> BodyOut {
    BodyOut { blocks: a.blocks + b.blocks, indices: a.indices + b.indices }
}

/// Reads the elements `elems` of a binary body from `cur` on.
pub open spec fn binary_elements(b: Seq<u8>, be: bool, elems: Seq<ElementView>, cur: int) -> Result<BodyOut, PlyError>
    decreases elems.len(),
{
    if elems.len() == 0 {
        Ok(BodyOut { blocks: seq![], indices: seq![] })
    } else {
        let e = elems[0];
        if e.count * min_row_size(e.properties) > b.len() - cur {
            Err(PlyError::ElementCountTooLarge { count: e.count })
        } else {
            match rows_from(b, be, e.properties, cur, e.count as nat) {
                Err(err) => Err(err),
                Ok(rs) => match binary_elements(b, be, elems.drop_first(), rs.end) {
                    Err(err) => Err(err),
                    Ok(rest) => Ok(join(element_out(e, rs.rows, rs.faces), rest)),
                },
            }
        }
    }
}

/// Total number of vertex rows.
pub open spec fn total_rows(blocks: Seq<VertexBlockView>) -> nat
    decreases blocks.len(),
{
    if blocks.len() == 0 {
        0
    } else {
        blocks[0].rows.len() + total_rows(blocks.drop_first())
    }
}

/// The first corner index that is not below `n`.
pub open spec fn first_out_of_range(idx: Seq<u32>, n: nat) -> Option<u32>
    decreases idx.len(),
{
    if idx.len() == 0 {
        None
    } else if idx[0] >= n {
        Some(idx[0])
    } else {
        first_out_of_range(idx.drop_first(), n)
    }
}

/// The mesh of a body, after checking every corner index against the
/// number of vertices.
pub open spec fn checked_mesh(r: Result<BodyOut, PlyError>) -> Result<PlyMeshView, PlyError> {
    match r {
        Err(e) => Err(e),
        Ok(o) => match first_out_of_range(o.indices, total_rows(o.blocks)) {
            Some(i) => Err(PlyError::IndexOutOfRange { index: i }),
            None => Ok(PlyMeshView { blocks: o.blocks, indices: o.indices }),
        },
    }
}

/// The mesh held by a binary body.
pub open spec fn binary_body_spec(elems: Seq<ElementView>, body: Seq<u8>, be: bool) -> Result<PlyMeshView, PlyError> {
    checked_mesh(binary_elements(body, be, elems, 0))
}

} // verus!

verus! {

pub open spec fn combine_row(v: Seq<PlyValueView>, f: Seq<u32>, r: Result<RowOut, PlyError>) -> Result<RowOut, PlyError> {
    match r {
        Err(e) => Err(e),
        Ok(o) => Ok(RowOut { values: v + o.values, face: f + o.face, end: o.end }),
    }
}

pub open spec fn elems_view(elems: Seq<Element>) -> Seq<ElementView> {
    elems.map_values(|e: Element| e@)
}

/// Reads the corner indices of a face list.
fn read_list_values(b: &[u8], start: usize, cnt: usize, vt: ScalarType, be: bool, out: &mut Vec<u32>)
    requires
        start + cnt * scalar_size(vt) <= b@.len(),
    ensures
        final(out)@ == old(out)@ + list_values(b@, start as int, cnt as nat, vt, be),
{
    let sz = vt.byte_size();
    let n = b.len();
    let mut j: usize = 0;
    while j < cnt
        invariant
            n == b@.len(),
            start + cnt * sz <= b@.len(),
            sz == scalar_size(vt),
            j <= cnt,
            out@ == old(out)@ + list_values(b@, start as int, cnt as nat, vt, be).take(j as int),
        decreases cnt - j,
    {
        proof {
            assert((j + 1) * sz <= cnt * sz) by (nonlinear_arith)
                requires j < cnt, sz >= 0;
            assert((j + 1) * sz == j * sz + sz) by (nonlinear_arith);
            assert(j * sz <= cnt * sz) by (nonlinear_arith)
                requires j < cnt, sz >= 0;
        }
        let off = start + j * sz;
        let v = read_value(b, off, vt, be);
        let u = value_to_unsigned_exec(&v, 4294967295) as u32;
        let ghost before = out@;
        out.push(u);
        proof {
            let lv = list_values(b@, start as int, cnt as nat, vt, be);
            assert(lv[j as int] == u);
            assert(lv.take(j + 1) =~= lv.take(j as int).push(u));
            assert(out@ =~= old(out)@ + lv.take(j + 1));
        }
        j = j + 1;
    }
    proof {
        let lv = list_values(b@, start as int, cnt as nat, vt, be);
        assert(lv.take(cnt as int) =~= lv);
    }
}

/// Reads one property at `c`.
fn read_prop(b: &[u8], be: bool, p: &Property, c: usize, face: &mut Vec<u32>) -> (r: Result<(PlyValue, usize), PlyError>)
    requires
        c <= b@.len(),
    ensures
        match r {
            Ok((v, c2)) => exists|f: Seq<u32>| prop_step(b@, be, p@, c as int) == Ok::<(PlyValueView, Seq<u32>, int), PlyError>((v@, f, c2 as int)) && final(face)@ == old(face)@ + f && c2 <= b@.len(),
            Err(e) => prop_step(b@, be, p@, c as int) == Err::<(PlyValueView, Seq<u32>, int), PlyError>(e),
        },
{
    reveal(prop_step);
    let n = b.len();
    match p.prop_type {
        PropType::Scalar(t) => {
            let sz = t.byte_size();
            if sz > n - c {
                return Err(PlyError::UnexpectedEnd);
            }
            let v = read_value(b, c, t, be);
            assert(face@ =~= old(face)@ + Seq::<u32>::empty());
            Ok((v, c + sz))
        },
        PropType::List { count_type: ct, value_type: vt } => {
            let csz = ct.byte_size();
            if csz > n - c {
                return Err(PlyError::UnexpectedEnd);
            }
            let cv = read_value(b, c, ct, be);
            let cnt = value_to_unsigned_exec(&cv, usize::MAX as u64) as usize;
            let start = c + csz;
            let vsz = vt.byte_size();
            let need = match cnt.checked_mul(vsz) {
                Some(x) => x,
                None => {
                    proof {
                        assert(cnt * vsz > n - start) by (nonlinear_arith)
                            requires cnt * vsz > usize::MAX, n <= usize::MAX, start >= 0;
                    }
                    return Err(PlyError::UnexpectedEnd);
                },
            };
            if need > n - start {
                return Err(PlyError::UnexpectedEnd);
            }
            let arr: &[&str] = &["vertex_indices", "vertex_index"];
            assert(arr@ =~= seq!["vertex_indices", "vertex_index"]);
            let is_face = named_any_exec(p, arr);
            if is_face {
                read_list_values(b, start, cnt, vt, be, face);
            } else {
                assert(face@ =~= old(face)@ + Seq::<u32>::empty());
            }
            Ok((PlyValue::ListPlaceholder, start + need))
        },
    }
}

/// Reads one row of `elem`'s properties starting at `cur`.
fn read_row(b: &[u8], be: bool, elem: &Element, cur: usize) -> (r: Result<(Vec<PlyValue>, Vec<u32>, usize), PlyError>)
    requires
        cur <= b@.len(),
    ensures
        match r {
            Ok((vals, face, end)) => row_from(b@, be, elem@.properties, cur as int) == Ok::<RowOut, PlyError>(
                RowOut { values: row_view(vals), face: face@, end: end as int },
            ) && end <= b@.len(),
            Err(e) => row_from(b@, be, elem@.properties, cur as int) == Err::<RowOut, PlyError>(e),
        },
{
    let ghost props = elem@.properties;
    let mut vals: Vec<PlyValue> = Vec::new();
    let mut face: Vec<u32> = Vec::new();
    let mut c = cur;
    let mut k: usize = 0;
    proof {
        assert(props.skip(0) =~= props);
        match row_from(b@, be, props, cur as int) {
            Ok(o) => {
                assert(row_view(vals) + o.values =~= o.values);
                assert(face@ + o.face =~= o.face);
            },
            Err(_) => {},
        }
    }
    while k < elem.properties.len()
        invariant
            props == elem@.properties,
            props.len() == elem.properties@.len(),
            k <= props.len(),
            c <= b@.len(),
            row_from(b@, be, props, cur as int) == combine_row(row_view(vals), face@, row_from(b@, be, props.skip(k as int), c as int)),
        decreases props.len() - k,
    {
        let ghost rest = props.skip(k as int);
        let ghost vbefore = row_view(vals);
        let ghost fbefore = face@;
        let ghost c0 = c as int;
        proof {
            assert(rest[0] == elem.properties@[k as int]@);
            assert(rest.drop_first() =~= props.skip(k + 1));
        }
        let (v, c2) = read_prop(b, be, &elem.properties[k], c, &mut face)?;
        vals.push(v);
        c = c2;
        proof {
            let f = choose|f: Seq<u32>| prop_step(b@, be, rest[0], c0) == Ok::<(PlyValueView, Seq<u32>, int), PlyError>((v@, f, c2 as int)) && face@ == fbefore + f;
            assert(row_view(vals) =~= vbefore.push(v@));
            match row_from(b@, be, props.skip(k + 1), c as int) {
                Ok(o) => {
                    assert(vbefore + (seq![v@] + o.values) =~= row_view(vals) + o.values);
                    assert(fbefore + (f + o.face) =~= face@ + o.face);
                },
                Err(_) => {},
            }
        }
        k = k + 1;
    }
    proof {
        assert(props.skip(k as int) =~= Seq::<PropertyView>::empty());
        assert(row_view(vals) + Seq::<PlyValueView>::empty() =~= row_view(vals));
        assert(face@ + Seq::<u32>::empty() =~= face@);
    }
    Ok((vals, face, c))
}

} // verus!

verus! {

pub open spec fn combine_rows(rows: Seq<Seq<PlyValueView>>, faces: Seq<u32>, r: Result<RowsOut, PlyError>) -> Result<RowsOut, PlyError> {
    match r {
        Err(e) => Err(e),
        Ok(o) => Ok(RowsOut { rows: rows + o.rows, faces: faces + o.faces, end: o.end }),
    }
}

pub open spec fn rows_view(rows: Vec<Vec<PlyValue>>) -> Seq<Seq<PlyValueView>> {
    rows@.map_values(|r: Vec<PlyValue>| row_view(r))
}

/// Reads `count` rows of `elem` starting at `cur`.
fn read_rows(b: &[u8], be: bool, elem: &Element, cur: usize, count: usize) -> (r: Result<(Vec<Vec<PlyValue>>, Vec<u32>, usize), PlyError>)
    requires
        cur <= b@.len(),
    ensures
        match r {
            Ok((rows, faces, end)) => rows_from(b@, be, elem@.properties, cur as int, count as nat) == Ok::<RowsOut, PlyError>(
                RowsOut { rows: rows_view(rows), faces: faces@, end: end as int },
            ) && end <= b@.len(),
            Err(e) => rows_from(b@, be, elem@.properties, cur as int, count as nat) == Err::<RowsOut, PlyError>(e),
        },
{
    let ghost props = elem@.properties;
    let mut rows: Vec<Vec<PlyValue>> = Vec::new();
    let mut faces: Vec<u32> = Vec::new();
    let mut c = cur;
    let mut i: usize = 0;
    proof {
        match rows_from(b@, be, props, cur as int, count as nat) {
            Ok(o) => {
                assert(rows_view(rows) + o.rows =~= o.rows);
                assert(faces@ + o.faces =~= o.faces);
            },
            Err(_) => {},
        }
    }
    while i < count
        invariant
            props == elem@.properties,
            i <= count,
            c <= b@.len(),
            rows_from(b@, be, props, cur as int, count as nat) == combine_rows(rows_view(rows), faces@, rows_from(b@, be, props, c as int, (count - i) as nat)),
        decreases count - i,
    {
        let ghost rbefore = rows_view(rows);
        let ghost fbefore = faces@;
        let (vals, face, c2) = read_row(b, be, elem, c)?;
        let ghost fan_here = fan(face@);
        push_fan(&mut faces, face.as_slice());
        rows.push(vals);
        c = c2;
        proof {
            assert(rows_view(rows) =~= rbefore.push(row_view(vals)));
            assert((count - i - 1) as nat == (count - i) as nat - 1);
            match rows_from(b@, be, props, c as int, (count - i - 1) as nat) {
                Ok(o) => {
                    assert(rbefore + (seq![row_view(vals)] + o.rows) =~= rows_view(rows) + o.rows);
                    assert(fbefore + (fan_here + o.faces) =~= faces@ + o.faces);
                },
                Err(_) => {},
            }
        }
        i = i + 1;
    }
    proof {
        assert(rows_view(rows) + Seq::<Seq<PlyValueView>>::empty() =~= rows_view(rows));
        assert(faces@ + Seq::<u32>::empty() =~= faces@);
    }
    Ok((rows, faces, c))
}

/// Least row size of `elem`, saturated.
fn min_row_size_exec(elem: &Element) -> (r: Option<usize>)
    ensures
        r matches Some(v) ==> v == min_row_size(elem@.properties),
        r is None ==> min_row_size(elem@.properties) > usize::MAX,
{
    let ghost props = elem@.properties;
    let mut total: usize = 0;
    let mut k: usize = elem.properties.len();
    proof {
        assert(props.skip(k as int) =~= Seq::<PropertyView>::empty());
    }
    while k > 0
        invariant
            props == elem@.properties,
            k <= props.len(),
            total == min_row_size(props.skip(k as int)),
        decreases k,
    {
        let s = match elem.properties[k - 1].prop_type {
            PropType::Scalar(t) => t.byte_size(),
            PropType::List { count_type, .. } => count_type.byte_size(),
        };
        proof {
            assert(props.skip(k - 1).drop_first() =~= props.skip(k as int));
            assert(props.skip(k - 1)[0] == props[k - 1]);
        }
        if total > usize::MAX - s {
            proof {
                lemma_min_row_size_suffix(props, k - 1);
            }
            return None;
        }
        total = total + s;
        k = k - 1;
    }
    assert(props.skip(0) =~= props);
    Some(total)
}

proof fn lemma_min_row_size_suffix(props: Seq<PropertyView>, k: int)
    requires
        0 <= k <= props.len(),
    ensures
        min_row_size(props.skip(k)) <= min_row_size(props),
    decreases k,
{
    if k > 0 {
        lemma_min_row_size_suffix(props, k - 1);
        assert(props.skip(k - 1).drop_first() =~= props.skip(k));
    } else {
        assert(props.skip(0) =~= props);
    }
}

pub open spec fn combine_body(acc: BodyOut, r: Result<BodyOut, PlyError>) -> Result<BodyOut, PlyError> {
    match r {
        Err(e) => Err(e),
        Ok(o) => Ok(join(acc, o)),
    }
}

pub open spec fn body_out(blocks: Seq<VertexBlockView>, indices: Seq<u32>) -> BodyOut {
    BodyOut { blocks, indices }
}

pub open spec fn blocks_view(blocks: Vec<VertexBlock>) -> Seq<VertexBlockView> {
    blocks@.map_values(|b: VertexBlock| b@)
}

/// Adds what one element contributes.
fn add_element(elem: &Element, rows: Vec<Vec<PlyValue>>, faces: &Vec<u32>, blocks: &mut Vec<VertexBlock>, indices: &mut Vec<u32>)
    ensures
        join(body_out(blocks_view(*old(blocks)), old(indices)@), element_out(elem@, rows_view(rows), faces@))
            == body_out(blocks_view(*final(blocks)), final(indices)@),
{
    if is_lit(elem.name.as_slice(), "vertex") {
        let layout = vertex_layout(elem);
        let ghost rv = rows_view(rows);
        let blk = VertexBlock { layout, rows };
        blocks.push(blk);
        proof {
            assert(blocks_view(*blocks) =~= blocks_view(*old(blocks)) + seq![blk@]);
            assert(indices@ =~= old(indices)@ + Seq::<u32>::empty());
        }
    } else if is_lit(elem.name.as_slice(), "face") {
        let mut i: usize = 0;
        while i < faces.len()
            invariant
                i <= faces@.len(),
                indices@ == old(indices)@ + faces@.take(i as int),
                blocks == old(blocks),
            decreases faces@.len() - i,
        {
            indices.push(faces[i]);
            assert(faces@.take(i + 1) =~= faces@.take(i as int).push(faces@[i as int]));
            i = i + 1;
        }
        assert(faces@.take(i as int) =~= faces@);
        assert(blocks_view(*blocks) =~= blocks_view(*old(blocks)) + Seq::<VertexBlockView>::empty());
    } else {
        assert(blocks_view(*blocks) =~= blocks_view(*old(blocks)) + Seq::<VertexBlockView>::empty());
        assert(indices@ =~= old(indices)@ + Seq::<u32>::empty());
    }
}

/// The first corner index not below `n`.
fn first_out_of_range_exec(idx: &Vec<u32>, n: usize) -> (r: Option<u32>)
    ensures
        r == first_out_of_range(idx@, n as nat),
{
    let mut i: usize = 0;
    assert(idx@.skip(0) =~= idx@);
    while i < idx.len()
        invariant
            i <= idx@.len(),
            first_out_of_range(idx@, n as nat) == first_out_of_range(idx@.skip(i as int), n as nat),
        decreases idx@.len() - i,
    {
        assert(idx@.skip(i as int).drop_first() =~= idx@.skip(i + 1));
        if idx[i] as usize >= n {
            return Some(idx[i]);
        }
        i = i + 1;
    }
    None
}

/// Number of vertex rows over all blocks, or `None` when it exceeds `usize::MAX`.
fn total_rows_exec(blocks: &Vec<VertexBlock>) -> (r: Option<usize>)
    ensures
        r matches Some(v) ==> v == total_rows(blocks_view(*blocks)),
        r is None ==> total_rows(blocks_view(*blocks)) > usize::MAX,
{
    let ghost bv = blocks_view(*blocks);
    let mut k: usize = blocks.len();
    let mut total: usize = 0;
    proof {
        assert(bv.skip(k as int) =~= Seq::<VertexBlockView>::empty());
    }
    while k > 0
        invariant
            bv == blocks_view(*blocks),
            k <= bv.len(),
            total == total_rows(bv.skip(k as int)),
        decreases k,
    {
        proof {
            assert(bv.skip(k - 1).drop_first() =~= bv.skip(k as int));
            assert(bv.skip(k - 1)[0] == blocks@[k - 1]@);
        }
        let r = blocks[k - 1].rows.len();
        if total > usize::MAX - r {
            proof {
                lemma_total_rows_suffix(bv, k - 1);
            }
            return None;
        }
        total = total + r;
        k = k - 1;
    }
    assert(bv.skip(0) =~= bv);
    Some(total)
}

proof fn lemma_total_rows_suffix(b: Seq<VertexBlockView>, k: int)
    requires
        0 <= k <= b.len(),
    ensures
        total_rows(b.skip(k)) <= total_rows(b),
    decreases k,
{
    if k > 0 {
        lemma_total_rows_suffix(b, k - 1);
        assert(b.skip(k - 1).drop_first() =~= b.skip(k));
    } else {
        assert(b.skip(0) =~= b);
    }
}

/// No `u32` index reaches a bound above `u32::MAX`.
proof fn lemma_no_out_of_range_above_u32(idx: Seq<u32>, n: nat)
    requires
        n > u32::MAX,
    ensures
        first_out_of_range(idx, n) is None,
    decreases idx.len(),
{
    if idx.len() > 0 {
        lemma_no_out_of_range_above_u32(idx.drop_first(), n);
    }
}

/// Checks every corner index against the number of vertex rows.
fn check_mesh(blocks: Vec<VertexBlock>, indices: Vec<u32>) -> (r: Result<PlyMesh, PlyError>)
    ensures
        match r {
            Ok(m) => checked_mesh(Ok(BodyOut { blocks: blocks_view(blocks), indices: indices@ })) == Ok::<PlyMeshView, PlyError>(m@),
            Err(e) => checked_mesh(Ok(BodyOut { blocks: blocks_view(blocks), indices: indices@ })) == Err::<PlyMeshView, PlyError>(e),
        },
{
    let nrows = match total_rows_exec(&blocks) {
        Some(n) => n,
        None => {
            proof {
                lemma_no_out_of_range_above_u32(indices@, total_rows(blocks_view(blocks)));
            }
            return Ok(PlyMesh { blocks, indices });
        },
    };
    match first_out_of_range_exec(&indices, nrows) {
        Some(i) => Err(PlyError::IndexOutOfRange { index: i }),
        None => Ok(PlyMesh { blocks, indices }),
    }
}

/// Reads the body of a binary PLY file: vertex rows of raw values, and the
/// fan-triangulated `vertex_indices` lists of face rows. Fails when an
/// element declares more rows than the remaining bytes could hold, when the
/// body ends inside a row, or when a corner index has no vertex.
pub fn parse_binary_body(elements: &[Element], body: &[u8], big_endian: bool) -> (r: Result<PlyMesh, PlyError>)
    ensures
        match r {
            Ok(m) => binary_body_spec(elems_view(elements@), body@, big_endian) == Ok::<PlyMeshView, PlyError>(m@),
            Err(e) => binary_body_spec(elems_view(elements@), body@, big_endian) == Err::<PlyMeshView, PlyError>(e),
        },
{
    let ghost ev = elems_view(elements@);
    let n = body.len();
    let mut blocks: Vec<VertexBlock> = Vec::new();
    let mut indices: Vec<u32> = Vec::new();
    let mut cur: usize = 0;
    let mut k: usize = 0;
    proof {
        assert(ev.skip(0) =~= ev);
        match binary_elements(body@, big_endian, ev, 0) {
            Ok(o) => {
                assert(blocks_view(blocks) + o.blocks =~= o.blocks);
                assert(indices@ + o.indices =~= o.indices);
            },
            Err(_) => {},
        }
    }
    while k < elements.len()
        invariant
            ev == elems_view(elements@),
            ev.len() == elements@.len(),
            n == body@.len(),
            k <= ev.len(),
            cur <= n,
            binary_elements(body@, big_endian, ev, 0) == combine_body(
                BodyOut { blocks: blocks_view(blocks), indices: indices@ },
                binary_elements(body@, big_endian, ev.skip(k as int), cur as int),
            ),
        decreases ev.len() - k,
    {
        let e = &elements[k];
        proof {
            assert(ev.skip(k as int)[0] == e@);
            assert(ev.skip(k as int).drop_first() =~= ev.skip(k + 1));
        }
        let too_many = match min_row_size_exec(e) {
            None => e.count > 0,
            Some(m) => m > 0 && e.count > (n - cur) / m,
        };
        proof {
            let m = min_row_size(e@.properties);
            if too_many {
                if m <= usize::MAX {
                    assert(e.count * m > n - cur) by (nonlinear_arith)
                        requires e.count > ((n - cur) as int) / (m as int), m > 0, n >= cur;
                } else {
                    assert(e.count * m > n - cur) by (nonlinear_arith)
                        requires e.count > 0, m > usize::MAX, n <= usize::MAX, n >= cur;
                }
            } else {
                if m > 0 {
                    assert(e.count * m <= n - cur) by (nonlinear_arith)
                        requires e.count <= ((n - cur) as int) / (m as int), m > 0, n >= cur;
                } else {
                    assert(e.count * m == 0) by (nonlinear_arith) requires m == 0;
                }
            }
        }
        if too_many {
            return Err(PlyError::ElementCountTooLarge { count: e.count });
        }
        let ghost bbefore = blocks_view(blocks);
        let ghost ibefore = indices@;
        let (rows, faces, end) = read_rows(body, big_endian, e, cur, e.count)?;
        let ghost rv = rows_view(rows);
        let ghost fv = faces@;
        add_element(e, rows, &faces, &mut blocks, &mut indices);
        cur = end;
        proof {
            let here = element_out(e@, rv, fv);
            match binary_elements(body@, big_endian, ev.skip(k + 1), cur as int) {
                Ok(o) => {
                    assert(join(BodyOut { blocks: bbefore, indices: ibefore }, join(here, o)) =~= join(
                        BodyOut { blocks: blocks_view(blocks), indices: indices@ },
                        o,
                    ));
                },
                Err(_) => {},
            }
        }
        k = k + 1;
    }
    proof {
        assert(ev.skip(k as int) =~= Seq::<ElementView>::empty());
        assert(join(BodyOut { blocks: blocks_view(blocks), indices: indices@ }, BodyOut { blocks: seq![], indices: seq![] }) =~= BodyOut { blocks: blocks_view(blocks), indices: indices@ });
    }
    check_mesh(blocks, indices)
}

} // verus!

verus! {

// ── ASCII body ───────────────────────────────────────────────────────────────

/// An ASCII vertex row: the text of each whitespace-separated token.
pub open spec fn text_row(line: Seq<u8>) -> Seq<PlyValueView> {
    words(line).map_values(|w: Seq<u8>| PlyValueView::Text(w))
}

/// The tokens that read as `u32`, in order.
pub open spec fn parse_nums(ws: Seq<Seq<u8>>) -> Seq<u32>
    decreases ws.len(),
{
    if ws.len() == 0 {
        seq![]
    } else {
        match parse_u32_spec(ws[0]) {
            Some(v) => seq![v] + parse_nums(ws.drop_first()),
            None => parse_nums(ws.drop_first()),
        }
    }
}

/// The triangles of one ASCII face row: `n i1 .. in` is fan-triangulated
/// when `n >= 3`; a row listing fewer than `n` indices is an error.
pub open spec fn ascii_face(line: Seq<u8>) -> Result<Seq<u32>, PlyError> {
    let nums = parse_nums(words(line));
    if nums.len() == 0 {
        Ok(seq![])
    } else {
        let c = nums[0];
        if c < 3 {
            Ok(seq![])
        } else if nums.len() <= c {
            Err(PlyError::FaceCountMismatch { declared: c })
        } else {
            Ok(fan(nums.subrange(1, c as int + 1)))
        }
    }
}

/// The triangles of a run of ASCII face rows.
pub open spec fn ascii_faces(ls: Seq<Seq<u8>>) -> Result<Seq<u32>, PlyError>
    decreases ls.len(),
{
    if ls.len() == 0 {
        Ok(seq![])
    } else {
        match ascii_face(ls[0]) {
            Err(e) => Err(e),
            Ok(f) => match ascii_faces(ls.drop_first()) {
                Err(e) => Err(e),
                Ok(rest) => Ok(f + rest),
            },
        }
    }
}

/// What one element of an ASCII body contributes, given its rows.
pub open spec fn ascii_element_out(e: ElementView, rows: Seq<Seq<u8>>) -> Result<BodyOut, PlyError> {
    if e.name == "vertex".spec_bytes() {
        Ok(BodyOut {
            blocks: seq![VertexBlockView { layout: layout_of(e.properties), rows: rows.map_values(|l: Seq<u8>| text_row(l)) }],
            indices: seq![],
        })
    } else if e.name == "face".spec_bytes() {
        match ascii_faces(rows) {
            Err(err) => Err(err),
            Ok(ix) => Ok(BodyOut { blocks: seq![], indices: ix }),
        }
    } else {
        Ok(BodyOut { blocks: seq![], indices: seq![] })
    }
}

/// Reads the elements of an ASCII body, one line per row.
pub open spec fn ascii_elements(elems: Seq<ElementView>, ls: Seq<Seq<u8>>) -> Result<BodyOut, PlyError>
    decreases elems.len(),
{
    if elems.len() == 0 {
        Ok(BodyOut { blocks: seq![], indices: seq![] })
    } else {
        let e = elems[0];
        if e.count > ls.len() {
            Err(PlyError::ElementCountTooLarge { count: e.count })
        } else {
            match ascii_element_out(e, ls.take(e.count as int)) {
                Err(err) => Err(err),
                Ok(here) => match ascii_elements(elems.drop_first(), ls.skip(e.count as int)) {
                    Err(err) => Err(err),
                    Ok(rest) => Ok(join(here, rest)),
                },
            }
        }
    }
}

/// The mesh held by an ASCII body.
pub open spec fn ascii_body_spec(elems: Seq<ElementView>, body: Seq<u8>) -> Result<PlyMeshView, PlyError> {
    if !valid_utf8(body) {
        Err(PlyError::BodyNotUtf8)
    } else {
        checked_mesh(ascii_elements(elems, lines(body)))
    }
}

fn parse_nums_exec(ws: &Vec<Vec<u8>>) -> (r: Vec<u32>)
    ensures
        r@ == parse_nums(vv(*ws)),
{
    let ghost all = vv(*ws);
    let mut out: Vec<u32> = Vec::new();
    let mut i: usize = 0;
    assert(all.skip(0) =~= all);
    assert(out@ + parse_nums(all) =~= parse_nums(all));
    while i < ws.len()
        invariant
            all == vv(*ws),
            i <= all.len(),
            parse_nums(all) == out@ + parse_nums(all.skip(i as int)),
        decreases all.len() - i,
    {
        assert(all.skip(i as int).drop_first() =~= all.skip(i + 1));
        assert(all.skip(i as int)[0] == ws@[i as int]@);
        let ghost before = out@;
        match parse_u32(ws[i].as_slice()) {
            Some(v) => {
                out.push(v);
                assert(before + (seq![v] + parse_nums(all.skip(i + 1))) =~= out@ + parse_nums(all.skip(i + 1)));
            },
            None => {},
        }
        i = i + 1;
    }
    assert(all.skip(i as int) =~= Seq::<Seq<u8>>::empty());
    assert(out@ + Seq::<u32>::empty() =~= out@);
    out
}

pub open spec fn combine_faces(acc: Seq<u32>, r: Result<Seq<u32>, PlyError>) -> Result<Seq<u32>, PlyError> {
    match r {
        Ok(f) => Ok(acc + f),
        Err(e) => Err(e),
    }
}

/// Appends the triangles of one ASCII face row.
fn ascii_face_exec(line: &[u8], out: &mut Vec<u32>) -> (r: Result<(), PlyError>)
    ensures
        match r {
            Ok(()) => combine_faces(old(out)@, ascii_face(line@)) == Ok::<Seq<u32>, PlyError>(final(out)@),
            Err(e) => ascii_face(line@) == Err::<Seq<u32>, PlyError>(e),
        },
{
    let ws = split_words(line);
    let nums = parse_nums_exec(&ws);
    if nums.len() == 0 {
        assert(out@ =~= old(out)@ + Seq::<u32>::empty());
        return Ok(());
    }
    let c = nums[0];
    if c < 3 {
        assert(out@ =~= old(out)@ + Seq::<u32>::empty());
        return Ok(());
    }
    if nums.len() <= c as usize {
        return Err(PlyError::FaceCountMismatch { declared: c });
    }
    let corners = vstd::slice::slice_subrange(nums.as_slice(), 1, c as usize + 1);
    push_fan(out, corners);
    Ok(())
}

/// Reads a run of ASCII face rows `ls[from..to]`.
fn ascii_faces_exec(ls: &Vec<Vec<u8>>, from: usize, to: usize, out: &mut Vec<u32>) -> (r: Result<(), PlyError>)
    requires
        from <= to <= ls@.len(),
    ensures
        match r {
            Ok(()) => combine_faces(old(out)@, ascii_faces(vv(*ls).subrange(from as int, to as int))) == Ok::<Seq<u32>, PlyError>(final(out)@),
            Err(e) => ascii_faces(vv(*ls).subrange(from as int, to as int)) == Err::<Seq<u32>, PlyError>(e),
        },
{
    let ghost rows = vv(*ls).subrange(from as int, to as int);
    let mut i = from;
    proof {
        assert(rows.skip(0) =~= rows);
    }
    while i < to
        invariant
            rows == vv(*ls).subrange(from as int, to as int),
            from <= i <= to <= ls@.len(),
            combine_faces(old(out)@, ascii_faces(rows)) == combine_faces(out@, ascii_faces(rows.skip(i - from))),
        decreases to - i,
    {
        let ghost rest = rows.skip(i - from);
        let ghost before = out@;
        proof {
            assert(rest[0] == ls@[i as int]@);
            assert(rest.drop_first() =~= rows.skip(i + 1 - from));
        }
        ascii_face_exec(ls[i].as_slice(), out)?;
        proof {
            let f1 = ascii_face(rest[0])->Ok_0;
            assert(out@ == before + f1);
            match ascii_faces(rows.skip(i + 1 - from)) {
                Ok(g2) => assert(before + (f1 + g2) =~= out@ + g2),
                Err(_) => {},
            }
        }
        i = i + 1;
    }
    proof {
        assert(rows.skip(i - from) =~= Seq::<Seq<u8>>::empty());
        assert(out@ + Seq::<u32>::empty() =~= out@);
    }
    Ok(())
}

} // verus!

verus! {

/// One ASCII vertex row.
fn text_row_exec(line: &[u8]) -> (r: Vec<PlyValue>)
    ensures
        row_view(r) == text_row(line@),
{
    let ws = split_words(line);
    let ghost wv = vv(ws);
    let mut out: Vec<PlyValue> = Vec::new();
    let mut i: usize = 0;
    while i < ws.len()
        invariant
            wv == vv(ws),
            wv == words(line@),
            i <= wv.len(),
            row_view(out) == text_row(line@).take(i as int),
        decreases wv.len() - i,
    {
        let ghost before = row_view(out);
        let w = ws[i].clone();
        assert(w@ =~= wv[i as int]);
        out.push(PlyValue::Text(w));
        assert(row_view(out) =~= before.push(PlyValueView::Text(wv[i as int])));
        assert(text_row(line@)[i as int] == PlyValueView::Text(wv[i as int]));
        assert(row_view(out) =~= text_row(line@).take(i + 1));
        i = i + 1;
    }
    assert(text_row(line@).take(i as int) =~= text_row(line@));
    out
}

/// Reads the body of an ASCII PLY file, one line per row: vertex rows keep
/// the text of their tokens, face rows are fan-triangulated. Fails when the
/// body is not UTF-8, when an element declares more rows than lines remain,
/// when a face row lists fewer indices than it declares, or when a corner
/// index has no vertex.
pub fn parse_ascii_body(elements: &[Element], body: &[u8]) -> (r: Result<PlyMesh, PlyError>)
    ensures
        match r {
            Ok(m) => ascii_body_spec(elems_view(elements@), body@) == Ok::<PlyMeshView, PlyError>(m@),
            Err(e) => ascii_body_spec(elems_view(elements@), body@) == Err::<PlyMeshView, PlyError>(e),
        },
{
    if !is_valid_utf8(body) {
        return Err(PlyError::BodyNotUtf8);
    }
    let ls = split_lines(body);
    let ghost lv = vv(ls);
    let ghost ev = elems_view(elements@);
    let mut blocks: Vec<VertexBlock> = Vec::new();
    let mut indices: Vec<u32> = Vec::new();
    let mut li: usize = 0;
    let mut k: usize = 0;
    proof {
        assert(ev.skip(0) =~= ev);
        assert(lv.skip(0) =~= lv);
        match ascii_elements(ev, lv) {
            Ok(o) => {
                assert(blocks_view(blocks) + o.blocks =~= o.blocks);
                assert(indices@ + o.indices =~= o.indices);
            },
            Err(_) => {},
        }
    }
    while k < elements.len()
        invariant
            ev == elems_view(elements@),
            ev.len() == elements@.len(),
            lv == vv(ls),
            lv == lines(body@),
            valid_utf8(body@),
            k <= ev.len(),
            li <= lv.len(),
            ascii_elements(ev, lv) == combine_body(
                body_out(blocks_view(blocks), indices@),
                ascii_elements(ev.skip(k as int), lv.skip(li as int)),
            ),
        decreases ev.len() - k,
    {
        let e = &elements[k];
        proof {
            assert(ev.skip(k as int)[0] == e@);
            assert(ev.skip(k as int).drop_first() =~= ev.skip(k + 1));
        }
        if e.count > ls.len() - li {
            proof {
                assert(ascii_elements(ev.skip(k as int), lv.skip(li as int)) == Err::<BodyOut, PlyError>(PlyError::ElementCountTooLarge { count: e.count }));
            }
            return Err(PlyError::ElementCountTooLarge { count: e.count });
        }
        let end = li + e.count;
        let ghost rows = lv.skip(li as int).take(e.count as int);
        proof {
            assert(rows =~= lv.subrange(li as int, end as int));
            assert(lv.skip(li as int).skip(e.count as int) =~= lv.skip(end as int));
        }
        let ghost bbefore = blocks_view(blocks);
        let ghost ibefore = indices@;
        if is_lit(e.name.as_slice(), "vertex") {
            let layout = vertex_layout(e);
            let mut rws: Vec<Vec<PlyValue>> = Vec::new();
            let mut j = li;
            while j < end
                invariant
                    li <= j <= end <= ls@.len(),
                    lv == vv(ls),
                    rows == lv.subrange(li as int, end as int),
                    rows_view(rws) == rows.take(j - li).map_values(|l: Seq<u8>| text_row(l)),
                decreases end - j,
            {
                let r = text_row_exec(ls[j].as_slice());
                let ghost rb = rows_view(rws);
                rws.push(r);
                assert(rows_view(rws) =~= rb.push(row_view(r)));
                assert(rows[j - li] == ls@[j as int]@);
                assert(rows.take(j + 1 - li) =~= rows.take(j - li).push(ls@[j as int]@));
                assert(rows_view(rws) =~= rows.take(j + 1 - li).map_values(|l: Seq<u8>| text_row(l)));
                j = j + 1;
            }
            assert(rows.take(end - li) =~= rows);
            let blk = VertexBlock { layout, rows: rws };
            blocks.push(blk);
            proof {
                assert(blocks_view(blocks) =~= bbefore + seq![blk@]);
                assert(indices@ =~= ibefore + Seq::<u32>::empty());
            }
        } else if is_lit(e.name.as_slice(), "face") {
            let ghost iold = indices@;
            match ascii_faces_exec(&ls, li, end, &mut indices) {
                Ok(()) => {},
                Err(err) => {
                    proof {
                        assert(ascii_element_out(e@, rows) == Err::<BodyOut, PlyError>(err));
                        assert(ascii_elements(ev.skip(k as int), lv.skip(li as int)) == Err::<BodyOut, PlyError>(err));
                    }
                    return Err(err);
                },
            }
            assert(blocks_view(blocks) =~= bbefore + Seq::<VertexBlockView>::empty());
        } else {
            assert(blocks_view(blocks) =~= bbefore + Seq::<VertexBlockView>::empty());
            assert(indices@ =~= ibefore + Seq::<u32>::empty());
        }
        proof {
            let here = ascii_element_out(e@, rows)->Ok_0;
            assert(body_out(blocks_view(blocks), indices@) == join(body_out(bbefore, ibefore), here));
            match ascii_elements(ev.skip(k + 1), lv.skip(end as int)) {
                Ok(o) => {
                    assert(join(body_out(bbefore, ibefore), join(here, o)) =~= join(body_out(blocks_view(blocks), indices@), o));
                },
                Err(_) => {},
            }
        }
        li = end;
        k = k + 1;
    }
    proof {
        assert(ev.skip(k as int) =~= Seq::<ElementView>::empty());
        assert(join(body_out(blocks_view(blocks), indices@), BodyOut { blocks: seq![], indices: seq![] }) =~= body_out(blocks_view(blocks), indices@));
    }
    check_mesh(blocks, indices)
}

/// Header and body of a PLY file.
pub open spec fn load_ply_spec(data: Seq<u8>) -> Result<(HeaderView, PlyMeshView), PlyError> {
    match parse_header_spec(data) {
        Err(e) => Err(e),
        Ok(h) => {
            let body = data.skip(h.header_byte_len as int);
            let m = match h.format {
                PlyFormat::Ascii => ascii_body_spec(h.elements, body),
                PlyFormat::BinaryLE => binary_body_spec(h.elements, body, false),
                PlyFormat::BinaryBE => binary_body_spec(h.elements, body, true),
            };
            match m {
                Err(e) => Err(e),
                Ok(m) => Ok((h, m)),
            }
        },
    }
}

/// Reads a whole PLY file: the header, then the body in the declared format.
pub fn load_ply(data: &[u8]) -> (r: Result<(PlyHeader, PlyMesh), PlyError>)
    ensures
        match r {
            Ok((h, m)) => load_ply_spec(data@) == Ok::<(HeaderView, PlyMeshView), PlyError>((h@, m@)),
            Err(e) => load_ply_spec(data@) == Err::<(HeaderView, PlyMeshView), PlyError>(e),
        },
{
    let h = parse_header(data)?;
    proof {
        assert(h.header_byte_len <= data@.len()) by {
            reveal(header_line);
            lemma_header_len_bound(data@);
        }
    }
    let body = vstd::slice::slice_subrange(data, h.header_byte_len, data.len());
    assert(body@ =~= data@.skip(h.header_byte_len as int));
    let m = match h.format {
        PlyFormat::Ascii => parse_ascii_body(h.elements.as_slice(), body),
        PlyFormat::BinaryLE => parse_binary_body(h.elements.as_slice(), body, false),
        PlyFormat::BinaryBE => parse_binary_body(h.elements.as_slice(), body, true),
    }?;
    Ok((h, m))
}

/// The body offset stays within the data.
proof fn lemma_header_len_bound(data: Seq<u8>)
    ensures
        parse_header_spec(data) matches Ok(h) ==> h.header_byte_len <= data.len(),
{
    lemma_find_from_some(data, "end_header".spec_bytes(), 0);
}


/// How strongly the first bytes of a file suggest PLY.
#[derive(Debug, Clone, Copy, PartialEq, Eq, Structural)]
pub enum PlyDetect {
    /// `ply` and a line feed.
    Certain,
    /// `ply`.
    Likely,
    /// Neither.
    No,
}

/// Reads PLY files.
pub struct PlyLoader;

impl PlyLoader {
    /// Judges the first bytes read from a file (up to 4).
    pub fn detect(&self, head: &[u8]) -> (r: PlyDetect)
        ensures
            r == (if crate::text::begins_with(head@, "ply\n".spec_bytes()) {
                PlyDetect::Certain
            } else if crate::text::begins_with(head@, "ply".spec_bytes()) {
                PlyDetect::Likely
            } else {
                PlyDetect::No
            }),
    {
        if crate::text::starts_with(head, "ply\n".as_bytes()) {
            PlyDetect::Certain
        } else if crate::text::starts_with(head, "ply".as_bytes()) {
            PlyDetect::Likely
        } else {
            PlyDetect::No
        }
    }
}


proof fn lemma_none_out_of_range(idx: Seq<u32>, n: nat)
    requires
        first_out_of_range(idx, n) is None,
    ensures
        forall|i: int| 0 <= i < idx.len() ==> (#[trigger] idx[i]) < n,
    decreases idx.len(),
{
    if idx.len() > 0 {
        lemma_none_out_of_range(idx.drop_first(), n);
        assert forall|i: int| 0 <= i < idx.len() implies (#[trigger] idx[i]) < n by {
            if i > 0 {
                assert(idx[i] == idx.drop_first()[i - 1]);
            }
        }
    }
}

proof fn lemma_checked_mesh(r: Result<BodyOut, PlyError>)
    ensures
        checked_mesh(r) matches Ok(m) ==> forall|i: int| 0 <= i < m.indices.len() ==> (#[trigger] m.indices[i])
            < total_rows(m.blocks),
{
    if let Ok(o) = r {
        if first_out_of_range(o.indices, total_rows(o.blocks)) is None {
            lemma_none_out_of_range(o.indices, total_rows(o.blocks));
        }
    }
}

/// Every triangle corner of a loaded PLY mesh names one of its vertex rows:
/// a face index at or past the vertex count is refused.
pub proof fn lemma_loaded_indices_in_range(data: Seq<u8>)
    ensures
        load_ply_spec(data) matches Ok((h, m)) ==> forall|i: int| 0 <= i < m.indices.len() ==> (
        #[trigger] m.indices[i]) < total_rows(m.blocks),
{
    if let Ok(h) = parse_header_spec(data) {
        let body = data.skip(h.header_byte_len as int);
        match h.format {
            PlyFormat::Ascii => {
                if valid_utf8(body) {
                    lemma_checked_mesh(ascii_elements(h.elements, lines(body)));
                }
            },
            PlyFormat::BinaryLE => lemma_checked_mesh(binary_elements(body, false, h.elements, 0)),
            PlyFormat::BinaryBE => lemma_checked_mesh(binary_elements(body, true, h.elements, 0)),
        }
    }
}

// ── Byte order of a whole binary body ────────────────────────────────────

/// Item `j` of a list of `vt` values at `start` is stored in `b2` with the
/// bytes of `b1` reversed.
pub open spec fn item_reversed(b1: Seq<u8>, b2: Seq<u8>, start: int, j: int, vt: ScalarType) -> bool {
    reversed_at(b1, b2, start + j * scalar_size(vt), scalar_size(vt))
}

/// Property `p` at `cur`, as `b1` holds it big-endian, is stored in `b2`
/// with the bytes of each of its values reversed (a scalar, or a list's
/// count and each of its items), as far as it lies inside the body.
pub open spec fn prop_twin(b1: Seq<u8>, b2: Seq<u8>, p: PropertyView, cur: int) -> bool {
    match p.prop_type {
        PropType::Scalar(t) => cur + scalar_size(t) > b1.len() || reversed_at(b1, b2, cur, scalar_size(t)),
        PropType::List { count_type: ct, value_type: vt } => cur + scalar_size(ct) > b1.len() || {
            let cnt = value_to_unsigned(value_at(b1, cur, ct, true), usize::MAX as nat);
            let start = cur + scalar_size(ct);
            &&& reversed_at(b1, b2, cur, scalar_size(ct))
            &&& start + cnt * scalar_size(vt) <= b1.len() ==> forall|j: int|
                0 <= j < cnt ==> #[trigger] item_reversed(b1, b2, start, j, vt)
        },
    }
}

/// One row of `props` from `cur`, as `b1` holds it big-endian, is stored
/// in `b2` value by value with the bytes reversed.
pub open spec fn row_twin(b1: Seq<u8>, b2: Seq<u8>, props: Seq<PropertyView>, cur: int) -> bool
    decreases props.len(),
{
    props.len() == 0 || {
        &&& prop_twin(b1, b2, props[0], cur)
        &&& match prop_step(b1, true, props[0], cur) {
            Err(_) => true,
            Ok((_, _, c2)) => row_twin(b1, b2, props.drop_first(), c2),
        }
    }
}

/// `n` rows of `props` from `cur`, the same way.
pub open spec fn rows_twin(b1: Seq<u8>, b2: Seq<u8>, props: Seq<PropertyView>, cur: int, n: nat) -> bool
    decreases n,
{
    n == 0 || {
        &&& row_twin(b1, b2, props, cur)
        &&& match row_from(b1, true, props, cur) {
            Err(_) => true,
            Ok(r) => rows_twin(b1, b2, props, r.end, (n - 1) as nat),
        }
    }
}

/// The elements `elems` from `cur`, the same way.
pub open spec fn elements_twin(b1: Seq<u8>, b2: Seq<u8>, elems: Seq<ElementView>, cur: int) -> bool
    decreases elems.len(),
{
    elems.len() == 0 || {
        let e = elems[0];
        e.count * min_row_size(e.properties) > b1.len() - cur || {
            &&& rows_twin(b1, b2, e.properties, cur, e.count as nat)
            &&& match rows_from(b1, true, e.properties, cur, e.count as nat) {
                Err(_) => true,
                Ok(rs) => elements_twin(b1, b2, elems.drop_first(), rs.end),
            }
        }
    }
}

/// The little-endian twin of a big-endian body: the same length, and every
/// value the elements lay out (vertex scalars, list counts, list items,
/// skipped scalars) byte-reversed within its own width.
pub open spec fn body_twin(elems: Seq<ElementView>, body_be: Seq<u8>, body_le: Seq<u8>) -> bool {
    &&& body_be.len() == body_le.len()
    &&& elements_twin(body_be, body_le, elems, 0)
}

proof fn lemma_prop_twin(b1: Seq<u8>, b2: Seq<u8>, p: PropertyView, cur: int)
    requires
        b1.len() == b2.len(),
        prop_twin(b1, b2, p, cur),
    ensures
        prop_step(b1, true, p, cur) == prop_step(b2, false, p, cur),
{
    reveal(prop_step);
    match p.prop_type {
        PropType::Scalar(t) => {
            if cur + scalar_size(t) <= b1.len() {
                lemma_value_byte_order(b1, b2, cur, t);
            }
        },
        PropType::List { count_type: ct, value_type: vt } => {
            if cur + scalar_size(ct) <= b1.len() {
                lemma_value_byte_order(b1, b2, cur, ct);
                let cnt = value_to_unsigned(value_at(b1, cur, ct, true), usize::MAX as nat);
                let start = cur + scalar_size(ct);
                if start + cnt * scalar_size(vt) <= b1.len() {
                    let l1 = list_values(b1, start, cnt, vt, true);
                    let l2 = list_values(b2, start, cnt, vt, false);
                    assert forall|j: int| 0 <= j < cnt implies #[trigger] l1[j] == l2[j] by {
                        assert(item_reversed(b1, b2, start, j, vt));
                        lemma_value_byte_order(b1, b2, start + j * scalar_size(vt), vt);
                    }
                    assert(l1 =~= l2);
                }
            }
        },
    }
}

proof fn lemma_row_twin(b1: Seq<u8>, b2: Seq<u8>, props: Seq<PropertyView>, cur: int)
    requires
        b1.len() == b2.len(),
        row_twin(b1, b2, props, cur),
    ensures
        row_from(b1, true, props, cur) == row_from(b2, false, props, cur),
    decreases props.len(),
{
    if props.len() > 0 {
        lemma_prop_twin(b1, b2, props[0], cur);
        if let Ok((_, _, c2)) = prop_step(b1, true, props[0], cur) {
            lemma_row_twin(b1, b2, props.drop_first(), c2);
        }
    }
}

proof fn lemma_rows_twin(b1: Seq<u8>, b2: Seq<u8>, props: Seq<PropertyView>, cur: int, n: nat)
    requires
        b1.len() == b2.len(),
        rows_twin(b1, b2, props, cur, n),
    ensures
        rows_from(b1, true, props, cur, n) == rows_from(b2, false, props, cur, n),
    decreases n,
{
    if n > 0 {
        lemma_row_twin(b1, b2, props, cur);
        if let Ok(r) = row_from(b1, true, props, cur) {
            lemma_rows_twin(b1, b2, props, r.end, (n - 1) as nat);
        }
    }
}

proof fn lemma_elements_twin(b1: Seq<u8>, b2: Seq<u8>, elems: Seq<ElementView>, cur: int)
    requires
        b1.len() == b2.len(),
        elements_twin(b1, b2, elems, cur),
    ensures
        binary_elements(b1, true, elems, cur) == binary_elements(b2, false, elems, cur),
    decreases elems.len(),
{
    if elems.len() > 0 {
        let e = elems[0];
        if e.count * min_row_size(e.properties) <= b1.len() - cur {
            lemma_rows_twin(b1, b2, e.properties, cur, e.count as nat);
            if let Ok(rs) = rows_from(b1, true, e.properties, cur, e.count as nat) {
                lemma_elements_twin(b1, b2, elems.drop_first(), rs.end);
            }
        }
    }
}

/// A big-endian binary body and its little-endian twin (each value of the
/// layout byte-reversed within its width) parse to the same mesh, or fail
/// with the same error.
pub proof fn lemma_body_byte_order(elems: Seq<ElementView>, body_be: Seq<u8>, body_le: Seq<u8>)
    requires
        body_twin(elems, body_be, body_le),
    ensures
        binary_body_spec(elems, body_be, true) == binary_body_spec(elems, body_le, false),
{
    lemma_elements_twin(body_be, body_le, elems, 0);
}

// ── Laws of the vertex layout ────────────────────────────────────────────

/// `r` is the position of the first property named `w` (ignoring ASCII
/// case), or `None` when no property has that name.
pub open spec fn first_named_prop(props: Seq<PropertyView>, w: Seq<u8>, r: Option<usize>) -> bool {
    match r {
        Some(i) => {
            &&& i < props.len()
            &&& eq_ignore_case(props[i as int].name, w)
            &&& forall|j: int| 0 <= j < i ==> !eq_ignore_case(#[trigger] props[j].name, w)
        },
        None => forall|j: int| 0 <= j < props.len() ==> !eq_ignore_case(#[trigger] props[j].name, w),
    }
}

proof fn lemma_find_prop_from(props: Seq<PropertyView>, names: Seq<&str>, i: int)
    requires
        0 <= i <= props.len(),
        props.len() <= usize::MAX,
    ensures
        match find_prop_from(props, names, i) {
            Some(k) => i <= k < props.len() && named_any(props[k as int], names) && forall|j: int|
                i <= j < k ==> !named_any(#[trigger] props[j], names),
            None => forall|j: int| i <= j < props.len() ==> !named_any(#[trigger] props[j], names),
        },
    decreases props.len() - i,
{
    if i < props.len() && !named_any(props[i], names) {
        lemma_find_prop_from(props, names, i + 1);
    }
}

proof fn lemma_find_single(props: Seq<PropertyView>, w: &str)
    requires
        props.len() <= usize::MAX,
    ensures
        first_named_prop(props, w.spec_bytes(), find_prop_spec(props, seq![w])),
{
    let names = seq![w];
    lemma_find_prop_from(props, names, 0);
    assert forall|j: int| 0 <= j < props.len() implies named_any(#[trigger] props[j], names) == eq_ignore_case(
        props[j].name,
        w.spec_bytes(),
    ) by {
        if eq_ignore_case(props[j].name, w.spec_bytes()) {
            assert(eq_ignore_case(props[j].name, names[0].spec_bytes()));
        }
    }
}

/// The position and normal of a vertex are read from the properties that
/// carry their names: `x`, `y`, `z`, `nx`, `ny` and `nz` each come from the
/// first property of that name (ignoring ASCII case), and are absent when
/// no property has it.
pub proof fn lemma_layout_by_name(props: Seq<PropertyView>)
    requires
        props.len() <= usize::MAX,
    ensures
        first_named_prop(props, "x".spec_bytes(), layout_of(props).x),
        first_named_prop(props, "y".spec_bytes(), layout_of(props).y),
        first_named_prop(props, "z".spec_bytes(), layout_of(props).z),
        first_named_prop(props, "nx".spec_bytes(), layout_of(props).nx),
        first_named_prop(props, "ny".spec_bytes(), layout_of(props).ny),
        first_named_prop(props, "nz".spec_bytes(), layout_of(props).nz),
{
    lemma_find_single(props, "x");
    lemma_find_single(props, "y");
    lemma_find_single(props, "z");
    lemma_find_single(props, "nx");
    lemma_find_single(props, "ny");
    lemma_find_single(props, "nz");
}

/// The colour channels come from the first property named `red` or `r`,
/// `green` or `g`, `blue` or `b`, `alpha` or `a`.
pub proof fn lemma_layout_colours(props: Seq<PropertyView>)
    requires
        props.len() <= usize::MAX,
    ensures
        first_named_either(props, "red".spec_bytes(), "r".spec_bytes(), layout_of(props).red),
        first_named_either(props, "green".spec_bytes(), "g".spec_bytes(), layout_of(props).green),
        first_named_either(props, "blue".spec_bytes(), "b".spec_bytes(), layout_of(props).blue),
        first_named_either(props, "alpha".spec_bytes(), "a".spec_bytes(), layout_of(props).alpha),
{
    lemma_find_pair(props, "red", "r");
    lemma_find_pair(props, "green", "g");
    lemma_find_pair(props, "blue", "b");
    lemma_find_pair(props, "alpha", "a");
}

/// `r` is the position of the first property named `a` or `b` (ignoring
/// ASCII case), or `None` when no property has either name.
pub open spec fn first_named_either(props: Seq<PropertyView>, a: Seq<u8>, b: Seq<u8>, r: Option<usize>) -> bool {
    match r {
        Some(i) => {
            &&& i < props.len()
            &&& (eq_ignore_case(props[i as int].name, a) || eq_ignore_case(props[i as int].name, b))
            &&& forall|j: int|
                0 <= j < i ==> !eq_ignore_case(#[trigger] props[j].name, a) && !eq_ignore_case(props[j].name, b)
        },
        None => forall|j: int|
            0 <= j < props.len() ==> !eq_ignore_case(#[trigger] props[j].name, a) && !eq_ignore_case(props[j].name, b),
    }
}

proof fn lemma_find_pair(props: Seq<PropertyView>, a: &str, b: &str)
    requires
        props.len() <= usize::MAX,
    ensures
        first_named_either(props, a.spec_bytes(), b.spec_bytes(), find_prop_spec(props, seq![a, b])),
{
    let names = seq![a, b];
    lemma_find_prop_from(props, names, 0);
    assert forall|j: int| 0 <= j < props.len() implies named_any(#[trigger] props[j], names) == (eq_ignore_case(
        props[j].name,
        a.spec_bytes(),
    ) || eq_ignore_case(props[j].name, b.spec_bytes())) by {
        if eq_ignore_case(props[j].name, a.spec_bytes()) {
            assert(eq_ignore_case(props[j].name, names[0].spec_bytes()));
        }
        if eq_ignore_case(props[j].name, b.spec_bytes()) {
            assert(eq_ignore_case(props[j].name, names[1].spec_bytes()));
        }
    }
}

/// `r` is the position of the first property whose name (ignoring ASCII
/// case) is one of `names`, or `None` when no property has such a name.
pub open spec fn first_named_among(props: Seq<PropertyView>, names: Seq<Seq<u8>>, r: Option<usize>) -> bool {
    match r {
        Some(i) => {
            &&& i < props.len()
            &&& exists|k: int| 0 <= k < names.len() && eq_ignore_case(props[i as int].name, #[trigger] names[k])
            &&& forall|j: int, k: int|
                0 <= j < i && 0 <= k < names.len() ==> !eq_ignore_case(#[trigger] props[j].name, #[trigger] names[k])
        },
        None => forall|j: int, k: int|
            0 <= j < props.len() && 0 <= k < names.len() ==> !eq_ignore_case(#[trigger] props[j].name, #[trigger] names[k]),
    }
}

pub open spec fn name_bytes(names: Seq<&str>) -> Seq<Seq<u8>> {
    names.map_values(|n: &str| n.spec_bytes())
}

proof fn lemma_find_among(props: Seq<PropertyView>, names: Seq<&str>)
    requires
        props.len() <= usize::MAX,
    ensures
        first_named_among(props, name_bytes(names), find_prop_spec(props, names)),
{
    lemma_find_prop_from(props, names, 0);
    let nb = name_bytes(names);
    match find_prop_spec(props, names) {
        Some(i) => {
            let k = choose|k: int| 0 <= k < names.len() && eq_ignore_case(props[i as int].name, #[trigger] names[k].spec_bytes());
            assert(eq_ignore_case(props[i as int].name, nb[k]));
            assert forall|j: int, k: int| 0 <= j < i && 0 <= k < nb.len() implies !eq_ignore_case(
                #[trigger] props[j].name,
                #[trigger] nb[k],
            ) by {
                if eq_ignore_case(props[j].name, nb[k]) {
                    assert(eq_ignore_case(props[j].name, names[k].spec_bytes()));
                    assert(named_any(props[j], names));
                }
            }
        },
        None => {
            assert forall|j: int, k: int| 0 <= j < props.len() && 0 <= k < nb.len() implies !eq_ignore_case(
                #[trigger] props[j].name,
                #[trigger] nb[k],
            ) by {
                if eq_ignore_case(props[j].name, nb[k]) {
                    assert(eq_ignore_case(props[j].name, names[k].spec_bytes()));
                    assert(named_any(props[j], names));
                }
            }
        },
    }
}

/// Each UV channel's coordinates come from the first property carrying one
/// of that channel's names, and the colour counts as bytes exactly when
/// the red property is a scalar `uchar`.
pub proof fn lemma_layout_uv_and_colour_type(props: Seq<PropertyView>)
    requires
        props.len() <= usize::MAX,
    ensures
        forall|ch: int|
            0 <= ch < 8 ==> first_named_among(props, name_bytes(uv_s_names(ch)), #[trigger] layout_of(props).uv_s[ch]),
        forall|ch: int|
            0 <= ch < 8 ==> first_named_among(props, name_bytes(uv_t_names(ch)), #[trigger] layout_of(props).uv_t[ch]),
        layout_of(props).color_is_byte == (layout_of(props).red matches Some(i) && props[i as int].prop_type
            == PropType::Scalar(ScalarType::U8)),
{
    lemma_layout_colours(props);
    assert forall|ch: int| 0 <= ch < 8 implies first_named_among(
        props,
        name_bytes(uv_s_names(ch)),
        #[trigger] layout_of(props).uv_s[ch],
    ) by {
        lemma_find_among(props, uv_s_names(ch));
    }
    assert forall|ch: int| 0 <= ch < 8 implies first_named_among(
        props,
        name_bytes(uv_t_names(ch)),
        #[trigger] layout_of(props).uv_t[ch],
    ) by {
        lemma_find_among(props, uv_t_names(ch));
    }
}

} // verus!
