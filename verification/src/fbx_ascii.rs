//! ASCII FBX: tokens and the node tree they describe.
//!
//! The text is taken as its characters. Which characters are whitespace,
//! letters or digits in the Unicode sense is asked of `char`'s own
//! classification.

use vstd::prelude::*;
use vstd::string::StringSliceAdditionalSpecFns;
use vstd::utf8::{
    encode_scalar, encode_utf8, last_continuation_byte, leading_byte_width_1, leading_byte_width_2, leading_byte_width_3,
    leading_byte_width_4, second_last_continuation_byte, third_last_continuation_byte,
};
use crate::fbx::{node_view, nodes_view, FbxDocument, FbxError, FbxErrorView, FbxNode, FbxNodeView, FbxProperty, FbxPropertyView};
use crate::text::{is_float_literal, is_float_literal_exec, parse_i64, parse_i64_spec};

verus! {

/// Whether `c` has the Unicode `White_Space` property, which is what
/// `char::is_whitespace` tests: `\t` to `\r`, space, U+0085, U+00A0,
/// U+1680, U+2000 to U+200A, U+2028, U+2029, U+202F, U+205F and U+3000.
pub open spec fn char_whitespace(c: char) -> bool {
    let u = c as u32;
    (9 <= u && u <= 13) || u == 32 || u == 0x85 || u == 0xA0 || u == 0x1680 || (0x2000 <= u && u <= 0x200A) || u
        == 0x2028 || u == 0x2029 || u == 0x202F || u == 0x205F || u == 0x3000
}

/// Whether `char::is_alphabetic` holds of `c`.
pub uninterp spec fn char_alphabetic(c: char) -> bool;

/// Whether `char::is_numeric` holds of `c`.
pub uninterp spec fn char_numeric(c: char) -> bool;

/// White space as `char::is_whitespace` decides it: the 25 code points
/// that `char_whitespace` lists.
fn is_whitespace(c: char) -> (r: bool)
    ensures
        r == char_whitespace(c),
{
    let u = c as u32;
    (9 <= u && u <= 13) || u == 32 || u == 0x85 || u == 0xA0 || u == 0x1680 || (0x2000 <= u && u <= 0x200A) || u
        == 0x2028 || u == 0x2029 || u == 0x202F || u == 0x205F || u == 0x3000
}

/// `char::is_alphabetic`: the Unicode `Alphabetic` property.
#[verifier::external_body]
fn is_alphabetic(c: char) -> (r: bool)
    ensures
        r == char_alphabetic(c),
{
    c.is_alphabetic()
}

/// `char::is_numeric`: the Unicode general categories for numbers.
#[verifier::external_body]
fn is_numeric(c: char) -> (r: bool)
    ensures
        r == char_numeric(c),
{
    c.is_numeric()
}

/// `char::is_alphanumeric`, which its documentation defines as alphabetic
/// or numeric.
pub open spec fn char_alphanumeric(c: char) -> bool {
    char_alphabetic(c) || char_numeric(c)
}

pub open spec fn is_digit_char(c: char) -> bool {
    '0' <= c && c <= '9'
}

/// A token of an ASCII FBX file.
#[derive(Debug, Clone)]
pub enum Token {
    Word(Vec<char>),
    /// An integer with the text it was read from.
    Integer { value: i64, text: Vec<char> },
    /// A number with a point or an exponent, as its text.
    Float(Vec<char>),
    Str(Vec<char>),
    Colon,
    Comma,
    LBrace,
    RBrace,
    Star,
    Eof,
}

pub enum TokenView {
    Word(Seq<char>),
    Integer { value: i64, text: Seq<char> },
    Float(Seq<char>),
    Str(Seq<char>),
    Colon,
    Comma,
    LBrace,
    RBrace,
    Star,
    Eof,
}

impl View for Token {
    type V = TokenView;

    open spec fn view(&self) -> TokenView {
        match self {
            Token::Word(w) => TokenView::Word(w@),
            Token::Integer { value, text } => TokenView::Integer { value: *value, text: text@ },
            Token::Float(t) => TokenView::Float(t@),
            Token::Str(t) => TokenView::Str(t@),
            Token::Colon => TokenView::Colon,
            Token::Comma => TokenView::Comma,
            Token::LBrace => TokenView::LBrace,
            Token::RBrace => TokenView::RBrace,
            Token::Star => TokenView::Star,
            Token::Eof => TokenView::Eof,
        }
    }
}

/// The bytes of an ASCII text.
pub open spec fn ascii_of(t: Seq<char>) -> Seq<u8> {
    t.map_values(|c: char| (c as u32) as u8)
}

/// Where a comment that starts at `q` ends: at the next line feed or at
/// the end.
pub open spec fn line_end(s: Seq<char>, q: int) -> int
    decreases s.len() - q,
{
    if 0 <= q < s.len() && s[q] != '\n' {
        line_end(s, q + 1)
    } else {
        q
    }
}

/// Where a word that starts at `q` ends: letters, digits, `_` and `-`.
pub open spec fn word_end(s: Seq<char>, q: int) -> int
    decreases s.len() - q,
{
    if 0 <= q < s.len() && (char_alphanumeric(s[q]) || s[q] == '_' || s[q] == '-') {
        word_end(s, q + 1)
    } else {
        q
    }
}

/// The body of a quoted string from `q`: its characters with `\n` and `\t`
/// escapes resolved (another escaped character stands for itself), and the
/// position after the closing quote (or the end).
pub open spec fn str_scan(s: Seq<char>, q: int) -> (Seq<char>, int)
    decreases s.len() - q,
{
    if q < 0 || q >= s.len() {
        (seq![], q)
    } else if s[q] == '"' {
        (seq![], q + 1)
    } else if s[q] == '\\' {
        if q + 1 < s.len() {
            let c = s[q + 1];
            let m = if c == 'n' { '\n' } else if c == 't' { '\t' } else { c };
            let (r, e) = str_scan(s, q + 2);
            (seq![m] + r, e)
        } else {
            (seq![], q + 1)
        }
    } else {
        let (r, e) = str_scan(s, q + 1);
        (seq![s[q]] + r, e)
    }
}

/// Where a number that continues at `q` ends, and whether it has a point or
/// an exponent: digits, one point, one exponent mark with an optional sign.
pub open spec fn num_scan(s: Seq<char>, q: int, dot: bool, exp: bool) -> (int, bool)
    decreases s.len() - q,
{
    if q < 0 || q >= s.len() {
        (q, dot || exp)
    } else if is_digit_char(s[q]) {
        num_scan(s, q + 1, dot, exp)
    } else if s[q] == '.' && !dot {
        num_scan(s, q + 1, true, exp)
    } else if (s[q] == 'e' || s[q] == 'E') && !exp {
        let q2 = if q + 1 < s.len() && (s[q + 1] == '+' || s[q + 1] == '-') { q + 2 } else { q + 1 };
        num_scan(s, q2, dot, true)
    } else {
        (q, dot || exp)
    }
}

/// Whether a number starts at `p`: a digit, or a sign before a digit.
pub open spec fn starts_number(s: Seq<char>, p: int) -> bool {
    is_digit_char(s[p]) || ((s[p] == '-' || s[p] == '+') && p + 1 < s.len() && is_digit_char(s[p + 1]))
}

/// The token (if any) that starts at `p` and the position after it.
pub open spec fn lex_step(s: Seq<char>, p: int) -> Result<(Option<TokenView>, int), FbxErrorView> {
    let c = s[p];
    if char_whitespace(c) {
        Ok((None, p + 1))
    } else if c == ';' {
        Ok((None, line_end(s, p)))
    } else if c == '{' {
        Ok((Some(TokenView::LBrace), p + 1))
    } else if c == '}' {
        Ok((Some(TokenView::RBrace), p + 1))
    } else if c == ':' {
        Ok((Some(TokenView::Colon), p + 1))
    } else if c == ',' {
        Ok((Some(TokenView::Comma), p + 1))
    } else if c == '*' {
        Ok((Some(TokenView::Star), p + 1))
    } else if c == '"' {
        let (t, e) = str_scan(s, p + 1);
        Ok((Some(TokenView::Str(t)), e))
    } else if starts_number(s, p) {
        let (e, fl) = num_scan(s, p + 1, false, false);
        let t = s.subrange(p, e);
        if fl {
            if is_float_literal(ascii_of(t)) {
                Ok((Some(TokenView::Float(t)), e))
            } else {
                Err(FbxErrorView::BadFloat { text: t })
            }
        } else {
            match parse_i64_spec(ascii_of(t)) {
                Some(v) => Ok((Some(TokenView::Integer { value: v, text: t }), e)),
                None => Err(FbxErrorView::BadInteger { text: t }),
            }
        }
    } else if char_alphabetic(c) || c == '_' {
        let e = word_end(s, p);
        Ok((Some(TokenView::Word(s.subrange(p, e))), e))
    } else {
        Ok((None, p + 1))
    }
}

proof fn lemma_line_end(s: Seq<char>, q: int)
    requires
        0 <= q <= s.len(),
    ensures
        q <= line_end(s, q) <= s.len(),
    decreases s.len() - q,
{
    if q < s.len() && s[q] != '\n' {
        lemma_line_end(s, q + 1);
    }
}

proof fn lemma_word_end(s: Seq<char>, q: int)
    requires
        0 <= q <= s.len(),
    ensures
        q <= word_end(s, q) <= s.len(),
    decreases s.len() - q,
{
    if q < s.len() && (char_alphanumeric(s[q]) || s[q] == '_' || s[q] == '-') {
        lemma_word_end(s, q + 1);
    }
}

proof fn lemma_str_scan(s: Seq<char>, q: int)
    requires
        0 <= q <= s.len(),
    ensures
        q <= str_scan(s, q).1 <= s.len(),
    decreases s.len() - q,
{
    if q < s.len() && s[q] != '"' {
        if s[q] == '\\' {
            if q + 1 < s.len() {
                lemma_str_scan(s, q + 2);
            }
        } else {
            lemma_str_scan(s, q + 1);
        }
    }
}

proof fn lemma_num_scan(s: Seq<char>, q: int, dot: bool, exp: bool)
    requires
        0 <= q <= s.len(),
    ensures
        q <= num_scan(s, q, dot, exp).0 <= s.len(),
    decreases s.len() - q,
{
    if q < s.len() {
        if is_digit_char(s[q]) {
            lemma_num_scan(s, q + 1, dot, exp);
        } else if s[q] == '.' && !dot {
            lemma_num_scan(s, q + 1, true, exp);
        } else if (s[q] == 'e' || s[q] == 'E') && !exp {
            let q2 = if q + 1 < s.len() && (s[q + 1] == '+' || s[q + 1] == '-') { q + 2 } else { q + 1 };
            lemma_num_scan(s, q2, dot, true);
        }
    }
}

/// A step moves forward and stays within the text.
pub proof fn lemma_lex_step(s: Seq<char>, p: int)
    requires
        0 <= p < s.len(),
    ensures
        lex_step(s, p) matches Ok((_, q)) ==> p < q <= s.len(),
{
    let c = s[p];
    lemma_line_end(s, p + 1);
    lemma_str_scan(s, p + 1);
    lemma_num_scan(s, p + 1, false, false);
    lemma_word_end(s, p + 1);
}

/// The tokens from `p` to the end, closed by `Eof`.
pub open spec fn lex_all(s: Seq<char>, p: int) -> Result<Seq<TokenView>, FbxErrorView>
    decreases s.len() - p,
{
    if p < 0 || p >= s.len() {
        Ok(seq![TokenView::Eof])
    } else {
        match lex_step(s, p) {
            Err(e) => Err(e),
            Ok((t, q)) => {
                proof {
                    lemma_lex_step(s, p);
                }
                match lex_all(s, q) {
                    Err(e) => Err(e),
                    Ok(rest) => Ok(
                        match t {
                            Some(tok) => seq![tok] + rest,
                            None => rest,
                        },
                    ),
                }
            },
        }
    }
}

fn line_end_exec(s: &[char], q: usize) -> (r: usize)
    requires
        q <= s@.len(),
    ensures
        r == line_end(s@, q as int),
{
    let mut i = q;
    while i < s.len() && s[i] != '\n'
        invariant
            q <= i <= s@.len(),
            line_end(s@, q as int) == line_end(s@, i as int),
        decreases s@.len() - i,
    {
        i = i + 1;
    }
    i
}

fn word_end_exec(s: &[char], q: usize) -> (r: usize)
    requires
        q <= s@.len(),
    ensures
        r == word_end(s@, q as int),
{
    let mut i = q;
    while i < s.len() && (is_alphabetic(s[i]) || is_numeric(s[i]) || s[i] == '_' || s[i] == '-')
        invariant
            q <= i <= s@.len(),
            word_end(s@, q as int) == word_end(s@, i as int),
        decreases s@.len() - i,
    {
        i = i + 1;
    }
    i
}

fn str_scan_exec(s: &[char], q: usize) -> (r: (Vec<char>, usize))
    requires
        q <= s@.len(),
    ensures
        (r.0@, r.1 as int) == str_scan(s@, q as int),
{
    let mut out: Vec<char> = Vec::new();
    let mut i = q;
    loop
        invariant
            q <= i <= s@.len(),
            str_scan(s@, q as int) == (out@ + str_scan(s@, i as int).0, str_scan(s@, i as int).1),
        decreases s@.len() - i,
    {
        if i >= s.len() {
            assert(out@ + Seq::<char>::empty() =~= out@);
            return (out, i);
        }
        let c = s[i];
        if c == '"' {
            assert(out@ + Seq::<char>::empty() =~= out@);
            return (out, i + 1);
        } else if c == '\\' {
            if i + 1 < s.len() {
                let n = s[i + 1];
                let m = if n == 'n' { '\n' } else if n == 't' { '\t' } else { n };
                let ghost before = out@;
                out.push(m);
                assert forall|r: Seq<char>| before + (seq![m] + r) =~= out@ + r by {}
                i = i + 2;
            } else {
                assert(out@ + Seq::<char>::empty() =~= out@);
                return (out, i + 1);
            }
        } else {
            let ghost before = out@;
            out.push(c);
            assert forall|r: Seq<char>| before + (seq![c] + r) =~= out@ + r by {}
            i = i + 1;
        }
    }
}

fn num_scan_exec(s: &[char], q: usize) -> (r: (usize, bool))
    requires
        q <= s@.len(),
    ensures
        (r.0 as int, r.1) == num_scan(s@, q as int, false, false),
{
    let mut i = q;
    let mut dot = false;
    let mut exp = false;
    while i < s.len()
        invariant
            q <= i <= s@.len(),
            num_scan(s@, q as int, false, false) == num_scan(s@, i as int, dot, exp),
        decreases s@.len() - i,
    {
        let c = s[i];
        if '0' <= c && c <= '9' {
            i = i + 1;
        } else if c == '.' && !dot {
            dot = true;
            i = i + 1;
        } else if (c == 'e' || c == 'E') && !exp {
            exp = true;
            if i + 1 < s.len() && (s[i + 1] == '+' || s[i + 1] == '-') {
                i = i + 2;
            } else {
                i = i + 1;
            }
        } else {
            return (i, dot || exp);
        }
    }
    (i, dot || exp)
}

fn ascii_bytes(t: &[char]) -> (r: Vec<u8>)
    ensures
        r@ == ascii_of(t@),
{
    let mut out: Vec<u8> = Vec::new();
    let mut i: usize = 0;
    while i < t.len()
        invariant
            i <= t@.len(),
            out@ == ascii_of(t@.take(i as int)),
        decreases t@.len() - i,
    {
        out.push((t[i] as u32) as u8);
        i = i + 1;
        assert(out@ =~= ascii_of(t@.take(i as int)));
    }
    assert(t@.take(i as int) =~= t@);
    out
}

fn copy_chars(s: &[char], a: usize, b: usize) -> (r: Vec<char>)
    requires
        a <= b <= s@.len(),
    ensures
        r@ == s@.subrange(a as int, b as int),
{
    let mut out: Vec<char> = Vec::new();
    let mut i = a;
    while i < b
        invariant
            a <= i <= b,
            b <= s@.len(),
            out@ == s@.subrange(a as int, i as int),
        decreases b - i,
    {
        out.push(s[i]);
        i = i + 1;
        assert(out@ =~= s@.subrange(a as int, i as int));
    }
    out
}

/// The token (if any) at `p` and the position after it.
fn lex_step_exec(s: &[char], p: usize) -> (r: Result<(Option<Token>, usize), FbxError>)
    requires
        p < s@.len(),
    ensures
        match (r, lex_step(s@, p as int)) {
            (Ok((t, q)), Ok((st, sq))) => q == sq && match (t, st) {
                (Some(a), Some(b)) => a@ == b,
                (None, None) => true,
                _ => false,
            },
            (Err(e), Err(se)) => e@ == se,
            _ => false,
        },
{
    let c = s[p];
    if is_whitespace(c) {
        Ok((None, p + 1))
    } else if c == ';' {
        Ok((None, line_end_exec(s, p)))
    } else if c == '{' {
        Ok((Some(Token::LBrace), p + 1))
    } else if c == '}' {
        Ok((Some(Token::RBrace), p + 1))
    } else if c == ':' {
        Ok((Some(Token::Colon), p + 1))
    } else if c == ',' {
        Ok((Some(Token::Comma), p + 1))
    } else if c == '*' {
        Ok((Some(Token::Star), p + 1))
    } else if c == '"' {
        let (t, e) = str_scan_exec(s, p + 1);
        Ok((Some(Token::Str(t)), e))
    } else if ('0' <= c && c <= '9') || ((c == '-' || c == '+') && p + 1 < s.len() && '0' <= s[p + 1] && s[p + 1] <= '9') {
        let (e, fl) = num_scan_exec(s, p + 1);
        proof {
            lemma_num_scan(s@, p + 1, false, false);
        }
        let t = copy_chars(s, p, e);
        let b = ascii_bytes(t.as_slice());
        if fl {
            if is_float_literal_exec(b.as_slice()) {
                Ok((Some(Token::Float(t)), e))
            } else {
                Err(FbxError::BadFloat { text: t })
            }
        } else {
            match parse_i64(b.as_slice()) {
                Some(v) => Ok((Some(Token::Integer { value: v, text: t }), e)),
                None => Err(FbxError::BadInteger { text: t }),
            }
        }
    } else if is_alphabetic(c) || c == '_' {
        proof {
            lemma_word_end(s@, p as int);
        }
        let e = word_end_exec(s, p);
        Ok((Some(Token::Word(copy_chars(s, p, e))), e))
    } else {
        Ok((None, p + 1))
    }
}

/// Splits the characters of an ASCII FBX file into tokens, closed by
/// `Eof`.
pub fn tokenize(s: &[char]) -> (r: Result<Vec<Token>, FbxError>)
    ensures
        match (r, lex_all(s@, 0)) {
            (Ok(ts), Ok(sts)) => ts@.map_values(|t: Token| t@) == sts,
            (Err(e), Err(se)) => e@ == se,
            _ => false,
        },
{
    let mut tokens: Vec<Token> = Vec::new();
    let mut pos: usize = 0;
    assert(tokens@.map_values(|t: Token| t@) =~= Seq::<TokenView>::empty());
    while pos < s.len()
        invariant
            pos <= s@.len(),
            lex_all(s@, 0) == match lex_all(s@, pos as int) {
                Err(e) => Err(e),
                Ok(rest) => Ok::<Seq<TokenView>, FbxErrorView>(tokens@.map_values(|t: Token| t@) + rest),
            },
        decreases s@.len() - pos,
    {
        proof {
            lemma_lex_step(s@, pos as int);
        }
        match lex_step_exec(s, pos) {
            Err(e) => {
                return Err(e);
            },
            Ok((t, q)) => {
                match t {
                    Some(tok) => {
                        let ghost before = tokens@.map_values(|x: Token| x@);
                        let ghost tv = tok@;
                        tokens.push(tok);
                        assert(tokens@.map_values(|x: Token| x@) =~= before.push(tv));
                        assert forall|r: Seq<TokenView>| before + (seq![tv] + r) =~= before.push(tv) + r by {}
                    },
                    None => {},
                }
                pos = q;
            },
        }
    }
    let ghost before = tokens@.map_values(|x: Token| x@);
    tokens.push(Token::Eof);
    assert(tokens@.map_values(|x: Token| x@) =~= before + seq![TokenView::Eof]);
    Ok(tokens)
}


// ── Laws of the tokenizer ────────────────────────────────────────────────

/// Whether no token of `ts` is `Eof`.
pub open spec fn no_eof(ts: Seq<TokenView>) -> bool {
    forall|i: int| 0 <= i < ts.len() ==> !(#[trigger] ts[i] is Eof)
}

/// Tokens read from `p` end with exactly one `Eof`, the last.
pub proof fn lemma_lex_all_eof(s: Seq<char>, p: int)
    ensures
        lex_all(s, p) matches Ok(ts) ==> ts.len() >= 1 && ts.last() is Eof && no_eof(ts.drop_last()),
    decreases s.len() - p,
{
    if 0 <= p < s.len() {
        lemma_lex_step(s, p);
        match lex_step(s, p) {
            Err(_) => {},
            Ok((t, q)) => {
                lemma_lex_all_eof(s, q);
                match lex_all(s, q) {
                    Err(_) => {},
                    Ok(rest) => {
                        match t {
                            Some(tok) => {
                                assert(!(tok is Eof));
                                let all = seq![tok] + rest;
                                assert(all.drop_last() =~= seq![tok] + rest.drop_last());
                            },
                            None => {},
                        }
                    },
                }
            },
        }
    } else {
        assert(seq![TokenView::Eof].drop_last() =~= Seq::<TokenView>::empty());
    }
}

proof fn lemma_line_end_shift(pre: Seq<char>, s: Seq<char>, q: int)
    requires
        0 <= q,
    ensures
        line_end(pre + s, pre.len() + q) == pre.len() + line_end(s, q),
    decreases s.len() - q,
{
    let t = pre + s;
    if q < s.len() {
        assert(t[pre.len() + q] == s[q]);
        if s[q] != '\n' {
            lemma_line_end_shift(pre, s, q + 1);
        }
    }
}

proof fn lemma_word_end_shift(pre: Seq<char>, s: Seq<char>, q: int)
    requires
        0 <= q,
    ensures
        word_end(pre + s, pre.len() + q) == pre.len() + word_end(s, q),
    decreases s.len() - q,
{
    let t = pre + s;
    if q < s.len() {
        assert(t[pre.len() + q] == s[q]);
        if char_alphanumeric(s[q]) || s[q] == '_' || s[q] == '-' {
            lemma_word_end_shift(pre, s, q + 1);
        }
    }
}

proof fn lemma_str_scan_shift(pre: Seq<char>, s: Seq<char>, q: int)
    requires
        0 <= q,
    ensures
        str_scan(pre + s, pre.len() + q) == (str_scan(s, q).0, pre.len() + str_scan(s, q).1),
    decreases s.len() - q,
{
    let t = pre + s;
    if q < s.len() {
        assert(t[pre.len() + q] == s[q]);
        if s[q] == '\\' {
            if q + 1 < s.len() {
                assert(t[pre.len() + q + 1] == s[q + 1]);
                lemma_str_scan_shift(pre, s, q + 2);
            }
        } else if s[q] != '"' {
            lemma_str_scan_shift(pre, s, q + 1);
        }
    }
}

proof fn lemma_num_scan_shift(pre: Seq<char>, s: Seq<char>, q: int, dot: bool, exp: bool)
    requires
        0 <= q,
    ensures
        num_scan(pre + s, pre.len() + q, dot, exp) == (pre.len() + num_scan(s, q, dot, exp).0, num_scan(s, q, dot, exp).1),
    decreases s.len() - q,
{
    let t = pre + s;
    if q < s.len() {
        assert(t[pre.len() + q] == s[q]);
        if q + 1 < s.len() {
            assert(t[pre.len() + q + 1] == s[q + 1]);
        }
        if is_digit_char(s[q]) {
            lemma_num_scan_shift(pre, s, q + 1, dot, exp);
        } else if s[q] == '.' && !dot {
            lemma_num_scan_shift(pre, s, q + 1, true, exp);
        } else if (s[q] == 'e' || s[q] == 'E') && !exp {
            let q2 = if q + 1 < s.len() && (s[q + 1] == '+' || s[q + 1] == '-') { q + 2 } else { q + 1 };
            lemma_num_scan_shift(pre, s, q2, dot, true);
        }
    }
}

/// Lexing reads forward only: text in front shifts positions and changes
/// nothing else.
proof fn lemma_lex_all_shift(pre: Seq<char>, s: Seq<char>, q: int)
    requires
        0 <= q,
    ensures
        lex_all(pre + s, pre.len() + q) == lex_all(s, q),
    decreases s.len() - q,
{
    let t = pre + s;
    let k = pre.len() as int;
    if q < s.len() {
        let p = k + q;
        assert(t[p] == s[q]);
        if q + 1 < s.len() {
            assert(t[p + 1] == s[q + 1]);
        }
        lemma_line_end_shift(pre, s, q);
        lemma_word_end_shift(pre, s, q);
        lemma_str_scan_shift(pre, s, q + 1);
        lemma_num_scan_shift(pre, s, q + 1, false, false);
        lemma_num_scan(s, q + 1, false, false);
        lemma_word_end(s, q);
        let e1 = num_scan(s, q + 1, false, false).0;
        assert(t.subrange(p, k + e1) =~= s.subrange(q, e1));
        let e2 = word_end(s, q);
        assert(t.subrange(p, k + e2) =~= s.subrange(q, e2));
        assert(starts_number(t, p) == starts_number(s, q));
        lemma_lex_step(s, q);
        match lex_step(s, q) {
            Err(_) => {},
            Ok((tok, q2)) => {
                assert(lex_step(t, p) == Ok::<(Option<TokenView>, int), FbxErrorView>((tok, k + q2)));
                lemma_lex_step(t, p);
                lemma_lex_all_shift(pre, s, q2);
            },
        }
    }
}

/// A comment line in front of a text changes none of its tokens.
pub proof fn lemma_comment_line_dropped(c: Seq<char>, s: Seq<char>)
    requires
        forall|i: int| 0 <= i < c.len() ==> c[i] != '\n',
    ensures
        lex_all(seq![';'] + c + seq!['\n'] + s, 0) == lex_all(s, 0),
{
    let pre = seq![';'] + c + seq!['\n'];
    let t = pre + s;
    assert(seq![';'] + c + seq!['\n'] + s =~= t);
    let nl: int = 1 + c.len() as int;
    assert forall|j: int| 0 <= j <= nl implies line_end(t, j) == nl by {
        lemma_line_end_upto(t, j, nl);
    }
    assert(t[0] == ';');
    assert(t[nl] == '\n');
    assert(lex_step(t, 0) == Ok::<(Option<TokenView>, int), FbxErrorView>((None, nl)));
    assert(lex_step(t, nl) == Ok::<(Option<TokenView>, int), FbxErrorView>((None, nl + 1)));
    lemma_lex_all_shift(pre, s, 0);
    assert(lex_all(t, nl) == lex_all(t, nl + 1));
}

proof fn lemma_line_end_upto(t: Seq<char>, j: int, nl: int)
    requires
        0 <= j <= nl < t.len(),
        t[nl] == '\n',
        forall|i: int| 0 <= i < nl ==> t[i] != '\n',
    ensures
        line_end(t, j) == nl,
    decreases nl - j,
{
    if j < nl {
        lemma_line_end_upto(t, j + 1, nl);
    }
}

// ── Parser ───────────────────────────────────────────────────────────────

/// The token at `i`, or `Eof` past the end.
pub open spec fn tok_at(ts: Seq<TokenView>, i: int) -> TokenView {
    if 0 <= i < ts.len() {
        ts[i]
    } else {
        TokenView::Eof
    }
}

/// The position after taking the token at `i` (which stays put past the
/// end).
pub open spec fn next_pos(ts: Seq<TokenView>, i: int) -> int {
    if i < ts.len() {
        i + 1
    } else {
        i
    }
}

pub open spec fn views_of(ts: Seq<Token>) -> Seq<TokenView> {
    ts.map_values(|t: Token| t@)
}

/// The kind of a token, without what it carries.
#[derive(PartialEq, Eq, Structural, Clone, Copy, Debug)]
pub enum TokenKind {
    Word,
    Integer,
    Float,
    Str,
    Colon,
    Comma,
    LBrace,
    RBrace,
    Star,
    Eof,
}

pub open spec fn kind_of(t: TokenView) -> TokenKind {
    match t {
        TokenView::Word(_) => TokenKind::Word,
        TokenView::Integer { .. } => TokenKind::Integer,
        TokenView::Float(_) => TokenKind::Float,
        TokenView::Str(_) => TokenKind::Str,
        TokenView::Colon => TokenKind::Colon,
        TokenView::Comma => TokenKind::Comma,
        TokenView::LBrace => TokenKind::LBrace,
        TokenView::RBrace => TokenKind::RBrace,
        TokenView::Star => TokenKind::Star,
        TokenView::Eof => TokenKind::Eof,
    }
}

fn kind_at(ts: &Vec<Token>, i: usize) -> (k: TokenKind)
    ensures
        k == kind_of(tok_at(views_of(ts@), i as int)),
{
    if i >= ts.len() {
        return TokenKind::Eof;
    }
    match &ts[i] {
        Token::Word(_) => TokenKind::Word,
        Token::Integer { .. } => TokenKind::Integer,
        Token::Float(_) => TokenKind::Float,
        Token::Str(_) => TokenKind::Str,
        Token::Colon => TokenKind::Colon,
        Token::Comma => TokenKind::Comma,
        Token::LBrace => TokenKind::LBrace,
        Token::RBrace => TokenKind::RBrace,
        Token::Star => TokenKind::Star,
        Token::Eof => TokenKind::Eof,
    }
}

proof fn lemma_encode_utf8_append(a: Seq<char>, b: Seq<char>)
    ensures
        encode_utf8(a + b) == encode_utf8(a) + encode_utf8(b),
    decreases a.len(),
{
    if a.len() == 0 {
        assert(a + b =~= b);
        assert(encode_utf8(a) + encode_utf8(b) =~= encode_utf8(b));
    } else {
        assert((a + b).drop_first() =~= a.drop_first() + b);
        lemma_encode_utf8_append(a.drop_first(), b);
        assert(encode_utf8(a) + encode_utf8(b) =~= encode_scalar(a[0] as u32) + (encode_utf8(a.drop_first())
            + encode_utf8(b)));
    }
}

/// Encodes a text as UTF-8: well-formed UTF-8 that decodes back to the
/// text.
pub fn utf8_encode(s: &[char]) -> (r: Vec<u8>)
    ensures
        r@ == encode_utf8(s@),
        vstd::utf8::valid_utf8(r@),
        vstd::utf8::decode_utf8(r@) == s@,
{
    proof {
        vstd::utf8::encode_utf8_valid_utf8(s@);
        vstd::utf8::encode_utf8_decode_utf8(s@);
    }
    let mut out: Vec<u8> = Vec::new();
    let mut i: usize = 0;
    while i < s.len()
        invariant
            i <= s@.len(),
            out@ == encode_utf8(s@.take(i as int)),
        decreases s@.len() - i,
    {
        let c = s[i];
        let v = c as u32;
        let ghost before = out@;
        proof {
            vstd::utf8::char_is_scalar(c);
        }
        if v < 0x80 {
            assert(leading_byte_width_1(v) == v as u8) by (bit_vector)
                requires v < 0x80u32;
            out.push(v as u8);
        } else if v < 0x800 {
            assert(leading_byte_width_2(v) == (0xC0u32 | (v >> 6u32)) as u8 && last_continuation_byte(v) == (0x80u32
                | (v & 0x3Fu32)) as u8) by (bit_vector)
                requires 0x80u32 <= v < 0x800u32;
            out.push((0xC0u32 | (v >> 6u32)) as u8);
            out.push((0x80u32 | (v & 0x3Fu32)) as u8);
        } else if v < 0x10000 {
            assert(leading_byte_width_3(v) == (0xE0u32 | (v >> 12u32)) as u8 && second_last_continuation_byte(v) == (
            0x80u32 | ((v >> 6u32) & 0x3Fu32)) as u8 && last_continuation_byte(v) == (0x80u32 | (v & 0x3Fu32)) as u8)
                by (bit_vector)
                requires 0x800u32 <= v < 0x10000u32;
            out.push((0xE0u32 | (v >> 12u32)) as u8);
            out.push((0x80u32 | ((v >> 6u32) & 0x3Fu32)) as u8);
            out.push((0x80u32 | (v & 0x3Fu32)) as u8);
        } else {
            assert(leading_byte_width_4(v) == (0xF0u32 | (v >> 18u32)) as u8 && third_last_continuation_byte(v) == (
            0x80u32 | ((v >> 12u32) & 0x3Fu32)) as u8 && second_last_continuation_byte(v) == (0x80u32 | ((v >> 6u32)
                & 0x3Fu32)) as u8 && last_continuation_byte(v) == (0x80u32 | (v & 0x3Fu32)) as u8) by (bit_vector)
                requires 0x10000u32 <= v <= 0x10FFFFu32;
            out.push((0xF0u32 | (v >> 18u32)) as u8);
            out.push((0x80u32 | ((v >> 12u32) & 0x3Fu32)) as u8);
            out.push((0x80u32 | ((v >> 6u32) & 0x3Fu32)) as u8);
            out.push((0x80u32 | (v & 0x3Fu32)) as u8);
        }
        proof {
            assert(out@ =~= before + encode_scalar(v));
            assert(s@.take(i + 1) =~= s@.take(i as int) + seq![c]);
            lemma_encode_utf8_append(s@.take(i as int), seq![c]);
            assert(seq![c].drop_first() =~= Seq::<char>::empty());
            assert(encode_utf8(Seq::<char>::empty()) =~= Seq::<u8>::empty());
            assert(seq![c][0] as u32 == v);
            assert(encode_utf8(seq![c]) == encode_scalar(v) + encode_utf8(seq![c].drop_first()));
            assert(encode_utf8(seq![c]) =~= encode_scalar(v));
        }
        i = i + 1;
    }
    assert(s@.take(i as int) =~= s@);
    out
}


/// The numbers of an array body from `q` up to its closing brace (or the
/// end), and the position of that brace; other tokens are passed over.
pub open spec fn elems_scan(ts: Seq<TokenView>, q: int) -> (Seq<TokenView>, int)
    decreases ts.len() - q,
{
    let t = tok_at(ts, q);
    if t is RBrace || t is Eof {
        (seq![], q)
    } else if t is Integer || t is Float {
        let (r, e) = elems_scan(ts, q + 1);
        (seq![t] + r, e)
    } else {
        elems_scan(ts, q + 1)
    }
}

/// The text of a number token.
pub open spec fn num_text(t: TokenView) -> Seq<char> {
    match t {
        TokenView::Integer { text, .. } => text,
        TokenView::Float(x) => x,
        _ => seq![],
    }
}

/// The value of an integer token (0 for others).
pub open spec fn num_value(t: TokenView) -> i64 {
    match t {
        TokenView::Integer { value, .. } => value,
        _ => 0,
    }
}

pub open spec fn any_float(items: Seq<TokenView>) -> bool {
    exists|i: int| 0 <= i < items.len() && #[trigger] items[i] is Float
}

pub open spec fn out_of_i32(v: i64) -> bool {
    v > i32::MAX || v < i32::MIN
}

pub open spec fn any_wide(items: Seq<TokenView>) -> bool {
    exists|i: int| 0 <= i < items.len() && out_of_i32(num_value(#[trigger] items[i]))
}

/// The property an array body holds: `f64` values (by their texts) when
/// any number has a point or an exponent; else `i64` values when any lies
/// outside the `i32` range; else `i32` values.
pub open spec fn array_value(items: Seq<TokenView>) -> FbxPropertyView {
    if any_float(items) {
        FbxPropertyView::ArrFloat64Text(items.map_values(|t: TokenView| num_text(t)))
    } else if any_wide(items) {
        FbxPropertyView::ArrInt64(items.map_values(|t: TokenView| num_value(t)))
    } else {
        FbxPropertyView::ArrInt32(items.map_values(|t: TokenView| num_value(t) as i32))
    }
}

/// An array property `*N { a: v1, v2, ... }` at `p` (the `*`): the property
/// (none when no brace follows the count) and the position after it.
pub open spec fn array_spec(ts: Seq<TokenView>, p: int) -> (Option<FbxPropertyView>, int) {
    let q1 = next_pos(ts, p);
    let q2 = next_pos(ts, q1);
    if !(tok_at(ts, q2) is LBrace) {
        (None, q2)
    } else {
        let q3 = q2 + 1;
        let q4 = if tok_at(ts, q3) is Word { q3 + 1 } else { q3 };
        let q5 = if tok_at(ts, q4) is Colon { q4 + 1 } else { q4 };
        let (items, q6) = elems_scan(ts, q5);
        let q7 = if tok_at(ts, q6) is RBrace { q6 + 1 } else { q6 };
        (Some(array_value(items)), q7)
    }
}

proof fn lemma_elems_scan(ts: Seq<TokenView>, q: int)
    requires
        0 <= q <= ts.len(),
    ensures
        q <= elems_scan(ts, q).1 <= ts.len(),
    decreases ts.len() - q,
{
    let t = tok_at(ts, q);
    if !(t is RBrace || t is Eof) {
        lemma_elems_scan(ts, q + 1);
    }
}

/// An array property moves forward and stays within the tokens.
pub proof fn lemma_array_advance(ts: Seq<TokenView>, p: int)
    requires
        0 <= p < ts.len(),
    ensures
        p < array_spec(ts, p).1 <= ts.len(),
{
    let q1 = next_pos(ts, p);
    let q2 = next_pos(ts, q1);
    if tok_at(ts, q2) is LBrace {
        let q3 = q2 + 1;
        let q4 = if tok_at(ts, q3) is Word { q3 + 1 } else { q3 };
        let q5 = if tok_at(ts, q4) is Colon { q4 + 1 } else { q4 };
        lemma_elems_scan(ts, q5);
    }
}

fn copy_all(t: &Vec<char>) -> (r: Vec<char>)
    ensures
        r@ == t@,
{
    let r = copy_chars(t.as_slice(), 0, t.len());
    assert(t@.subrange(0, t@.len() as int) =~= t@);
    r
}

/// Scans the numbers of an array body from `q`: their texts, their integer
/// values, whether any is a float, whether any integer is wide, and the end.
fn scan_elems(ts: &Vec<Token>, q: usize) -> (r: (Vec<Vec<char>>, Vec<i64>, bool, bool, usize))
    requires
        q <= ts@.len(),
    ensures
        ({
            let (items, e) = elems_scan(views_of(ts@), q as int);
            &&& r.0@.map_values(|t: Vec<char>| t@) == items.map_values(|t: TokenView| num_text(t))
            &&& r.1@ == items.map_values(|t: TokenView| num_value(t))
            &&& r.2 == any_float(items)
            &&& r.3 == any_wide(items)
            &&& r.4 == e
        }),
{
    let ghost vs = views_of(ts@);
    let mut texts: Vec<Vec<char>> = Vec::new();
    let mut vals: Vec<i64> = Vec::new();
    let mut fl = false;
    let mut wide = false;
    let mut pos = q;
    let ghost mut acc: Seq<TokenView> = seq![];
    loop
        invariant
            q <= pos <= ts@.len(),
            vs == views_of(ts@),
            elems_scan(vs, q as int) == (acc + elems_scan(vs, pos as int).0, elems_scan(vs, pos as int).1),
            texts@.map_values(|t: Vec<char>| t@) == acc.map_values(|t: TokenView| num_text(t)),
            vals@ == acc.map_values(|t: TokenView| num_value(t)),
            fl == any_float(acc),
            wide == any_wide(acc),
        decreases ts@.len() - pos,
    {
        let k = kind_at(ts, pos);
        if k == TokenKind::RBrace || k == TokenKind::Eof {
            assert(acc + Seq::<TokenView>::empty() =~= acc);
            return (texts, vals, fl, wide, pos);
        }
        if k == TokenKind::Integer || k == TokenKind::Float {
            let ghost t = vs[pos as int];
            let (text, value, isf) = match &ts[pos] {
                Token::Integer { value, text } => (copy_all(text), *value, false),
                Token::Float(x) => (copy_all(x), 0i64, true),
                _ => (Vec::new(), 0i64, false),
            };
            assert(text@ == num_text(t) && value == num_value(t) && isf == (t is Float));
            let ghost old_acc = acc;
            let ghost old_texts = texts@;
            let ghost text_v = text;
            texts.push(text);
            vals.push(value);
            proof {
                acc = acc.push(t);
                assert forall|r: Seq<TokenView>| old_acc + (seq![t] + r) =~= acc + r by {}
                assert(texts@ =~= old_texts.push(text));
                assert(old_texts.map_values(|x: Vec<char>| x@).len() == old_acc.map_values(|x: TokenView| num_text(x)).len());
                assert forall|i: int| 0 <= i < acc.len() implies (#[trigger] texts@[i])@ == num_text(acc[i]) by {
                    if i < old_acc.len() {
                        assert(texts@[i] == old_texts[i]);
                        assert(old_texts.map_values(|x: Vec<char>| x@)[i] == old_acc.map_values(|x: TokenView| num_text(x))[i]);
                    } else {
                        assert(texts@[i] == text_v);
                    }
                }
                assert(texts@.map_values(|x: Vec<char>| x@) =~= acc.map_values(|x: TokenView| num_text(x)));
                assert(vals@ =~= acc.map_values(|x: TokenView| num_value(x)));
                if isf {
                    assert(acc[acc.len() - 1] is Float);
                } else if any_float(acc) {
                    let i = choose|i: int| 0 <= i < acc.len() && #[trigger] acc[i] is Float;
                    assert(old_acc[i] is Float);
                }
                if out_of_i32(value) {
                    assert(out_of_i32(num_value(acc[acc.len() - 1])));
                } else if any_wide(acc) {
                    let i = choose|i: int| 0 <= i < acc.len() && out_of_i32(num_value(#[trigger] acc[i]));
                    assert(out_of_i32(num_value(old_acc[i])));
                }
                if fl {
                    let i = choose|i: int| 0 <= i < old_acc.len() && #[trigger] old_acc[i] is Float;
                    assert(acc[i] is Float);
                }
                if wide {
                    let i = choose|i: int| 0 <= i < old_acc.len() && out_of_i32(num_value(#[trigger] old_acc[i]));
                    assert(out_of_i32(num_value(acc[i])));
                }
            }
            assert(pos < ts@.len());
            fl = fl || isf;
            wide = wide || value > 0x7fff_ffffi64 || value < -0x8000_0000i64;
        }
        let _len = ts.len();
        pos = pos + 1;
    }
}

/// Reads an array property at `p` (the `*`).
fn array_exec(ts: &Vec<Token>, p: usize) -> (r: (Option<FbxProperty>, usize))
    requires
        p < ts@.len(),
    ensures
        ({
            let (sp, e) = array_spec(views_of(ts@), p as int);
            &&& r.1 == e
            &&& match (r.0, sp) {
                (Some(a), Some(b)) => a@ == b,
                (None, None) => true,
                _ => false,
            }
        }),
{
    let ghost vs = views_of(ts@);
    let _len = ts.len();
    let q1 = p + 1;
    let q2 = if q1 < ts.len() { q1 + 1 } else { q1 };
    if kind_at(ts, q2) != TokenKind::LBrace {
        return (None, q2);
    }
    let q3 = q2 + 1;
    let q4 = if kind_at(ts, q3) == TokenKind::Word { q3 + 1 } else { q3 };
    let q5 = if kind_at(ts, q4) == TokenKind::Colon { q4 + 1 } else { q4 };
    let (texts, vals, fl, wide, q6) = scan_elems(ts, q5);
    proof {
        lemma_elems_scan(vs, q5 as int);
    }
    let q7 = if kind_at(ts, q6) == TokenKind::RBrace { q6 + 1 } else { q6 };
    let ghost items = elems_scan(vs, q5 as int).0;
    let prop = if fl {
        FbxProperty::ArrFloat64Text(texts)
    } else if wide {
        FbxProperty::ArrInt64(vals)
    } else {
        let mut narrow: Vec<i32> = Vec::new();
        let mut i: usize = 0;
        while i < vals.len()
            invariant
                i <= vals@.len(),
                vals@ == items.map_values(|t: TokenView| num_value(t)),
                narrow@ == vals@.take(i as int).map_values(|v: i64| v as i32),
            decreases vals@.len() - i,
        {
            narrow.push(#[verifier::truncate] (vals[i] as i32));
            i = i + 1;
            assert(narrow@ =~= vals@.take(i as int).map_values(|v: i64| v as i32));
        }
        assert(narrow@ =~= items.map_values(|t: TokenView| num_value(t) as i32));
        FbxProperty::ArrInt32(narrow)
    };
    (Some(prop), q7)
}


/// The property a lone token stands for: an integer, a float by its text,
/// or a string (quoted, or a bare word) by its UTF-8 bytes.
pub open spec fn scalar_value(t: TokenView) -> Option<FbxPropertyView> {
    match t {
        TokenView::Integer { value, .. } => Some(FbxPropertyView::Int64(value)),
        TokenView::Float(x) => Some(FbxPropertyView::Float64Text(x)),
        TokenView::Str(x) => Some(FbxPropertyView::String(encode_utf8(x))),
        TokenView::Word(x) => Some(FbxPropertyView::String(encode_utf8(x))),
        _ => None,
    }
}

pub open spec fn opt_cons<A>(a: Option<A>, r: Seq<A>) -> Seq<A> {
    match a {
        Some(x) => seq![x] + r,
        None => r,
    }
}

/// The properties of a node from `q`: up to a brace, the end, or the
/// start of the next node (a word before a colon); commas are passed over.
pub open spec fn ascii_props(ts: Seq<TokenView>, q: int) -> (Seq<FbxPropertyView>, int)
    decreases ts.len() - q,
{
    let t = tok_at(ts, q);
    if t is LBrace || t is RBrace || t is Eof {
        (seq![], q)
    } else if t is Word && tok_at(ts, q + 1) is Colon {
        (seq![], q)
    } else if t is Comma {
        ascii_props(ts, q + 1)
    } else if t is Star {
        let (a, e) = array_spec(ts, q);
        let (r, e2) = {
            proof {
                lemma_array_advance(ts, q);
            }
            ascii_props(ts, e)
        };
        (opt_cons(a, r), e2)
    } else {
        let (r, e) = ascii_props(ts, q + 1);
        (opt_cons(scalar_value(t), r), e)
    }
}

/// Reading properties never moves back and stays within the tokens.
pub proof fn lemma_props_advance(ts: Seq<TokenView>, q: int)
    requires
        0 <= q <= ts.len(),
    ensures
        q <= ascii_props(ts, q).1 <= ts.len(),
    decreases ts.len() - q,
{
    let t = tok_at(ts, q);
    if t is LBrace || t is RBrace || t is Eof {
    } else if t is Word && tok_at(ts, q + 1) is Colon {
    } else if t is Star {
        lemma_array_advance(ts, q);
        lemma_props_advance(ts, array_spec(ts, q).1);
    } else {
        lemma_props_advance(ts, q + 1);
    }
}

/// The node at `p`: a word, a colon, its properties, and an optional block
/// of children in braces. `None` when `p` holds no word or no colon follows.
pub open spec fn ascii_node(ts: Seq<TokenView>, p: int) -> (Option<FbxNodeView>, int)
    decreases ts.len() - p, 0int,
{
    let q = next_pos(ts, p);
    match tok_at(ts, p) {
        TokenView::Word(w) => if !(tok_at(ts, q) is Colon) {
            (None, q)
        } else {
            let (props, q2) = ascii_props(ts, q + 1);
            if tok_at(ts, q2) is LBrace {
                let (kids, q3) = {
                    proof {
                        lemma_props_advance(ts, q + 1);
                    }
                    ascii_nodes(ts, q2 + 1)
                };
                let q4 = if tok_at(ts, q3) is RBrace { q3 + 1 } else { q3 };
                (Some(FbxNodeView { name: encode_utf8(w), properties: props, children: kids }), q4)
            } else {
                (Some(FbxNodeView { name: encode_utf8(w), properties: props, children: seq![] }), q2)
            }
        },
        _ => (None, q),
    }
}

/// The nodes from `p` up to a closing brace or the end; tokens that cannot
/// start a node are passed over. (A node always moves forward, as
/// `lemma_node_advance` shows; the test on `p1` only lets the definition
/// terminate.)
pub open spec fn ascii_nodes(ts: Seq<TokenView>, p: int) -> (Seq<FbxNodeView>, int)
    decreases ts.len() - p, 1int,
{
    let t = tok_at(ts, p);
    if t is Eof || t is RBrace {
        (seq![], p)
    } else if t is Word {
        let (n, p1) = ascii_node(ts, p);
        if p < p1 <= ts.len() {
            let (rest, e) = ascii_nodes(ts, p1);
            (opt_cons(n, rest), e)
        } else {
            (seq![], p)
        }
    } else {
        ascii_nodes(ts, p + 1)
    }
}


/// A node moves forward and stays within the tokens.
pub proof fn lemma_node_advance(ts: Seq<TokenView>, p: int)
    requires
        0 <= p < ts.len(),
    ensures
        p < ascii_node(ts, p).1 <= ts.len(),
    decreases ts.len() - p, 0int,
{
    let q = next_pos(ts, p);
    if tok_at(ts, p) is Word && tok_at(ts, q) is Colon {
        lemma_props_advance(ts, q + 1);
        let q2 = ascii_props(ts, q + 1).1;
        if tok_at(ts, q2) is LBrace {
            lemma_nodes_advance(ts, q2 + 1);
        }
    }
}

/// Reading a list of nodes never moves back and stays within the tokens.
pub proof fn lemma_nodes_advance(ts: Seq<TokenView>, p: int)
    requires
        0 <= p <= ts.len(),
    ensures
        p <= ascii_nodes(ts, p).1 <= ts.len(),
    decreases ts.len() - p, 1int,
{
    let t = tok_at(ts, p);
    if t is Eof || t is RBrace {
    } else if t is Word {
        lemma_node_advance(ts, p);
        lemma_nodes_advance(ts, ascii_node(ts, p).1);
    } else {
        lemma_nodes_advance(ts, p + 1);
    }
}

/// The property a lone token at `i` stands for.
fn scalar_exec(ts: &Vec<Token>, i: usize) -> (r: Option<FbxProperty>)
    requires
        i < ts@.len(),
    ensures
        match (r, scalar_value(views_of(ts@)[i as int])) {
            (Some(a), Some(b)) => a@ == b,
            (None, None) => true,
            _ => false,
        },
{
    match &ts[i] {
        Token::Integer { value, .. } => Some(FbxProperty::Int64(*value)),
        Token::Float(x) => Some(FbxProperty::Float64Text(copy_all(x))),
        Token::Str(x) => Some(FbxProperty::String(utf8_encode(x.as_slice()))),
        Token::Word(x) => Some(FbxProperty::String(utf8_encode(x.as_slice()))),
        _ => None,
    }
}

/// Reads the properties of a node from `q`.
fn parse_props(ts: &Vec<Token>, q: usize) -> (r: (Vec<FbxProperty>, usize))
    requires
        q <= ts@.len(),
    ensures
        r.0@.map_values(|p: FbxProperty| p@) == ascii_props(views_of(ts@), q as int).0,
        r.1 == ascii_props(views_of(ts@), q as int).1,
{
    let ghost vs = views_of(ts@);
    let mut props: Vec<FbxProperty> = Vec::new();
    let mut pos = q;
    loop
        invariant
            q <= pos <= ts@.len(),
            vs == views_of(ts@),
            ascii_props(vs, q as int) == (
                props@.map_values(|p: FbxProperty| p@) + ascii_props(vs, pos as int).0,
                ascii_props(vs, pos as int).1,
            ),
        decreases ts@.len() - pos,
    {
        let _len = ts.len();
        let ghost before = props@.map_values(|p: FbxProperty| p@);
        let k = kind_at(ts, pos);
        if k == TokenKind::LBrace || k == TokenKind::RBrace || k == TokenKind::Eof {
            assert(before + Seq::<FbxPropertyView>::empty() =~= before);
            return (props, pos);
        }
        assert(pos < ts@.len());
        if k == TokenKind::Word && kind_at(ts, pos + 1) == TokenKind::Colon {
            assert(before + Seq::<FbxPropertyView>::empty() =~= before);
            return (props, pos);
        }
        if k == TokenKind::Comma {
            pos = pos + 1;
        } else if k == TokenKind::Star {
            let (a, e) = array_exec(ts, pos);
            proof {
                lemma_array_advance(vs, pos as int);
            }
            match a {
                Some(prop) => {
                    let ghost pv = prop@;
                    props.push(prop);
                    assert(props@.map_values(|p: FbxProperty| p@) =~= before.push(pv));
                    assert forall|r: Seq<FbxPropertyView>| before + (seq![pv] + r) =~= before.push(pv) + r by {}
                },
                None => {},
            }
            pos = e;
        } else {
            match scalar_exec(ts, pos) {
                Some(prop) => {
                    let ghost pv = prop@;
                    props.push(prop);
                    assert(props@.map_values(|p: FbxProperty| p@) =~= before.push(pv));
                    assert forall|r: Seq<FbxPropertyView>| before + (seq![pv] + r) =~= before.push(pv) + r by {}
                },
                None => {},
            }
            pos = pos + 1;
        }
    }
}

/// Reads the node at `p`.
fn parse_node(ts: &Vec<Token>, p: usize) -> (r: (Option<FbxNode>, usize))
    requires
        p < ts@.len(),
    ensures
        r.1 == ascii_node(views_of(ts@), p as int).1,
        match (r.0, ascii_node(views_of(ts@), p as int).0) {
            (Some(n), Some(sn)) => node_view(n) == sn,
            (None, None) => true,
            _ => false,
        },
    decreases ts@.len() - p, 0int,
{
    let ghost vs = views_of(ts@);
    let _len = ts.len();
    let q = p + 1;
    let name = match &ts[p] {
        Token::Word(w) => utf8_encode(w.as_slice()),
        _ => {
            return (None, q);
        },
    };
    if kind_at(ts, q) != TokenKind::Colon {
        return (None, q);
    }
    let (properties, q2) = parse_props(ts, q + 1);
    proof {
        lemma_props_advance(vs, q + 1);
    }
    if kind_at(ts, q2) == TokenKind::LBrace {
        let (children, q3) = parse_nodes(ts, q2 + 1);
        proof {
            lemma_nodes_advance(vs, q2 + 1);
        }
        let q4 = if kind_at(ts, q3) == TokenKind::RBrace { q3 + 1 } else { q3 };
        let node = FbxNode { name, properties, children };
        (Some(node), q4)
    } else {
        let children: Vec<FbxNode> = Vec::new();
        assert(nodes_view(children@) =~= Seq::<FbxNodeView>::empty());
        let node = FbxNode { name, properties, children };
        (Some(node), q2)
    }
}

/// Reads the nodes from `p` up to a closing brace or the end.
fn parse_nodes(ts: &Vec<Token>, p: usize) -> (r: (Vec<FbxNode>, usize))
    requires
        p <= ts@.len(),
    ensures
        nodes_view(r.0@) == ascii_nodes(views_of(ts@), p as int).0,
        r.1 == ascii_nodes(views_of(ts@), p as int).1,
    decreases ts@.len() - p, 1int,
{
    let ghost vs = views_of(ts@);
    let mut nodes: Vec<FbxNode> = Vec::new();
    let mut pos = p;
    assert(nodes_view(nodes@) =~= Seq::<FbxNodeView>::empty());
    loop
        invariant
            p <= pos <= ts@.len(),
            vs == views_of(ts@),
            ascii_nodes(vs, p as int) == (nodes_view(nodes@) + ascii_nodes(vs, pos as int).0, ascii_nodes(vs, pos as int).1),
        decreases ts@.len() - pos,
    {
        let _len = ts.len();
        let ghost before = nodes_view(nodes@);
        let k = kind_at(ts, pos);
        if k == TokenKind::Eof || k == TokenKind::RBrace {
            assert(before + Seq::<FbxNodeView>::empty() =~= before);
            return (nodes, pos);
        }
        assert(pos < ts@.len());
        if k == TokenKind::Word {
            let (n, p1) = parse_node(ts, pos);
            proof {
                lemma_node_advance(vs, pos as int);
            }
            match n {
                Some(node) => {
                    let ghost nv = node_view(node);
                    proof {
                        crate::fbx::lemma_nodes_view_push(nodes@, node);
                    }
                    nodes.push(node);
                    assert forall|r: Seq<FbxNodeView>| before + (seq![nv] + r) =~= before.push(nv) + r by {}
                },
                None => {},
            }
            pos = p1;
        } else {
            pos = pos + 1;
        }
    }
}


// ── Version and document ──────────────────────────────────────────────────

pub open spec fn fbx_version_word() -> Seq<char> {
    seq!['F', 'B', 'X', 'V', 'e', 'r', 's', 'i', 'o', 'n']
}

/// The version from the first `FBXVersion: N` at or after `i` (`N` taken
/// modulo 2^32), or 7400 when there is none.
pub open spec fn sniff_from(ts: Seq<TokenView>, i: int) -> u32
    decreases ts.len() - i,
{
    if i < 0 || i + 2 >= ts.len() {
        7400
    } else if ts[i] == TokenView::Word(fbx_version_word()) && ts[i + 1] is Colon && ts[i + 2] is Integer {
        num_value(ts[i + 2]) as u32
    } else {
        sniff_from(ts, i + 1)
    }
}

fn is_version_word(t: &Token) -> (r: bool)
    ensures
        r == (t@ == TokenView::Word(fbx_version_word())),
{
    let lit: [char; 10] = ['F', 'B', 'X', 'V', 'e', 'r', 's', 'i', 'o', 'n'];
    assert(lit@ =~= fbx_version_word());
    match t {
        Token::Word(w) => {
            if w.len() != 10 {
                return false;
            }
            let mut i: usize = 0;
            while i < 10
                invariant
                    t@ == TokenView::Word(w@),
                    w@.len() == 10,
                    lit@ == fbx_version_word(),
                    i <= 10,
                    forall|k: int| 0 <= k < i ==> w@[k] == lit@[k],
                decreases 10 - i,
            {
                if w[i] != lit[i] {
                    assert(w@[i as int] != fbx_version_word()[i as int]);
                    return false;
                }
                i = i + 1;
            }
            assert(w@ =~= fbx_version_word());
            true
        },
        _ => false,
    }
}

/// The version that an `FBXVersion: N` node among the tokens gives.
pub fn sniff_version(ts: &Vec<Token>) -> (r: u32)
    ensures
        r == sniff_from(views_of(ts@), 0),
{
    let ghost vs = views_of(ts@);
    let mut i: usize = 0;
    while i < ts.len() && ts.len() - i > 2
        invariant
            i <= ts@.len(),
            vs == views_of(ts@),
            sniff_from(vs, 0) == sniff_from(vs, i as int),
        decreases ts@.len() - i,
    {
        if is_version_word(&ts[i]) && kind_at(ts, i + 1) == TokenKind::Colon {
            match &ts[i + 2] {
                Token::Integer { value, .. } => {
                    return #[verifier::truncate] (*value as u32);
                },
                _ => {},
            }
        }
        i = i + 1;
    }
    7400
}

/// The characters after a leading byte-order mark, if there is one.
pub open spec fn strip_bom(s: Seq<char>) -> Seq<char> {
    if s.len() > 0 && s[0] == '\u{FEFF}' {
        s.drop_first()
    } else {
        s
    }
}

/// What `parse_ascii` gives: the version and the top-level nodes.
pub open spec fn parse_ascii_spec(s: Seq<char>) -> Result<(u32, Seq<FbxNodeView>), FbxErrorView> {
    match lex_all(strip_bom(s), 0) {
        Err(e) => Err(e),
        Ok(ts) => Ok((sniff_from(ts, 0), ascii_nodes(ts, 0).0)),
    }
}

/// Reads an ASCII FBX document from its characters.
pub fn parse_ascii(src: &[char]) -> (r: Result<FbxDocument, FbxError>)
    ensures
        match (r, parse_ascii_spec(src@)) {
            (Ok(doc), Ok((v, roots))) => doc.version == v && nodes_view(doc.roots@) == roots,
            (Err(e), Err(se)) => e@ == se,
            _ => false,
        },
{
    let body = if src.len() > 0 && src[0] == '\u{FEFF}' {
        vstd::slice::slice_subrange(src, 1, src.len())
    } else {
        src
    };
    assert(body@ =~= strip_bom(src@));
    let tokens = match tokenize(body) {
        Err(e) => {
            return Err(e);
        },
        Ok(t) => t,
    };
    let version = sniff_version(&tokens);
    let (roots, _) = parse_nodes(&tokens, 0);
    Ok(FbxDocument { version, roots })
}

/// The bytes after a leading UTF-8 byte-order mark, if there is one.
pub open spec fn strip_bom_bytes(b: Seq<u8>) -> Seq<u8> {
    if b.len() >= 3 && b[0] == 0xEF && b[1] == 0xBB && b[2] == 0xBF {
        b.skip(3)
    } else {
        b
    }
}

/// Whether the first bytes of a file look like ASCII FBX: after an
/// optional byte-order mark they are UTF-8 and begin with `; FBX` or
/// `;FBX`.
pub open spec fn looks_ascii(head: Seq<u8>) -> bool {
    let d = strip_bom_bytes(head);
    vstd::utf8::valid_utf8(d) && (crate::text::begins_with(d, "; FBX".spec_bytes())
        || crate::text::begins_with(d, ";FBX".spec_bytes()))
}

/// Whether `head` (the first bytes of a file, up to 16) is an ASCII FBX
/// opening.
pub fn detect_ascii(head: &[u8]) -> (r: bool)
    ensures
        r == looks_ascii(head@),
{
    let d = if head.len() >= 3 && head[0] == 0xEF && head[1] == 0xBB && head[2] == 0xBF {
        vstd::slice::slice_subrange(head, 3, head.len())
    } else {
        head
    };
    assert(d@ =~= strip_bom_bytes(head@));
    if !crate::text::is_valid_utf8(d) {
        return false;
    }
    let a = crate::stl::literal("; FBX");
    let b = crate::stl::literal(";FBX");
    crate::text::starts_with(d, a.as_slice()) || crate::text::starts_with(d, b.as_slice())
}

} // verus!
