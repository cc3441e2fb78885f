//! A minimal PNG writer for 8-bit RGBA images: unfiltered scanlines,
//! deflate-compressed, framed in IHDR, IDAT and IEND chunks with CRC-32.

use vstd::prelude::*;
use std::io::Write;
use vstd::string::StringSliceAdditionalSpecFns;
use crate::bytes::{be32_bytes, push_bytes, push_u32_be};
use flate2::write::DeflateEncoder;
use flate2::Compression;

verus! {

/// One shift of the reflected CRC-32 register (polynomial `0xEDB88320`).
pub open spec fn crc_round(c: u32) -> u32 {
    if c & 1 != 0 {
        0xedb88320u32 ^ (c >> 1u32)
    } else {
        c >> 1u32
    }
}

/// Eight shifts: the register after taking in one byte's bits.
pub open spec fn crc_round8(c: u32) -> u32 {
    crc_round(crc_round(crc_round(crc_round(crc_round(crc_round(crc_round(crc_round(c))))))))
}

/// `k` shifts.
pub open spec fn crc_rounds(c: u32, k: nat) -> u32
    decreases k,
{
    if k == 0 {
        c
    } else {
        crc_round(crc_rounds(c, (k - 1) as nat))
    }
}

/// The register after taking in byte `b`.
pub open spec fn crc_byte(c: u32, b: u8) -> u32 {
    crc_round8(c ^ (b as u32))
}

/// The register after taking in the bytes of `s`, starting from `c`.
pub open spec fn crc_register(c: u32, s: Seq<u8>) -> u32
    decreases s.len(),
{
    if s.len() == 0 {
        c
    } else {
        crc_byte(crc_register(c, s.drop_last()), s.last())
    }
}

/// The CRC-32 of `s` (as used by PNG and zlib): register preset to all
/// ones, final value inverted.
pub open spec fn crc32_spec(s: Seq<u8>) -> u32 {
    crc_register(0xffffffff, s) ^ 0xffffffffu32
}

proof fn lemma_rounds8(c: u32)
    ensures
        crc_rounds(c, 8) == crc_round8(c),
{
    reveal_with_fuel(crc_rounds, 9);
}

/// Feeding a byte through the table: the register's low byte, mixed with
/// the input byte, picks the entry; the high bits just shift.
proof fn lemma_crc_table_step(crc: u32, b: u8)
    ensures
        crc_round8(crc ^ (b as u32)) == crc_round8((crc ^ (b as u32)) & 0xffu32) ^ (crc >> 8u32),
{
    assert(crc_round8(crc ^ (b as u32)) == crc_round8((crc ^ (b as u32)) & 0xffu32) ^ (crc >> 8u32)) by (bit_vector);
}

/// The 256 table entries: entry `i` is `i` shifted through eight rounds.
fn crc_table() -> (t: Vec<u32>)
    ensures
        t@.len() == 256,
        forall|i: int| 0 <= i < 256 ==> #[trigger] t@[i] == crc_round8(i as u32),
{
    let mut table: Vec<u32> = Vec::new();
    let mut i: u32 = 0;
    while i < 256
        invariant
            i <= 256,
            table@.len() == i,
            forall|k: int| 0 <= k < i ==> #[trigger] table@[k] == crc_round8(k as u32),
        decreases 256 - i,
    {
        let mut crc: u32 = i;
        let mut j: u32 = 0;
        while j < 8
            invariant
                j <= 8,
                crc == crc_rounds(i, j as nat),
            decreases 8 - j,
        {
            if crc & 1 != 0 {
                crc = 0xedb88320 ^ (crc >> 1);
            } else {
                crc = crc >> 1;
            }
            j = j + 1;
        }
        proof {
            lemma_rounds8(i);
        }
        table.push(crc);
        i = i + 1;
    }
    table
}

/// The CRC-32 of a chunk's type followed by its data.
pub fn calc_crc32(type_bytes: &[u8; 4], data: &[u8]) -> (r: u32)
    ensures
        r == crc32_spec(type_bytes@ + data@),
{
    let table = crc_table();
    let mut crc: u32 = 0xffffffff;
    let mut i: usize = 0;
    while i < 4
        invariant
            i <= 4,
            table@.len() == 256,
            forall|k: int| 0 <= k < 256 ==> #[trigger] table@[k] == crc_round8(k as u32),
            crc == crc_register(0xffffffff, type_bytes@.take(i as int)),
        decreases 4 - i,
    {
        let b = type_bytes[i];
        proof {
            lemma_crc_table_step(crc, b);
            assert(type_bytes@.take(i + 1).drop_last() =~= type_bytes@.take(i as int));
            assert(type_bytes@.take(i + 1).last() == b);
            assert((crc ^ (b as u32)) & 0xffu32 < 256u32) by (bit_vector);
        }
        let k = ((crc ^ (b as u32)) & 0xff) as usize;
        assert(table@[k as int] == crc_round8((crc ^ (b as u32)) & 0xffu32));
        crc = table[k] ^ (crc >> 8);
        i = i + 1;
    }
    assert(type_bytes@.take(4) =~= type_bytes@);
    let mut j: usize = 0;
    while j < data.len()
        invariant
            j <= data@.len(),
            table@.len() == 256,
            forall|k: int| 0 <= k < 256 ==> #[trigger] table@[k] == crc_round8(k as u32),
            crc == crc_register(0xffffffff, type_bytes@ + data@.take(j as int)),
        decreases data@.len() - j,
    {
        let b = data[j];
        proof {
            lemma_crc_table_step(crc, b);
            assert((type_bytes@ + data@.take(j + 1)).drop_last() =~= type_bytes@ + data@.take(j as int));
            assert((type_bytes@ + data@.take(j + 1)).last() == b);
            assert((crc ^ (b as u32)) & 0xffu32 < 256u32) by (bit_vector);
        }
        let k = ((crc ^ (b as u32)) & 0xff) as usize;
        assert(table@[k as int] == crc_round8((crc ^ (b as u32)) & 0xffu32));
        crc = table[k] ^ (crc >> 8);
        j = j + 1;
    }
    assert(data@.take(j as int) =~= data@);
    crc ^ 0xffffffff
}

/// A PNG chunk: data length (as `u32`, big-endian), type, data, and the
/// CRC-32 of type and data.
pub open spec fn chunk_bytes(chunk_type: Seq<u8>, data: Seq<u8>) -> Seq<u8> {
    be32_bytes(data.len() % 0x1_0000_0000) + chunk_type + data + be32_bytes(crc32_spec(chunk_type + data) as nat)
}

/// Appends a chunk to `png`.
pub fn write_png_chunk(png: &mut Vec<u8>, chunk_type: &[u8; 4], data: &[u8])
    ensures
        final(png)@ == old(png)@ + chunk_bytes(chunk_type@, data@),
{
    let len = ((data.len() as u64) % 0x1_0000_0000) as u32;
    push_u32_be(png, len);
    push_bytes(png, chunk_type.as_slice());
    push_bytes(png, data);
    let crc = calc_crc32(chunk_type, data);
    push_u32_be(png, crc);
    assert(final(png)@ =~= old(png)@ + chunk_bytes(chunk_type@, data@));
}

/// What `flate2`'s deflate encoder at its fast level produces for `data`.
pub uninterp spec fn deflate_fast(data: Seq<u8>) -> Seq<u8>;

/// `flate2::write::DeflateEncoder` over a `Vec<u8>` at `Compression::fast()`:
/// all of `data` written, then finished. Writing into a vector does not
/// fail; the output depends on the input alone.
#[verifier::external_body]
fn deflate(data: &[u8]) -> (r: Vec<u8>)
    ensures
        r@ == deflate_fast(data@),
{
    let mut encoder = DeflateEncoder::new(Vec::new(), Compression::fast());
    encoder.write_all(data).unwrap();
    encoder.finish().unwrap()
}

/// The unfiltered scanlines of an RGBA image: each row of `4 * width` bytes
/// preceded by the filter byte 0.
pub open spec fn png_rows_spec(rgba: Seq<u8>, width: nat, height: nat) -> Seq<u8>
    decreases height,
{
    if height == 0 {
        seq![]
    } else {
        let y = (height - 1) as nat;
        png_rows_spec(rgba, width, y) + seq![0u8] + rgba.subrange((y * 4 * width) as int, ((y + 1) * 4 * width) as int)
    }
}

/// Lays out the scanlines of an RGBA image.
pub fn png_rows(rgba: &[u8], width: usize, height: usize) -> (r: Vec<u8>)
    requires
        4 * width <= usize::MAX,
        4 * width * height <= rgba@.len(),
    ensures
        r@ == png_rows_spec(rgba@, width as nat, height as nat),
{
    let _n = rgba.len();
    let stride = 4 * width;
    let mut raw: Vec<u8> = Vec::new();
    let mut y: usize = 0;
    while y < height
        invariant
            _n == rgba@.len(),
            stride == 4 * width,
            4 * width * height <= rgba@.len(),
            y <= height,
            raw@ == png_rows_spec(rgba@, width as nat, y as nat),
        decreases height - y,
    {
        assert((y + 1) * stride <= 4 * width * height) by (nonlinear_arith)
            requires y < height, stride == 4 * width;
        assert(y * stride <= (y + 1) * stride) by (nonlinear_arith)
            requires stride >= 0, y >= 0;
        raw.push(0);
        let row = vstd::slice::slice_subrange(rgba, y * stride, (y + 1) * stride);
        push_bytes(&mut raw, row);
        proof {
            assert(y * 4 * width == y * stride) by (nonlinear_arith) requires stride == 4 * width;
            assert((y + 1) * 4 * width == (y + 1) * stride) by (nonlinear_arith) requires stride == 4 * width;
        }
        y = y + 1;
    }
    raw
}

/// The eight-byte PNG signature.
pub open spec fn png_signature() -> Seq<u8> {
    seq![0x89u8, 0x50, 0x4e, 0x47, 0x0d, 0x0a, 0x1a, 0x0a]
}

/// The IHDR data: width and height (as `u32`), bit depth 8, color type 6
/// (RGBA), default compression, filter and interlace.
pub open spec fn ihdr_data(width: nat, height: nat) -> Seq<u8> {
    be32_bytes(width % 0x1_0000_0000) + be32_bytes(height % 0x1_0000_0000) + seq![8u8, 6, 0, 0, 0]
}

/// A PNG file from the compressed image data.
pub open spec fn png_file(width: nat, height: nat, compressed: Seq<u8>) -> Seq<u8> {
    png_signature() + chunk_bytes("IHDR".spec_bytes(), ihdr_data(width, height)) + chunk_bytes(
        "IDAT".spec_bytes(),
        compressed,
    ) + chunk_bytes("IEND".spec_bytes(), seq![])
}

fn tag(s: &str) -> (r: [u8; 4])
    requires
        s.spec_bytes().len() == 4,
    ensures
        r@ == s.spec_bytes(),
{
    let b = s.as_bytes();
    let r = [b[0], b[1], b[2], b[3]];
    assert(r@ =~= s.spec_bytes());
    r
}

/// Frames compressed image data as a PNG file.
pub fn png_from_compressed(width: usize, height: usize, compressed: &[u8]) -> (r: Vec<u8>)
    ensures
        r@ == png_file(width as nat, height as nat, compressed@),
{
    proof {
        reveal_strlit("IHDR");
        reveal_strlit("IDAT");
        reveal_strlit("IEND");
        vstd::string::is_ascii_spec_bytes("IHDR");
        vstd::string::is_ascii_spec_bytes("IDAT");
        vstd::string::is_ascii_spec_bytes("IEND");
    }
    let mut png: Vec<u8> = Vec::new();
    png.push(0x89);
    png.push(0x50);
    png.push(0x4e);
    png.push(0x47);
    png.push(0x0d);
    png.push(0x0a);
    png.push(0x1a);
    png.push(0x0a);
    assert(png@ =~= png_signature());
    let mut ihdr: Vec<u8> = Vec::new();
    push_u32_be(&mut ihdr, ((width as u64) % 0x1_0000_0000) as u32);
    push_u32_be(&mut ihdr, ((height as u64) % 0x1_0000_0000) as u32);
    ihdr.push(8);
    ihdr.push(6);
    ihdr.push(0);
    ihdr.push(0);
    ihdr.push(0);
    assert(ihdr@ =~= ihdr_data(width as nat, height as nat));
    write_png_chunk(&mut png, &tag("IHDR"), ihdr.as_slice());
    write_png_chunk(&mut png, &tag("IDAT"), compressed);
    let empty: Vec<u8> = Vec::new();
    write_png_chunk(&mut png, &tag("IEND"), empty.as_slice());
    assert(empty@ =~= Seq::<u8>::empty());
    png
}

/// Encodes an RGBA image (8 bits per channel, rows top to bottom) as PNG.
pub fn encode_rgba_to_png(rgba: &[u8], width: usize, height: usize) -> (r: Vec<u8>)
    requires
        4 * width <= usize::MAX,
        4 * width * height <= rgba@.len(),
    ensures
        r@ == png_file(width as nat, height as nat, deflate_fast(png_rows_spec(rgba@, width as nat, height as nat))),
{
    let raw = png_rows(rgba, width, height);
    let compressed = deflate(raw.as_slice());
    png_from_compressed(width, height, compressed.as_slice())
}

} // verus!
