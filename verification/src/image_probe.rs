//! Image dimensions read from PNG (IHDR) or JPEG (SOFn) headers without
//! decoding the image.

use vstd::prelude::*;

verus! {

pub open spec fn be16(b: Seq<u8>, i: int) -> int {
    b[i] as int * 256 + b[i + 1] as int
}

pub open spec fn be32(b: Seq<u8>, i: int) -> int {
    b[i] as int * 16777216 + b[i + 1] as int * 65536 + b[i + 2] as int * 256 + b[i + 3] as int
}

/// The eight-byte PNG signature.
pub open spec fn png_signature() -> Seq<u8> {
    seq![0x89u8, 0x50u8, 0x4eu8, 0x47u8, 0x0du8, 0x0au8, 0x1au8, 0x0au8]
}

/// A JPEG start-of-frame marker: SOF0..SOF15 except DHT, JPG and DAC.
pub open spec fn is_sof(m: u8) -> bool {
    0xc0 <= m <= 0xcf && m != 0xc4 && m != 0xc8 && m != 0xcc
}

/// Walks JPEG segments from offset `i` to the first start-of-frame marker;
/// its payload holds height then width (big-endian 16-bit).
pub open spec fn jpeg_scan(b: Seq<u8>, i: int) -> Option<(u32, u32)>
    decreases b.len() - i,
{
    if 0 <= i && i + 9 < b.len() {
        if b[i] != 0xffu8 {
            jpeg_scan(b, i + 1)
        } else if is_sof(b[i + 1]) {
            Some((be16(b, i + 7) as u32, be16(b, i + 5) as u32))
        } else {
            let next = i + 2 + be16(b, i + 2);
            if next <= b.len() {
                jpeg_scan(b, next)
            } else {
                None
            }
        }
    } else {
        None
    }
}

/// (width, height) of a PNG or JPEG image, from its header.
pub open spec fn probe_spec(b: Seq<u8>) -> Option<(u32, u32)> {
    if b.len() >= 24 && b.subrange(0, 8) == png_signature() {
        Some((be32(b, 16) as u32, be32(b, 20) as u32))
    } else if b.len() >= 4 && b[0] == 0xffu8 && b[1] == 0xd8u8 {
        jpeg_scan(b, 2)
    } else {
        None
    }
}

fn read_be16(b: &[u8], i: usize) -> (r: u32)
    requires
        i + 1 < b@.len(),
    ensures
        r as int == be16(b@, i as int),
{
    (b[i] as u32) * 256 + (b[i + 1] as u32)
}

fn read_be32(b: &[u8], i: usize) -> (r: u32)
    requires
        i + 3 < b@.len(),
    ensures
        r as int == be32(b@, i as int),
{
    (b[i] as u32) * 16777216 + (b[i + 1] as u32) * 65536 + (b[i + 2] as u32) * 256 + (b[i
        + 3] as u32)
}

/// Parses PNG (IHDR) or JPEG (SOF0..SOF15) dimensions from image bytes
/// without decoding the full image. Returns (width, height).
#[verifier::loop_isolation(false)]
pub fn probe_image_size(bytes: &[u8]) -> (r: Option<(u32, u32)>)
    ensures
        r == probe_spec(bytes@),
{
    let n = bytes.len();
    if n >= 24 && bytes[0] == 0x89 && bytes[1] == 0x50 && bytes[2] == 0x4e && bytes[3] == 0x47
        && bytes[4] == 0x0d && bytes[5] == 0x0a && bytes[6] == 0x1a && bytes[7] == 0x0a {
        assert(bytes@.subrange(0, 8) =~= png_signature());
        let w = read_be32(bytes, 16);
        let h = read_be32(bytes, 20);
        return Some((w, h));
    }
    assert(n >= 24 ==> bytes@.subrange(0, 8) != png_signature()) by {
        if n >= 24 && bytes@.subrange(0, 8) == png_signature() {
            assert(bytes@.subrange(0, 8)[0] == bytes@[0]);
            assert(bytes@.subrange(0, 8)[1] == bytes@[1]);
            assert(bytes@.subrange(0, 8)[2] == bytes@[2]);
            assert(bytes@.subrange(0, 8)[3] == bytes@[3]);
            assert(bytes@.subrange(0, 8)[4] == bytes@[4]);
            assert(bytes@.subrange(0, 8)[5] == bytes@[5]);
            assert(bytes@.subrange(0, 8)[6] == bytes@[6]);
            assert(bytes@.subrange(0, 8)[7] == bytes@[7]);
        }
    }
    if n >= 4 && bytes[0] == 0xff && bytes[1] == 0xd8 {
        let mut i: usize = 2;
        while i < n && n - i > 9
            invariant
                n == bytes@.len(),
                2 <= i,
                jpeg_scan(bytes@, i as int) == jpeg_scan(bytes@, 2),
            decreases n - i,
        {
            if bytes[i] != 0xff {
                assert(jpeg_scan(bytes@, i as int) == jpeg_scan(bytes@, i + 1));
                i += 1;
                continue;
            }
            let marker = bytes[i + 1];
            if 0xc0 <= marker && marker <= 0xcf && marker != 0xc4 && marker != 0xc8 && marker
                != 0xcc {
                let h = read_be16(bytes, i + 5);
                let w = read_be16(bytes, i + 7);
                assert(jpeg_scan(bytes@, i as int) == Some((w, h)));
                return Some((w, h));
            }
            let seg_len = read_be16(bytes, i + 2);
            let step: usize = 2 + seg_len as usize;
            if step > n - i {
                // the next offset lies past the end: no frame header follows
                return None;
            }
            assert(jpeg_scan(bytes@, i as int) == jpeg_scan(bytes@, i + step));
            i += step;
        }
        assert(jpeg_scan(bytes@, i as int) == None::<(u32, u32)>);
        return None;
    }
    None
}

} // verus!
