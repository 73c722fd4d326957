use crate::pixel::Pixel;
use vstd::prelude::*;

verus! {

/// The SHA3-512 hash of a byte string.
pub uninterp spec fn sha3_512_of(msg: Seq<u8>) -> Seq<u8>;

/// Relies on `sha3::Sha3_512` (through `digest::Digest::digest`): the
/// SHA3-512 hash of `msg`, whose output size is 64 bytes.
#[verifier::external_body]
fn sha3_512(msg: &[u8]) -> (r: Vec<u8>)
    ensures
        r@ == sha3_512_of(msg@),
        r@.len() == 64,
{
    <sha3::Sha3_512 as sha3::Digest>::digest(msg).to_vec()
}

/// Length in bytes of every pixel digest.
pub const DIGEST_LEN: usize = 64;

/// The ASCII character of a hexadecimal digit, upper case.
pub open spec fn hex_digit(n: int) -> u8 {
    if n < 10 {
        (48 + n) as u8
    } else {
        (55 + n) as u8
    }
}

/// The text that is hashed for a pixel: `0x` followed by its four channels
/// as two upper-case hex digits each.
pub open spec fn pixel_label(p: Pixel) -> Seq<u8> {
    seq![
        48u8,
        120u8,
        hex_digit(p.r as int / 16),
        hex_digit(p.r as int % 16),
        hex_digit(p.g as int / 16),
        hex_digit(p.g as int % 16),
        hex_digit(p.b as int / 16),
        hex_digit(p.b as int % 16),
        hex_digit(p.a as int / 16),
        hex_digit(p.a as int % 16),
    ]
}

/// The digest of a pixel: the SHA3-512 hash of its label.
pub open spec fn digest_of(p: Pixel) -> Seq<u8> {
    sha3_512_of(pixel_label(p))
}

/// No two distinct pixel values share a digest.
pub open spec fn collision_free() -> bool {
    forall|p: Pixel, q: Pixel| #[trigger] digest_of(p) == #[trigger] digest_of(q) ==> p == q
}

/// The upper-case hex character of a value below 16.
pub fn hex_char(n: u8) -> (c: u8)
    requires
        n < 16,
    ensures
        c == hex_digit(n as int),
{
    if n < 10 {
        48 + n
    } else {
        55 + n
    }
}

/// Computes the digest of a pixel. The result depends on the pixel alone.
pub fn digest_pixel(p: Pixel) -> (d: Vec<u8>)
    ensures
        d@ == digest_of(p),
        d@.len() == DIGEST_LEN,
{
    let mut label: Vec<u8> = Vec::new();
    label.push(48u8);
    label.push(120u8);
    label.push(hex_char(p.r / 16));
    label.push(hex_char(p.r % 16));
    label.push(hex_char(p.g / 16));
    label.push(hex_char(p.g % 16));
    label.push(hex_char(p.b / 16));
    label.push(hex_char(p.b % 16));
    label.push(hex_char(p.a / 16));
    label.push(hex_char(p.a % 16));
    assert(label@ =~= pixel_label(p));
    sha3_512(label.as_slice())
}

/// Byte-wise equality of two byte strings.
pub fn bytes_equal(x: &Vec<u8>, y: &Vec<u8>) -> (r: bool)
    ensures
        r == (x@ == y@),
{
    if x.len() != y.len() {
        return false;
    }
    let mut i: usize = 0;
    while i < x.len()
        invariant
            x@.len() == y@.len(),
            i <= x@.len(),
            forall|j: int| 0 <= j < i ==> x@[j] == y@[j],
        decreases x@.len() - i,
    {
        if x[i] != y[i] {
            return false;
        }
        i = i + 1;
    }
    assert(x@ =~= y@);
    true
}

/// A copy of a byte string.
pub fn copy_bytes(x: &Vec<u8>) -> (r: Vec<u8>)
    ensures
        r@ == x@,
{
    let mut r: Vec<u8> = Vec::new();
    let mut i: usize = 0;
    while i < x.len()
        invariant
            i <= x@.len(),
            r@ == x@.subrange(0, i as int),
        decreases x@.len() - i,
    {
        r.push(x[i]);
        i = i + 1;
        assert(r@ =~= x@.subrange(0, i as int));
    }
    assert(r@ =~= x@);
    r
}

} // verus!
