use vstd::prelude::*;

verus! {

/// One RGBA pixel value: four 8-bit channels.
#[derive(Clone, Copy, Debug, PartialEq, Eq, Structural)]
pub struct Pixel {
    pub r: u8,
    pub g: u8,
    pub b: u8,
    pub a: u8,
}

/// `q` comes strictly before the channel tuple `(r, g, b, a)` in the search
/// order: red outermost, then green, blue and alpha, each ascending.
pub open spec fn precedes(q: Pixel, r: int, g: int, b: int, a: int) -> bool {
    q.r < r || (q.r == r && (q.g < g || (q.g == g && (q.b < b || (q.b == b && q.a < a)))))
}

/// `q` comes strictly before `p` in the search order.
pub open spec fn before(q: Pixel, p: Pixel) -> bool {
    precedes(q, p.r as int, p.g as int, p.b as int, p.a as int)
}

/// The pixel read from four consecutive bytes of a packed RGBA buffer.
pub open spec fn pixel_at(raw: Seq<u8>, i: int) -> Pixel {
    Pixel { r: raw[4 * i], g: raw[4 * i + 1], b: raw[4 * i + 2], a: raw[4 * i + 3] }
}

/// Splits a packed RGBA buffer (row-major, four bytes per pixel) into pixels.
pub fn pixels_from_rgba(raw: &Vec<u8>) -> (px: Vec<Pixel>)
    requires
        raw@.len() % 4 == 0,
    ensures
        px@.len() == raw@.len() / 4,
        forall|i: int| 0 <= i < px@.len() ==> px@[i] == pixel_at(raw@, i),
{
    let n = raw.len() / 4;
    let mut px: Vec<Pixel> = Vec::new();
    let mut i: usize = 0;
    while i < n
        invariant
            n == raw@.len() / 4,
            i <= n,
            px@.len() == i,
            forall|j: int| 0 <= j < i ==> px@[j] == pixel_at(raw@, j),
        decreases n - i,
    {
        assert(4 * i + 3 < raw.len());
        let k = 4 * i;
        px.push(Pixel { r: raw[k], g: raw[k + 1], b: raw[k + 2], a: raw[k + 3] });
        i = i + 1;
    }
    px
}

/// Packs pixels back into an RGBA buffer, four bytes per pixel in order.
pub fn pixels_to_rgba(px: &Vec<Pixel>) -> (raw: Vec<u8>)
    requires
        px@.len() * 4 <= usize::MAX,
    ensures
        raw@.len() == 4 * px@.len(),
        forall|i: int| 0 <= i < px@.len() ==> pixel_at(raw@, i) == px@[i],
{
    let mut raw: Vec<u8> = Vec::new();
    let mut i: usize = 0;
    while i < px.len()
        invariant
            px@.len() * 4 <= usize::MAX,
            i <= px@.len(),
            raw@.len() == 4 * i,
            forall|j: int| 0 <= j < i ==> pixel_at(raw@, j) == px@[j],
        decreases px@.len() - i,
    {
        let p = px[i];
        raw.push(p.r);
        raw.push(p.g);
        raw.push(p.b);
        raw.push(p.a);
        assert(pixel_at(raw@, i as int) == p);
        i = i + 1;
    }
    raw
}

} // verus!
