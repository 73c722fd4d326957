use crate::canvas::{lemma_painted_in_order, Canvas};
use crate::digest::{collision_free, digest_of, digest_pixel, DIGEST_LEN};
use crate::pixel::{before, Pixel};
use crate::search::{
    chunk_start, digests_view, first_preimage, has_preimage, lemma_chunk_bounds, partition,
    search_chunk, RecoveredPixel,
};
use crate::stream::{
    lemma_parse_serialize, parse, parse_text, serialize, stream_text, DecodeError, EncodedStream,
};
use vstd::prelude::*;

verus! {

/// Relies on `num_cpus::get`: the number of CPUs available to this process,
/// which its documentation says is always at least 1.
#[verifier::external_body]
fn cpu_count() -> (r: usize)
    ensures
        r >= 1,
{
    num_cpus::get()
}

/// The digest of each pixel, in order.
pub open spec fn pixel_digests(px: Seq<Pixel>) -> Seq<Seq<u8>> {
    px.map_values(|p: Pixel| digest_of(p))
}

/// `c` is what decoding the text `t` yields: the stream's dimensions, and
/// at each position the first pixel value in search order with that digest.
pub open spec fn decodes_to(t: Seq<u8>, c: Canvas) -> bool {
    match parse_text(t) {
        Some((w, h, ds)) => {
            &&& c.width == w
            &&& c.height == h
            &&& c.pixels@.len() == ds.len()
            &&& forall|i: int| 0 <= i < ds.len() ==> first_preimage(ds[i], #[trigger] c.pixels@[i])
        },
        None => false,
    }
}

/// Decoding the text `t` fails with `e`: `MalformedStream` when the text does
/// not parse, `PreimageNotFound` when some digest has no preimage.
pub open spec fn fails_with(t: Seq<u8>, e: DecodeError) -> bool {
    match parse_text(t) {
        Some((w, h, ds)) => {
            &&& e == DecodeError::PreimageNotFound
            &&& exists|i: int| 0 <= i < ds.len() && !has_preimage(#[trigger] ds[i])
        },
        None => e == DecodeError::MalformedStream,
    }
}

/// Builds the stream of an image given as its dimensions and its pixels in
/// row-major order.
pub fn encode(width: u32, height: u32, pixels: &Vec<Pixel>) -> (s: EncodedStream)
    requires
        pixels@.len() == width * height,
    ensures
        s.width == width,
        s.height == height,
        s.view_digests() == pixel_digests(pixels@),
        s.wf(),
{
    let mut digests: Vec<Vec<u8>> = Vec::new();
    let mut i: usize = 0;
    while i < pixels.len()
        invariant
            i <= pixels@.len(),
            digests_view(digests@) == pixel_digests(pixels@.subrange(0, i as int)),
            forall|j: int| 0 <= j < i ==> (#[trigger] digests@[j])@.len() == DIGEST_LEN,
        decreases pixels@.len() - i,
    {
        let d = digest_pixel(pixels[i]);
        let ghost prev = digests@;
        digests.push(d);
        assert(digests@ == prev.push(d));
        assert(digests_view(digests@) =~= digests_view(prev).push(d@));
        assert(pixels@.subrange(0, i + 1) =~= pixels@.subrange(0, i as int).push(pixels@[i as int]));
        i = i + 1;
        assert(digests_view(digests@) =~= pixel_digests(pixels@.subrange(0, i as int)));
    }
    assert(pixels@.subrange(0, pixels@.len() as int) =~= pixels@);
    EncodedStream { width, height, digests }
}

/// Encodes an image to its wire text: `<width>:<height>` then `;` and the
/// upper-case hex digest of each pixel, in row-major order.
pub fn encrypt_image(width: u32, height: u32, pixels: &Vec<Pixel>) -> (t: Vec<u8>)
    requires
        pixels@.len() == width * height,
    ensures
        t@ == stream_text(width as nat, height as nat, pixel_digests(pixels@)),
{
    let s = encode(width, height, pixels);
    serialize(&s)
}

/// Decodes a stream text with its digests shared among `workers` chunks,
/// searched one after the other.
pub fn decrypt_stream(text: &Vec<u8>, workers: usize) -> (r: Result<Canvas, DecodeError>)
    requires
        workers >= 1,
    ensures
        match r {
            Ok(c) => decodes_to(text@, c) && c.wf(),
            Err(e) => fails_with(text@, e),
        },
{
    let s = match parse(text) {
        Ok(s) => s,
        Err(e) => {
            return Err(e);
        },
    };
    let ghost ds = s.view_digests();
    let n = s.digests.len();
    let chunks = partition(&s.digests, workers);
    proof {
        lemma_chunk_bounds(n as int, workers as int);
    }
    let mut all: Vec<RecoveredPixel> = Vec::new();
    let mut k: usize = 0;
    while k < chunks.len()
        invariant
            ds == s.view_digests(),
            parse_text(text@) == Some((s.width, s.height, ds)),
            n == ds.len(),
            chunks@.len() == workers,
            0 <= k <= workers,
            forall|q: int|
                0 <= q < workers ==> {
                    let c = #[trigger] chunks@[q];
                    &&& c.base_index == chunk_start(q, n as int, workers as int)
                    &&& c.view_digests() == ds.subrange(
                        chunk_start(q, n as int, workers as int),
                        chunk_start(q + 1, n as int, workers as int),
                    )
                },
            forall|q: int|
                0 <= q < workers ==> 0 <= #[trigger] chunk_start(q, n as int, workers as int) <= chunk_start(
                    q + 1,
                    n as int,
                    workers as int,
                ) <= n,
            chunk_start(0, n as int, workers as int) == 0,
            all@.len() == chunk_start(k as int, n as int, workers as int),
            forall|j: int|
                0 <= j < all@.len() ==> {
                    &&& (#[trigger] all@[j]).linear_index == j
                    &&& first_preimage(ds[j], all@[j].value)
                },
        decreases workers - k,
    {
        let chunk = &chunks[k];
        let ghost start = chunk_start(k as int, n as int, workers as int);
        let ghost end = chunk_start(k + 1, n as int, workers as int);
        assert(chunk.view_digests().len() == chunk.digests@.len());
        let out = match search_chunk(chunk) {
            Some(out) => out,
            None => {
                proof {
                    let i = choose|i: int|
                        0 <= i < chunk.digests@.len() && !has_preimage(#[trigger] chunk.digests@[i]@);
                    assert(chunk.view_digests()[i] == chunk.digests@[i]@);
                    assert(ds[start + i] == chunk.view_digests()[i]);
                    assert(0 <= start + i < ds.len() && !has_preimage(ds[start + i]));
                    assert(parse_text(text@)->Some_0.2 == ds);
                    assert(exists|j: int| 0 <= j < ds.len() && !has_preimage(#[trigger] ds[j]));
                    assert(fails_with(text@, DecodeError::PreimageNotFound));
                }
                return Err(DecodeError::PreimageNotFound);
            },
        };
        let mut i: usize = 0;
        while i < out.len()
            invariant
                ds == s.view_digests(),
                n == ds.len(),
                0 <= start <= end <= n,
                chunk.base_index == start,
                chunk.view_digests() == ds.subrange(start, end),
                out@.len() == chunk.digests@.len(),
                chunk.view_digests().len() == chunk.digests@.len(),
                forall|q: int|
                    0 <= q < out@.len() ==> {
                        &&& (#[trigger] out@[q]).linear_index == chunk.base_index + q
                        &&& first_preimage(chunk.digests@[q]@, out@[q].value)
                    },
                i <= out@.len(),
                all@.len() == start + i,
                forall|j: int|
                    0 <= j < all@.len() ==> {
                        &&& (#[trigger] all@[j]).linear_index == j
                        &&& first_preimage(ds[j], all@[j].value)
                    },
            decreases out@.len() - i,
        {
            let rp = out[i];
            proof {
                assert(chunk.view_digests()[i as int] == chunk.digests@[i as int]@);
                assert(ds[start + i] == chunk.view_digests()[i as int]);
            }
            all.push(rp);
            i = i + 1;
        }
        k = k + 1;
    }
    let mut canvas = Canvas::new(s.width, s.height);
    let ghost base = canvas.pixels@;
    canvas.assemble(&all);
    proof {
        lemma_painted_in_order(base, all@);
    }
    assert forall|i: int| 0 <= i < ds.len() implies first_preimage(ds[i], #[trigger] canvas.pixels@[i]) by {
        assert(all@[i].linear_index == i);
    }
    Ok(canvas)
}

/// Decodes a stream text: parses it, shares its digests among as many
/// chunks as there are CPUs, recovers each pixel by exhaustive search, and
/// assembles the canvas. The result does not depend on the number of CPUs.
pub fn decrypt_image(text: &Vec<u8>) -> (r: Result<Canvas, DecodeError>)
    ensures
        match r {
            Ok(c) => decodes_to(text@, c) && c.wf(),
            Err(e) => fails_with(text@, e),
        },
{
    let workers = cpu_count();
    decrypt_stream(text, workers)
}

/// With no two pixel values sharing a digest, the search for the digest of
/// a pixel value finds exactly that value.
pub proof fn lemma_search_finds_known(p: Pixel, q: Pixel)
    requires
        collision_free(),
    ensures
        has_preimage(digest_of(p)),
        first_preimage(digest_of(p), q) <==> q == p,
{
    assert(digest_of(p) == digest_of(p));
    if q == p {
        assert forall|o: Pixel| before(o, p) implies #[trigger] digest_of(o) != digest_of(p) by {
            if digest_of(o) == digest_of(p) {
                assert(o == p);
            }
        }
    }
}

/// With no two pixel values sharing a digest, decoding the encoding `s` of
/// an image never fails and gives back its dimensions and every pixel.
pub proof fn lemma_decode_encode(
    w: u32,
    h: u32,
    pixels: Seq<Pixel>,
    s: EncodedStream,
    c: Canvas,
    e: DecodeError,
)
    requires
        collision_free(),
        pixels.len() == w * h,
        s.wf(),
        s.width == w,
        s.height == h,
        s.view_digests() == pixel_digests(pixels),
    ensures
        decodes_to(stream_text(w as nat, h as nat, pixel_digests(pixels)), c) ==> (c.width == w
            && c.height == h && c.pixels@ == pixels),
        !fails_with(stream_text(w as nat, h as nat, pixel_digests(pixels)), e),
{
    let ds = pixel_digests(pixels);
    lemma_parse_serialize(w, h, ds);
    let t = stream_text(w as nat, h as nat, ds);
    assert forall|i: int| 0 <= i < ds.len() implies has_preimage(#[trigger] ds[i]) by {
        lemma_search_finds_known(pixels[i], pixels[i]);
    }
    if decodes_to(t, c) {
        assert forall|i: int| 0 <= i < pixels.len() implies #[trigger] c.pixels@[i] == pixels[i] by {
            lemma_search_finds_known(pixels[i], c.pixels@[i]);
        }
        assert(c.pixels@ =~= pixels);
    }
}

} // verus!
