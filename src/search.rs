use crate::digest::{bytes_equal, copy_bytes, digest_of, digest_pixel};
use crate::pixel::{before, precedes, Pixel};
use vstd::prelude::*;

verus! {

/// `p` is the first pixel value in search order whose digest is `t`.
pub open spec fn first_preimage(t: Seq<u8>, p: Pixel) -> bool {
    &&& digest_of(p) == t
    &&& forall|q: Pixel| before(q, p) ==> #[trigger] digest_of(q) != t
}

/// Some pixel value has digest `t`.
pub open spec fn has_preimage(t: Seq<u8>) -> bool {
    exists|p: Pixel| #[trigger] digest_of(p) == t
}

/// Enumerates every pixel value in search order and returns the first one
/// whose digest equals `target`, or `None` when no value has that digest.
pub fn search_digest(target: &Vec<u8>) -> (r: Option<Pixel>)
    ensures
        match r {
            Some(p) => first_preimage(target@, p),
            None => !has_preimage(target@),
        },
{
    let mut r: u16 = 0;
    while r < 256
        invariant
            r <= 256,
            forall|q: Pixel| precedes(q, r as int, 0, 0, 0) ==> #[trigger] digest_of(q) != target@,
        decreases 256 - r,
    {
        let mut g: u16 = 0;
        while g < 256
            invariant
                r < 256,
                g <= 256,
                forall|q: Pixel| precedes(q, r as int, g as int, 0, 0) ==> #[trigger] digest_of(q) != target@,
            decreases 256 - g,
        {
            let mut b: u16 = 0;
            while b < 256
                invariant
                    r < 256,
                    g < 256,
                    b <= 256,
                    forall|q: Pixel| precedes(q, r as int, g as int, b as int, 0) ==> #[trigger] digest_of(q) != target@,
                decreases 256 - b,
            {
                let mut a: u16 = 0;
                while a < 256
                    invariant
                        r < 256,
                        g < 256,
                        b < 256,
                        a <= 256,
                        forall|q: Pixel| precedes(q, r as int, g as int, b as int, a as int) ==> #[trigger] digest_of(q) != target@,
                    decreases 256 - a,
                {
                    let p = Pixel { r: r as u8, g: g as u8, b: b as u8, a: a as u8 };
                    let d = digest_pixel(p);
                    if bytes_equal(&d, target) {
                        return Some(p);
                    }
                    a = a + 1;
                }
                b = b + 1;
            }
            g = g + 1;
        }
        r = r + 1;
    }
    None
}

/// A contiguous run of digests handed to one search task.
pub struct SearchChunk {
    pub chunk_id: usize,
    pub base_index: usize,
    pub digests: Vec<Vec<u8>>,
}

/// A pixel value recovered by a search, with its position in the image.
#[derive(Clone, Copy, Debug, PartialEq, Eq, Structural)]
pub struct RecoveredPixel {
    pub linear_index: usize,
    pub value: Pixel,
}

/// The digests as byte sequences.
pub open spec fn digests_view(ds: Seq<Vec<u8>>) -> Seq<Seq<u8>> {
    ds.map_values(|d: Vec<u8>| d@)
}

impl SearchChunk {
    pub open spec fn view_digests(&self) -> Seq<Seq<u8>> {
        digests_view(self.digests@)
    }
}

/// Size of each chunk when `n` digests are shared among `workers` tasks:
/// `n / workers` rounded up.
pub open spec fn chunk_size(n: int, workers: int) -> int {
    if n % workers == 0 {
        n / workers
    } else {
        n / workers + 1
    }
}

/// Linear index of the first digest of chunk `k`.
pub open spec fn chunk_start(k: int, n: int, workers: int) -> int {
    let s = k * chunk_size(n, workers);
    if s < n {
        s
    } else {
        n
    }
}

/// Chunk boundaries run from `0` to `n` and never decrease, so consecutive
/// chunks cover `[0, n)` without gap or overlap.
pub proof fn lemma_chunk_bounds(n: int, workers: int)
    requires
        n >= 0,
        workers >= 1,
    ensures
        chunk_start(0, n, workers) == 0,
        chunk_start(workers, n, workers) == n,
        forall|k: int|
            0 <= k < workers ==> 0 <= #[trigger] chunk_start(k, n, workers) <= chunk_start(k + 1, n, workers) <= n,
{
    let size = chunk_size(n, workers);
    assert(size >= 0) by (nonlinear_arith)
        requires
            size == chunk_size(n, workers),
            n >= 0,
            workers >= 1,
    ;
    assert(workers * size >= n) by (nonlinear_arith)
        requires
            size == chunk_size(n, workers),
            n >= 0,
            workers >= 1,
    ;
    assert forall|k: int| 0 <= k < workers implies 0 <= #[trigger] chunk_start(k, n, workers) <= chunk_start(k + 1, n, workers) <= n by {
        assert(k * size <= (k + 1) * size) by (nonlinear_arith)
            requires
                size >= 0,
        ;
        assert(0 <= k * size) by (nonlinear_arith)
            requires
                size >= 0,
                k >= 0,
        ;
    }
}

proof fn lemma_partition_prefix(ds: Seq<Seq<u8>>, workers: int, parts: Seq<Seq<Seq<u8>>>, k: int)
    requires
        workers >= 1,
        0 <= k <= workers,
        parts.len() == workers,
        forall|j: int|
            0 <= j < workers ==> #[trigger] parts[j] == ds.subrange(
                chunk_start(j, ds.len() as int, workers),
                chunk_start(j + 1, ds.len() as int, workers),
            ),
    ensures
        parts.subrange(0, k).flatten_alt() == ds.subrange(0, chunk_start(k, ds.len() as int, workers)),
    decreases k,
{
    let n = ds.len() as int;
    lemma_chunk_bounds(n, workers);
    if k == 0 {
        assert(ds.subrange(0, 0) =~= Seq::<Seq<u8>>::empty());
    } else {
        lemma_partition_prefix(ds, workers, parts, k - 1);
        assert(parts.subrange(0, k).drop_last() =~= parts.subrange(0, k - 1));
        assert(0 <= chunk_start(k - 1, n, workers) <= chunk_start(k, n, workers) <= n);
        assert(ds.subrange(0, chunk_start(k, n, workers)) =~= ds.subrange(0, chunk_start(k - 1, n, workers))
            + parts[k - 1]);
    }
}

/// Concatenating the chunks' digests in chunk order gives back the digests
/// that were partitioned, exactly and in order.
pub proof fn lemma_partition_lossless(ds: Seq<Seq<u8>>, workers: int, parts: Seq<Seq<Seq<u8>>>)
    requires
        workers >= 1,
        parts.len() == workers,
        forall|k: int|
            0 <= k < workers ==> #[trigger] parts[k] == ds.subrange(
                chunk_start(k, ds.len() as int, workers),
                chunk_start(k + 1, ds.len() as int, workers),
            ),
    ensures
        parts.flatten() == ds,
{
    let n = ds.len() as int;
    lemma_chunk_bounds(n, workers);
    lemma_partition_prefix(ds, workers, parts, workers);
    assert(parts.subrange(0, workers) =~= parts);
    assert(ds.subrange(0, n) =~= ds);
    parts.lemma_flatten_and_flatten_alt_are_equivalent();
}

/// Splits `digests` into `workers` contiguous chunks of `n / workers`
/// (rounded up) digests each, the last ones shorter or empty.
pub fn partition(digests: &Vec<Vec<u8>>, workers: usize) -> (chunks: Vec<SearchChunk>)
    requires
        workers >= 1,
    ensures
        chunks@.len() == workers,
        forall|k: int|
            0 <= k < workers ==> {
                let c = #[trigger] chunks@[k];
                let n = digests@.len() as int;
                &&& c.chunk_id == k
                &&& c.base_index == chunk_start(k, n, workers as int)
                &&& c.view_digests() == digests_view(digests@).subrange(
                    chunk_start(k, n, workers as int),
                    chunk_start(k + 1, n, workers as int),
                )
            },
{
    let n = digests.len();
    let size: usize = if n % workers == 0 {
        n / workers
    } else {
        assert(n / workers < n) by (nonlinear_arith)
            requires
                workers >= 2,
                n % workers != 0,
        ;
        n / workers + 1
    };
    assert(size == chunk_size(n as int, workers as int));
    let mut chunks: Vec<SearchChunk> = Vec::new();
    let mut start: usize = 0;
    let mut k: usize = 0;
    assert(chunk_start(0, n as int, workers as int) == 0);
    while k < workers
        invariant
            n == digests@.len(),
            size == chunk_size(n as int, workers as int),
            k <= workers,
            start == chunk_start(k as int, n as int, workers as int),
            chunks@.len() == k,
            forall|j: int|
                0 <= j < k ==> {
                    let c = #[trigger] chunks@[j];
                    &&& c.chunk_id == j
                    &&& c.base_index == chunk_start(j, n as int, workers as int)
                    &&& c.view_digests() == digests_view(digests@).subrange(
                        chunk_start(j, n as int, workers as int),
                        chunk_start(j + 1, n as int, workers as int),
                    )
                },
        decreases workers - k,
    {
        let end: usize = if n - start < size {
            n
        } else {
            start + size
        };
        proof {
            let ki = k as int;
            assert((ki + 1) * size == ki * size + size) by (nonlinear_arith);
            assert(ki * size >= 0) by (nonlinear_arith)
                requires
                    ki >= 0,
                    size >= 0,
            ;
        }
        assert(end == chunk_start(k + 1, n as int, workers as int));
        let mut part: Vec<Vec<u8>> = Vec::new();
        let mut i: usize = start;
        while i < end
            invariant
                start <= i <= end <= n == digests@.len(),
                digests_view(part@) == digests_view(digests@).subrange(start as int, i as int),
            decreases end - i,
        {
            let d = copy_bytes(&digests[i]);
            let ghost old_part = part@;
            part.push(d);
            assert(part@ == old_part.push(d));
            assert(digests_view(part@) =~= digests_view(old_part).push(d@));
            i = i + 1;
            assert(digests_view(part@) =~= digests_view(digests@).subrange(start as int, i as int));
        }
        chunks.push(SearchChunk { chunk_id: k, base_index: start, digests: part });
        start = end;
        k = k + 1;
    }
    chunks
}

/// Searches every digest of a chunk. On success, the value found for the
/// digest at position `i` is its first preimage, at linear index
/// `base_index + i`; it fails when some digest of the chunk has no preimage.
/// A digest equal to the one before it reuses that one's result, which is
/// the same value a fresh search would return.
pub fn search_chunk(chunk: &SearchChunk) -> (r: Option<Vec<RecoveredPixel>>)
    requires
        chunk.base_index + chunk.digests@.len() <= usize::MAX,
    ensures
        match r {
            Some(out) => {
                &&& out@.len() == chunk.digests@.len()
                &&& forall|i: int|
                    0 <= i < out@.len() ==> {
                        &&& (#[trigger] out@[i]).linear_index == chunk.base_index + i
                        &&& first_preimage(chunk.digests@[i]@, out@[i].value)
                    }
            },
            None => exists|i: int|
                0 <= i < chunk.digests@.len() && !has_preimage(#[trigger] chunk.digests@[i]@),
        },
{
    let mut out: Vec<RecoveredPixel> = Vec::new();
    let mut i: usize = 0;
    while i < chunk.digests.len()
        invariant
            chunk.base_index + chunk.digests@.len() <= usize::MAX,
            i <= chunk.digests@.len(),
            out@.len() == i,
            forall|j: int|
                0 <= j < i ==> {
                    &&& (#[trigger] out@[j]).linear_index == chunk.base_index + j
                    &&& first_preimage(chunk.digests@[j]@, out@[j].value)
                },
        decreases chunk.digests@.len() - i,
    {
        let value: Pixel = if i > 0 && bytes_equal(&chunk.digests[i], &chunk.digests[i - 1]) {
            out[i - 1].value
        } else {
            match search_digest(&chunk.digests[i]) {
                Some(p) => p,
                None => {
                    return None;
                },
            }
        };
        out.push(RecoveredPixel { linear_index: chunk.base_index + i, value });
        i = i + 1;
    }
    Some(out)
}

} // verus!
