use crate::digest::{hex_char, hex_digit, DIGEST_LEN};
use crate::search::digests_view;
use vstd::prelude::*;

verus! {

/// Why decoding a stream failed.
#[derive(Clone, Copy, Debug, PartialEq, Eq, Structural)]
pub enum DecodeError {
    /// The text is not a well-formed stream.
    MalformedStream,
    /// Some digest has no pixel value whose digest it is.
    PreimageNotFound,
}

/// An image as its dimensions and one digest per pixel, row-major.
pub struct EncodedStream {
    pub width: u32,
    pub height: u32,
    pub digests: Vec<Vec<u8>>,
}

/// One digest per pixel, each of the digest length.
pub open spec fn valid_stream(w: int, h: int, ds: Seq<Seq<u8>>) -> bool {
    &&& ds.len() == w * h
    &&& forall|i: int| 0 <= i < ds.len() ==> (#[trigger] ds[i]).len() == DIGEST_LEN
}

impl EncodedStream {
    pub open spec fn view_digests(&self) -> Seq<Seq<u8>> {
        digests_view(self.digests@)
    }

    pub open spec fn wf(&self) -> bool {
        valid_stream(self.width as int, self.height as int, self.view_digests())
    }
}

/// An ASCII decimal digit.
pub open spec fn is_digit(c: u8) -> bool {
    48 <= c <= 57
}

/// An ASCII upper-case hexadecimal digit.
pub open spec fn is_hex(c: u8) -> bool {
    (48 <= c <= 57) || (65 <= c <= 70)
}

/// The value of an upper-case hexadecimal digit.
pub open spec fn hex_val(c: u8) -> int {
    if c <= 57 {
        c - 48
    } else {
        c - 55
    }
}

/// Ten to the power `k`.
pub open spec fn pow10(k: nat) -> nat
    decreases k,
{
    if k == 0 {
        1
    } else {
        10 * pow10((k - 1) as nat)
    }
}

/// Decimal digits of `n`, most significant first, without leading zeros.
pub open spec fn dec(n: nat) -> Seq<u8>
    decreases n,
{
    if n < 10 {
        seq![(48 + n) as u8]
    } else {
        dec(n / 10).push((48 + n % 10) as u8)
    }
}

/// The number that a string of decimal digits denotes.
pub open spec fn dec_value(s: Seq<u8>) -> nat
    decreases s.len(),
{
    if s.len() == 0 {
        0
    } else {
        dec_value(s.drop_last()) * 10 + (s.last() - 48) as nat
    }
}

/// A dimension field: one to ten digits, no leading zero but in `0` itself.
pub open spec fn canonical(s: Seq<u8>) -> bool {
    &&& 1 <= s.len() <= 10
    &&& forall|i: int| 0 <= i < s.len() ==> is_digit(#[trigger] s[i])
    &&& (s.len() == 1 || s[0] != 48)
}

/// Upper-case hex text of a byte string, two digits per byte.
pub open spec fn hex_text(d: Seq<u8>) -> Seq<u8> {
    Seq::new(
        2 * d.len(),
        |j: int|
            if j % 2 == 0 {
                hex_digit(d[j / 2] as int / 16)
            } else {
                hex_digit(d[j / 2] as int % 16)
            },
    )
}

/// The bytes that a hex text of even length denotes.
pub open spec fn unhex(s: Seq<u8>) -> Seq<u8> {
    Seq::new(s.len() / 2, |i: int| (hex_val(s[2 * i]) * 16 + hex_val(s[2 * i + 1])) as u8)
}

/// The digest fields: each digest as `;` and its hex text.
pub open spec fn fields(ds: Seq<Seq<u8>>) -> Seq<u8>
    decreases ds.len(),
{
    if ds.len() == 0 {
        Seq::empty()
    } else {
        seq![59u8] + hex_text(ds[0]) + fields(ds.drop_first())
    }
}

/// The wire text of a stream: `<width>:<height>` then `;<digest>` per pixel.
pub open spec fn stream_text(w: nat, h: nat, ds: Seq<Seq<u8>>) -> Seq<u8> {
    dec(w) + seq![58u8] + dec(h) + fields(ds)
}

/// The end of the run of digits that starts at `i`.
pub open spec fn digit_run(t: Seq<u8>, i: int) -> int
    decreases t.len() - i,
{
    if 0 <= i < t.len() && is_digit(t[i]) {
        digit_run(t, i + 1)
    } else {
        i
    }
}

/// Reads digest fields, each `;` and the hex text of one digest.
pub open spec fn parse_fields(s: Seq<u8>) -> Option<Seq<Seq<u8>>>
    decreases s.len(),
{
    if s.len() == 0 {
        Some(Seq::empty())
    } else if s.len() < 129 || s[0] != 59 || !(forall|j: int| 1 <= j < 129 ==> is_hex(#[trigger] s[j])) {
        None
    } else {
        match parse_fields(s.subrange(129, s.len() as int)) {
            Some(rest) => Some(seq![unhex(s.subrange(1, 129))] + rest),
            None => None,
        }
    }
}

/// Reads a stream text: width, height and digests, or `None` when the text
/// is malformed or holds a number of digests other than width times height.
pub open spec fn parse_text(t: Seq<u8>) -> Option<(u32, u32, Seq<Seq<u8>>)> {
    let a = digit_run(t, 0);
    let b = digit_run(t, a + 1);
    if a >= t.len() || t[a] != 58 || (b < t.len() && t[b] != 59) {
        None
    } else if !canonical(t.subrange(0, a)) || !canonical(t.subrange(a + 1, b)) {
        None
    } else {
        let w = dec_value(t.subrange(0, a));
        let h = dec_value(t.subrange(a + 1, b));
        if w > u32::MAX || h > u32::MAX {
            None
        } else {
            match parse_fields(t.subrange(b, t.len() as int)) {
                Some(ds) => if ds.len() == w * h {
                    Some((w as u32, h as u32, ds))
                } else {
                    None
                },
                None => None,
            }
        }
    }
}

fn push_dec(n: u32, out: &mut Vec<u8>)
    ensures
        final(out)@ == old(out)@ + dec(n as nat),
    decreases n,
{
    if n >= 10 {
        push_dec(n / 10, out);
    }
    out.push(48 + (n % 10) as u8);
    assert(final(out)@ =~= old(out)@ + dec(n as nat));
}

proof fn lemma_fields_push(ds: Seq<Seq<u8>>, d: Seq<u8>)
    ensures
        fields(ds.push(d)) == fields(ds) + seq![59u8] + hex_text(d),
    decreases ds.len(),
{
    if ds.len() == 0 {
        assert(ds.push(d).drop_first() =~= Seq::<Seq<u8>>::empty());
        assert(ds.push(d)[0] == d);
        assert(fields(ds.push(d).drop_first()) == Seq::<u8>::empty());
        assert(fields(ds) == Seq::<u8>::empty());
        assert(fields(ds.push(d)) =~= fields(ds) + seq![59u8] + hex_text(d));
    } else {
        lemma_fields_push(ds.drop_first(), d);
        assert(ds.push(d).drop_first() =~= ds.drop_first().push(d));
        assert(ds.push(d)[0] == ds[0]);
        assert(fields(ds.push(d)) == seq![59u8] + hex_text(ds[0]) + fields(ds.drop_first().push(d)));
        assert(fields(ds) == seq![59u8] + hex_text(ds[0]) + fields(ds.drop_first()));
        assert(fields(ds.push(d)) =~= fields(ds) + seq![59u8] + hex_text(d));
    }
}

/// Writes a stream in its wire text.
pub fn serialize(s: &EncodedStream) -> (t: Vec<u8>)
    ensures
        t@ == stream_text(s.width as nat, s.height as nat, s.view_digests()),
{
    let mut t: Vec<u8> = Vec::new();
    push_dec(s.width, &mut t);
    t.push(58u8);
    push_dec(s.height, &mut t);
    let ghost head = t@;
    assert(head =~= dec(s.width as nat) + seq![58u8] + dec(s.height as nat));
    let mut i: usize = 0;
    while i < s.digests.len()
        invariant
            i <= s.digests@.len(),
            t@ == head + fields(s.view_digests().subrange(0, i as int)),
        decreases s.digests@.len() - i,
    {
        let d = &s.digests[i];
        let ghost before_field = t@;
        t.push(59u8);
        let mut j: usize = 0;
        while j < d.len()
            invariant
                j <= d@.len(),
                t@ == before_field + seq![59u8] + hex_text(d@.subrange(0, j as int)),
            decreases d@.len() - j,
        {
            let ghost prev = t@;
            t.push(hex_char(d[j] / 16));
            t.push(hex_char(d[j] % 16));
            assert(hex_text(d@.subrange(0, j + 1)) =~= hex_text(d@.subrange(0, j as int)) + seq![
                hex_digit(d@[j as int] as int / 16),
                hex_digit(d@[j as int] as int % 16),
            ]);
            assert(t@ =~= before_field + seq![59u8] + hex_text(d@.subrange(0, j + 1)));
            j = j + 1;
        }
        assert(d@.subrange(0, d@.len() as int) =~= d@);
        proof {
            lemma_fields_push(s.view_digests().subrange(0, i as int), d@);
            assert(s.view_digests().subrange(0, i + 1) =~= s.view_digests().subrange(0, i as int).push(d@));
        }
        i = i + 1;
        assert(t@ =~= head + fields(s.view_digests().subrange(0, i as int)));
    }
    assert(s.view_digests().subrange(0, s.digests@.len() as int) =~= s.view_digests());
    t
}

fn scan_digits(t: &Vec<u8>, i: usize) -> (j: usize)
    requires
        i <= t@.len(),
    ensures
        i <= j <= t@.len(),
        j == digit_run(t@, i as int),
        forall|k: int| i <= k < j ==> is_digit(#[trigger] t@[k]),
        j < t@.len() ==> !is_digit(t@[j as int]),
{
    let mut j: usize = i;
    while j < t.len() && 48 <= t[j] && t[j] <= 57
        invariant
            i <= j <= t@.len(),
            digit_run(t@, i as int) == digit_run(t@, j as int),
            forall|k: int| i <= k < j ==> is_digit(#[trigger] t@[k]),
        decreases t@.len() - j,
    {
        j = j + 1;
    }
    j
}

proof fn lemma_pow10_mono(k: nat, m: nat)
    requires
        k <= m,
    ensures
        1 <= pow10(k) <= pow10(m),
    decreases m,
{
    if k < m {
        lemma_pow10_mono(k, (m - 1) as nat);
    } else if m > 0 {
        lemma_pow10_mono((m - 1) as nat, (m - 1) as nat);
    }
}

/// The value of the digits `t[from..to]`, which number at most ten.
fn read_dec(t: &Vec<u8>, from: usize, to: usize) -> (v: u64)
    requires
        from <= to <= t@.len(),
        to - from <= 10,
        forall|k: int| from <= k < to ==> is_digit(#[trigger] t@[k]),
    ensures
        v == dec_value(t@.subrange(from as int, to as int)),
{
    let mut v: u64 = 0;
    let mut k: usize = from;
    assert(t@.subrange(from as int, from as int) =~= Seq::<u8>::empty());
    while k < to
        invariant
            from <= k <= to <= t@.len(),
            to - from <= 10,
            forall|q: int| from <= q < to ==> is_digit(#[trigger] t@[q]),
            v == dec_value(t@.subrange(from as int, k as int)),
            v < pow10((k - from) as nat),
        decreases to - k,
    {
        proof {
            lemma_pow10_mono((k - from) as nat, 9);
            reveal_with_fuel(pow10, 10);
            assert(t@.subrange(from as int, k + 1).drop_last() =~= t@.subrange(from as int, k as int));
        }
        assert(is_digit(t@[k as int]));
        v = v * 10 + (t[k] - 48) as u64;
        k = k + 1;
    }
    v
}

fn hex_value(c: u8) -> (v: u8)
    requires
        is_hex(c),
    ensures
        v == hex_val(c),
        v < 16,
{
    if c <= 57 {
        c - 48
    } else {
        c - 55
    }
}

/// Decodes the 128 hex characters at `t[from..from + 128]`, or `None` when
/// one of them is not an upper-case hex digit.
fn read_hex_digest(t: &Vec<u8>, from: usize) -> (r: Option<Vec<u8>>)
    requires
        from + 128 <= t@.len(),
    ensures
        match r {
            Some(d) => {
                &&& forall|k: int| from <= k < from + 128 ==> is_hex(#[trigger] t@[k])
                &&& d@ == unhex(t@.subrange(from as int, from + 128))
            },
            None => !(forall|k: int| from <= k < from + 128 ==> is_hex(#[trigger] t@[k])),
        },
{
    let mut d: Vec<u8> = Vec::new();
    let mut q: usize = 0;
    while q < 64
        invariant
            from + 128 <= t@.len(),
            q <= 64,
            d@.len() == q,
            forall|k: int| from <= k < from + 2 * q ==> is_hex(#[trigger] t@[k]),
            forall|i: int|
                0 <= i < q ==> #[trigger] d@[i] == (hex_val(t@[from + 2 * i]) * 16 + hex_val(
                    t@[from + 2 * i + 1],
                )) as u8,
        decreases 64 - q,
    {
        assert(from + 2 * q + 1 < t.len());
        let c0 = t[from + 2 * q];
        let c1 = t[from + 2 * q + 1];
        if !((48 <= c0 && c0 <= 57) || (65 <= c0 && c0 <= 70)) {
            return None;
        }
        if !((48 <= c1 && c1 <= 57) || (65 <= c1 && c1 <= 70)) {
            return None;
        }
        let hi = hex_value(c0);
        let lo = hex_value(c1);
        d.push(hi * 16 + lo);
        q = q + 1;
    }
    let ghost s = t@.subrange(from as int, from + 128);
    assert(d@ =~= unhex(s));
    Some(d)
}

/// Reads a stream from its wire text. It fails with `MalformedStream`
/// exactly when the text is not the text of a stream with as many digests
/// as width times height.
pub fn parse(t: &Vec<u8>) -> (r: Result<EncodedStream, DecodeError>)
    ensures
        match r {
            Ok(s) => {
                &&& parse_text(t@) == Some((s.width, s.height, s.view_digests()))
                &&& s.wf()
            },
            Err(e) => e == DecodeError::MalformedStream && parse_text(t@) is None,
        },
{
    let n = t.len();
    let a = scan_digits(t, 0);
    if a >= n || t[a] != 58 {
        return Err(DecodeError::MalformedStream);
    }
    let b = scan_digits(t, a + 1);
    if b < n && t[b] != 59 {
        return Err(DecodeError::MalformedStream);
    }
    if a < 1 || a > 10 || (a > 1 && t[0] == 48) {
        proof {
            if a > 1 && t@[0] == 48 {
                assert(t@.subrange(0, a as int)[0] == 48);
            }
        }
        return Err(DecodeError::MalformedStream);
    }
    if b - (a + 1) < 1 || b - (a + 1) > 10 || (b - (a + 1) > 1 && t[a + 1] == 48) {
        proof {
            if b - (a + 1) > 1 && t@[a + 1] == 48 {
                assert(t@.subrange(a + 1, b as int)[0] == 48);
            }
        }
        return Err(DecodeError::MalformedStream);
    }
    assert(canonical(t@.subrange(0, a as int)));
    assert(canonical(t@.subrange(a + 1, b as int)));
    let w = read_dec(t, 0, a);
    let h = read_dec(t, a + 1, b);
    if w > 0xffff_ffff || h > 0xffff_ffff {
        return Err(DecodeError::MalformedStream);
    }
    assert(parse_text(t@) == (match parse_fields(t@.subrange(b as int, n as int)) {
        Some(all) => if all.len() == w * h {
            Some((w as u32, h as u32, all))
        } else {
            None
        },
        None => None,
    }));
    let mut ds: Vec<Vec<u8>> = Vec::new();
    let mut pos: usize = b;
    assert(digests_view(ds@) + parse_fields(t@.subrange(b as int, n as int))->0 =~= parse_fields(
        t@.subrange(b as int, n as int),
    )->0);
    while pos < n
        invariant
            b <= pos <= n == t@.len(),
            w <= 0xffff_ffff,
            h <= 0xffff_ffff,
            parse_text(t@) == (match parse_fields(t@.subrange(b as int, n as int)) {
                Some(all) => if all.len() == w * h {
                    Some((w as u32, h as u32, all))
                } else {
                    None
                },
                None => None,
            }),
            parse_fields(t@.subrange(b as int, n as int)) == (match parse_fields(
                t@.subrange(pos as int, n as int),
            ) {
                Some(rest) => Some(digests_view(ds@) + rest),
                None => None,
            }),
            forall|i: int| 0 <= i < ds@.len() ==> (#[trigger] ds@[i])@.len() == DIGEST_LEN,
        decreases n - pos,
    {
        let ghost s = t@.subrange(pos as int, n as int);
        assert(s.len() == n - pos);
        if n - pos < 129 || t[pos] != 59 {
            assert(s.len() < 129 || s[0] != 59);
            assert(parse_fields(s) is None);
            return Err(DecodeError::MalformedStream);
        }
        let d = match read_hex_digest(t, pos + 1) {
            Some(d) => d,
            None => {
                proof {
                    assert(!(forall|j: int| 1 <= j < 129 ==> is_hex(#[trigger] s[j]))) by {
                        let k = choose|k: int| pos + 1 <= k < pos + 129 && !is_hex(#[trigger] t@[k]);
                        assert(s[k - pos] == t@[k]);
                    }
                    assert(parse_fields(s) is None);
                }
                return Err(DecodeError::MalformedStream);
            },
        };
        proof {
            assert forall|j: int| 1 <= j < 129 implies is_hex(#[trigger] s[j]) by {
                assert(s[j] == t@[pos + j]);
            }
            assert(s.subrange(129, s.len() as int) =~= t@.subrange(pos + 129, n as int));
            assert(s.subrange(1, 129) =~= t@.subrange(pos + 1, pos + 129));
            let ghost old_ds = ds@;
            match parse_fields(t@.subrange(pos + 129, n as int)) {
                Some(rest) => {
                    assert(digests_view(old_ds.push(d)) =~= digests_view(old_ds).push(d@));
                    assert(digests_view(old_ds) + (seq![d@] + rest) =~= digests_view(old_ds).push(d@) + rest);
                },
                None => {},
            }
        }
        ds.push(d);
        pos = pos + 129;
    }
    assert(t@.subrange(n as int, n as int) =~= Seq::<u8>::empty());
    assert(digests_view(ds@) + Seq::<Seq<u8>>::empty() =~= digests_view(ds@));
    assert(w * h <= 0xffff_ffff * 0xffff_ffff) by (nonlinear_arith)
        requires
            w <= 0xffff_ffff,
            h <= 0xffff_ffff,
    ;
    if ds.len() as u64 != w * h {
        return Err(DecodeError::MalformedStream);
    }
    let s = EncodedStream { width: w as u32, height: h as u32, digests: ds };
    Ok(s)
}

proof fn lemma_dec(n: nat, k: nat)
    requires
        k >= 1,
        n < pow10(k),
    ensures
        1 <= dec(n).len() <= k,
        forall|i: int| 0 <= i < dec(n).len() ==> is_digit(#[trigger] dec(n)[i]),
        n >= 1 ==> dec(n)[0] != 48,
        dec_value(dec(n)) == n,
    decreases n,
{
    if n < 10 {
        assert(dec(n).drop_last() =~= Seq::<u8>::empty());
        assert(dec_value(Seq::<u8>::empty()) == 0);
    } else {
        assert(k >= 2) by {
            if k == 1 {
                reveal_with_fuel(pow10, 2);
            }
        }
        assert(n / 10 < pow10((k - 1) as nat));
        lemma_dec(n / 10, (k - 1) as nat);
        assert(dec(n).drop_last() =~= dec(n / 10));
        assert(dec(n)[0] == dec(n / 10)[0]);
        assert(dec(n).last() == 48 + n % 10);
        assert(n / 10 * 10 + n % 10 == n);
    }
}

proof fn lemma_digit_run(t: Seq<u8>, i: int, j: int)
    requires
        0 <= i <= j <= t.len(),
        forall|k: int| i <= k < j ==> is_digit(#[trigger] t[k]),
        j == t.len() || !is_digit(t[j]),
    ensures
        digit_run(t, i) == j,
    decreases j - i,
{
    if i < j {
        lemma_digit_run(t, i + 1, j);
    }
}

proof fn lemma_hex_round_trip(d: Seq<u8>)
    ensures
        forall|k: int| 0 <= k < hex_text(d).len() ==> is_hex(#[trigger] hex_text(d)[k]),
        unhex(hex_text(d)) == d,
{
    let h = hex_text(d);
    assert forall|k: int| 0 <= k < h.len() implies is_hex(#[trigger] h[k]) by {
        let x = d[k / 2] as int;
        assert(0 <= x / 16 < 16 && 0 <= x % 16 < 16);
    }
    assert forall|i: int| 0 <= i < d.len() implies #[trigger] unhex(h)[i] == d[i] by {
        let x = d[i] as int;
        assert((2 * i) / 2 == i && (2 * i) % 2 == 0);
        assert((2 * i + 1) / 2 == i && (2 * i + 1) % 2 == 1);
        assert(hex_val(h[2 * i]) == x / 16);
        assert(hex_val(h[2 * i + 1]) == x % 16);
    }
    assert(unhex(h) =~= d);
}

proof fn lemma_parse_fields(ds: Seq<Seq<u8>>)
    requires
        forall|i: int| 0 <= i < ds.len() ==> (#[trigger] ds[i]).len() == DIGEST_LEN,
    ensures
        parse_fields(fields(ds)) == Some(ds),
        ds.len() > 0 ==> fields(ds)[0] == 59,
    decreases ds.len(),
{
    if ds.len() > 0 {
        let s = fields(ds);
        let d = ds[0];
        lemma_parse_fields(ds.drop_first());
        lemma_hex_round_trip(d);
        assert(s.subrange(1, 129) =~= hex_text(d));
        assert(s.subrange(129, s.len() as int) =~= fields(ds.drop_first()));
        assert(forall|j: int| 1 <= j < 129 ==> is_hex(#[trigger] s[j])) by {
            assert forall|j: int| 1 <= j < 129 implies is_hex(#[trigger] s[j]) by {
                assert(s[j] == hex_text(d)[j - 1]);
            }
        }
        assert(seq![d] + ds.drop_first() =~= ds);
    } else {
        assert(fields(ds) =~= Seq::<u8>::empty());
    }
}

/// Reading the wire text of a valid stream gives back that stream.
pub proof fn lemma_parse_serialize(w: u32, h: u32, ds: Seq<Seq<u8>>)
    requires
        valid_stream(w as int, h as int, ds),
    ensures
        parse_text(stream_text(w as nat, h as nat, ds)) == Some((w, h, ds)),
{
    let t = stream_text(w as nat, h as nat, ds);
    reveal_with_fuel(pow10, 11);
    lemma_dec(w as nat, 10);
    lemma_dec(h as nat, 10);
    lemma_parse_fields(ds);
    let dw = dec(w as nat);
    let dh = dec(h as nat);
    let a = dw.len() as int;
    let b = a + 1 + dh.len();
    assert(t.subrange(0, a) =~= dw);
    assert(t.subrange(a + 1, b) =~= dh);
    assert(t.subrange(b, t.len() as int) =~= fields(ds));
    assert(t[a] == 58);
    lemma_digit_run(t, 0, a);
    assert(b < t.len() ==> t[b] == fields(ds)[0]);
    lemma_digit_run(t, a + 1, b);
}

} // verus!
