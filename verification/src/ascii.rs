//! Byte-level text helpers shared by the decoder and the encoder:
//! ASCII whitespace trimming, lowercasing, searching, and decimal numerals.

use vstd::prelude::*;

verus! {

/// ASCII whitespace: space and the control characters HT, LF, VT, FF, CR.
pub open spec fn is_ws(b: u8) -> bool {
    b == 32 || (9 <= b && b <= 13)
}

/// Lowercase a single ASCII byte; bytes outside `A`..`Z` are unchanged.
pub open spec fn lower_byte(b: u8) -> u8 {
    if 65 <= b && b <= 90 {
        (b + 32) as u8
    } else {
        b
    }
}

/// Pointwise ASCII lowercasing of a byte sequence.
pub open spec fn lower(s: Seq<u8>) -> Seq<u8> {
    Seq::new(s.len(), |i: int| lower_byte(s[i]))
}

/// Lowercasing twice is the same as lowercasing once.
pub proof fn lemma_lower_idempotent(s: Seq<u8>)
    ensures
        lower(lower(s)) == lower(s),
{
    assert(lower(lower(s)) =~= lower(s));
}

/// Index of the first occurrence of `b` in `s` at or after `pos`.
pub open spec fn find_from(s: Seq<u8>, b: u8, pos: int) -> Option<int>
    decreases s.len() - pos,
{
    if pos < 0 || pos >= s.len() {
        None
    } else if s[pos] == b {
        Some(pos)
    } else {
        find_from(s, b, pos + 1)
    }
}

/// A found index is within range; ambient so that recursions that consume
/// up to a found index can be seen to terminate.
pub broadcast proof fn lemma_find_from_bounds(s: Seq<u8>, b: u8, pos: int)
    ensures
        #[trigger] find_from(s, b, pos) matches Some(i) ==> pos <= i < s.len(),
    decreases s.len() - pos,
{
    if !(pos < 0 || pos >= s.len()) && s[pos] != b {
        lemma_find_from_bounds(s, b, pos + 1);
    }
}

/// `find_from` returns the first occurrence at or after `pos`, if any.
pub proof fn lemma_find_from_props(s: Seq<u8>, b: u8, pos: int)
    requires
        0 <= pos <= s.len(),
    ensures
        match find_from(s, b, pos) {
            Some(i) => pos <= i < s.len() && s[i] == b && forall|k: int|
                pos <= k < i ==> s[k] != b,
            None => forall|k: int| pos <= k < s.len() ==> s[k] != b,
        },
    decreases s.len() - pos,
{
    if pos < s.len() && s[pos] != b {
        lemma_find_from_props(s, b, pos + 1);
    }
}

/// `find_from` finds a known first occurrence.
pub proof fn lemma_find_from_at(s: Seq<u8>, b: u8, pos: int, i: int)
    requires
        0 <= pos <= i < s.len(),
        s[i] == b,
        forall|k: int| pos <= k < i ==> s[k] != b,
    ensures
        find_from(s, b, pos) == Some(i),
    decreases i - pos,
{
    if pos < i {
        lemma_find_from_at(s, b, pos + 1, i);
    }
}

/// A sequence with no whitespace at either edge is unchanged by trimming,
/// also under one leading space.
pub proof fn lemma_trim_fixed(s: Seq<u8>)
    requires
        s.len() > 0 ==> !is_ws(s[0]) && !is_ws(s[s.len() - 1]),
    ensures
        trim(s) == s,
        trim(seq![32u8] + s) == s,
{
    let p = seq![32u8] + s;
    assert(p.skip(1) =~= s);
    assert(trim_start(p) == trim_start(s));
    assert(trim_start(s) == s);
    assert(trim_end(s) == s);
}

/// Linear scan for the first occurrence of `b` at or after `from`.
pub fn find_byte(s: &[u8], b: u8, from: usize) -> (r: Option<usize>)
    requires
        from <= s@.len(),
    ensures
        match r {
            Some(i) => from <= i < s@.len() && i < usize::MAX && find_from(s@, b, from as int)
                == Some(i as int),
            None => find_from(s@, b, from as int) is None,
        },
{
    let mut i: usize = from;
    while i < s.len()
        invariant
            from <= i <= s@.len(),
            find_from(s@, b, from as int) == find_from(s@, b, i as int),
        decreases s@.len() - i,
    {
        if s[i] == b {
            return Some(i);
        }
        i = i + 1;
    }
    None
}

/// `s` with leading ASCII whitespace removed.
pub open spec fn trim_start(s: Seq<u8>) -> Seq<u8>
    decreases s.len(),
{
    if s.len() > 0 && is_ws(s[0]) {
        trim_start(s.skip(1))
    } else {
        s
    }
}

/// `s` with trailing ASCII whitespace removed.
pub open spec fn trim_end(s: Seq<u8>) -> Seq<u8>
    decreases s.len(),
{
    if s.len() > 0 && is_ws(s[s.len() - 1]) {
        trim_end(s.take(s.len() - 1))
    } else {
        s
    }
}

/// `s` with ASCII whitespace removed from both ends.
pub open spec fn trim(s: Seq<u8>) -> Seq<u8> {
    trim_end(trim_start(s))
}

proof fn lemma_trim_start_skip(s: Seq<u8>, i: int)
    requires
        0 <= i <= s.len(),
        forall|k: int| 0 <= k < i ==> is_ws(s[k]),
    ensures
        trim_start(s) == trim_start(s.skip(i)),
    decreases i,
{
    if i == 0 {
        assert(s.skip(0) =~= s);
    } else {
        lemma_trim_start_skip(s.skip(1), i - 1);
        assert(s.skip(1).skip(i - 1) =~= s.skip(i));
    }
}

proof fn lemma_trim_end_take(s: Seq<u8>, j: int)
    requires
        0 <= j <= s.len(),
        forall|k: int| j <= k < s.len() ==> is_ws(s[k]),
    ensures
        trim_end(s) == trim_end(s.take(j)),
    decreases s.len() - j,
{
    if j == s.len() {
        assert(s.take(s.len() as int) =~= s);
    } else {
        lemma_trim_end_take(s.take(s.len() - 1), j);
        assert(s.take(s.len() - 1).take(j) =~= s.take(j));
    }
}

/// Copy of `s` with ASCII whitespace removed from both ends.
pub fn trim_slice(s: &[u8]) -> (r: Vec<u8>)
    ensures
        r@ == trim(s@),
{
    let mut lo: usize = 0;
    while lo < s.len() && (s[lo] == 32 || (9 <= s[lo] && s[lo] <= 13))
        invariant
            lo <= s@.len(),
            forall|k: int| 0 <= k < lo ==> is_ws(s@[k]),
        decreases s@.len() - lo,
    {
        lo = lo + 1;
    }
    let mut hi: usize = s.len();
    while hi > lo && (s[hi - 1] == 32 || (9 <= s[hi - 1] && s[hi - 1] <= 13))
        invariant
            lo <= hi <= s@.len(),
            forall|k: int| hi <= k < s@.len() ==> is_ws(s@[k]),
        decreases hi,
    {
        hi = hi - 1;
    }
    let r = copy_range(s, lo, hi);
    proof {
        lemma_trim_start_skip(s@, lo as int);
        let t = s@.skip(lo as int);
        assert(trim_start(t) == t);
        lemma_trim_end_take(t, hi - lo);
        assert(t.take(hi - lo) =~= s@.subrange(lo as int, hi as int));
        let u = s@.subrange(lo as int, hi as int);
        assert(trim_end(u) == u);
    }
    r
}

/// Copy of the byte range `from..to` of `s`.
pub fn copy_range(s: &[u8], from: usize, to: usize) -> (r: Vec<u8>)
    requires
        from <= to <= s@.len(),
    ensures
        r@ == s@.subrange(from as int, to as int),
{
    let mut r: Vec<u8> = Vec::new();
    let mut i: usize = from;
    while i < to
        invariant
            from <= i <= to <= s@.len(),
            r@ == s@.subrange(from as int, i as int),
        decreases to - i,
    {
        r.push(s[i]);
        proof {
            assert(s@.subrange(from as int, i + 1) =~= s@.subrange(from as int, i as int).push(
                s@[i as int],
            ));
        }
        i = i + 1;
    }
    r
}

/// Byte-for-byte equality of two slices.
pub fn bytes_eq(a: &[u8], b: &[u8]) -> (r: bool)
    ensures
        r <==> a@ == b@,
{
    if a.len() != b.len() {
        return false;
    }
    let mut i: usize = 0;
    while i < a.len()
        invariant
            i <= a@.len() == b@.len(),
            forall|k: int| 0 <= k < i ==> a@[k] == b@[k],
        decreases a@.len() - i,
    {
        if a[i] != b[i] {
            return false;
        }
        i = i + 1;
    }
    proof {
        assert(a@ =~= b@);
    }
    true
}

/// Copy of `s` with every byte ASCII-lowercased.
pub fn lower_slice(s: &[u8]) -> (r: Vec<u8>)
    ensures
        r@ == lower(s@),
{
    let mut r: Vec<u8> = Vec::new();
    let mut i: usize = 0;
    while i < s.len()
        invariant
            i <= s@.len(),
            r@ == lower(s@).take(i as int),
        decreases s@.len() - i,
    {
        let b = s[i];
        if 65 <= b && b <= 90 {
            r.push(b + 32);
        } else {
            r.push(b);
        }
        proof {
            assert(lower(s@).take(i + 1) =~= lower(s@).take(i as int).push(lower_byte(s@[i as int])));
        }
        i = i + 1;
    }
    proof {
        assert(lower(s@).take(s@.len() as int) =~= lower(s@));
    }
    r
}

/// Free of CR and LF bytes.
pub open spec fn crlf_free(s: Seq<u8>) -> bool {
    forall|k: int| 0 <= k < s.len() ==> (#[trigger] s[k]) != 13 && s[k] != 10
}

/// A non-empty sequence with no whitespace at either edge is unchanged by
/// trimming after a trailing CR is attached.
pub proof fn lemma_trim_cr(s: Seq<u8>)
    requires
        s.len() > 0,
        !is_ws(s[0]),
        !is_ws(s[s.len() - 1]),
    ensures
        trim(s + seq![13u8]) == s,
{
    let p = s + seq![13u8];
    assert(trim_start(p) == p);
    assert(p.take(p.len() - 1) =~= s);
    assert(trim_end(p) == trim_end(s));
    assert(trim_end(s) == s);
}

/// `s` consists only of decimal digit bytes.
pub open spec fn all_digits(s: Seq<u8>) -> bool {
    forall|i: int| 0 <= i < s.len() ==> 48 <= #[trigger] s[i] <= 57
}

/// The number denoted by a sequence of decimal digit bytes.
pub open spec fn dec_value(s: Seq<u8>) -> nat
    decreases s.len(),
{
    if s.len() == 0 {
        0
    } else {
        (dec_value(s.take(s.len() - 1)) * 10 + (s[s.len() - 1] - 48)) as nat
    }
}

/// A digit string denotes at least as much as any of its prefixes.
proof fn lemma_dec_value_prefix_le(s: Seq<u8>, j: int)
    requires
        all_digits(s),
        0 <= j <= s.len(),
    ensures
        dec_value(s.take(j)) <= dec_value(s),
    decreases s.len() - j,
{
    if j == s.len() {
        assert(s.take(j) =~= s);
    } else {
        assert(s.take(j + 1).take(j) =~= s.take(j));
        assert(dec_value(s.take(j + 1)) == dec_value(s.take(j)) * 10 + (s[j] - 48));
        lemma_dec_value_prefix_le(s, j + 1);
    }
}

/// Parse a non-empty all-digit slice as a decimal number; `None` when the
/// slice is empty, holds a non-digit, or denotes more than `usize::MAX`.
pub fn parse_dec(s: &[u8]) -> (r: Option<usize>)
    ensures
        match r {
            Some(n) => s@.len() > 0 && all_digits(s@) && n == dec_value(s@),
            None => s@.len() == 0 || !all_digits(s@) || dec_value(s@) > usize::MAX,
        },
{
    if s.len() == 0 {
        return None;
    }
    let mut acc: usize = 0;
    let mut i: usize = 0;
    while i < s.len()
        invariant
            i <= s@.len(),
            forall|k: int| 0 <= k < i ==> 48 <= #[trigger] s@[k] <= 57,
            acc == dec_value(s@.take(i as int)),
        decreases s@.len() - i,
    {
        let b = s[i];
        if b < 48 || b > 57 {
            return None;
        }
        let d = (b - 48) as usize;
        let shifted = match acc.checked_mul(10) {
            Some(x) => x,
            None => {
                proof {
                    overflow_means_too_big(s@, i as int, acc * 10 + d);
                }
                return None;
            },
        };
        let next = match shifted.checked_add(d) {
            Some(x) => x,
            None => {
                proof {
                    overflow_means_too_big(s@, i as int, acc * 10 + d);
                }
                return None;
            },
        };
        proof {
            assert(s@.take(i + 1).drop_last() =~= s@.take(i as int));
        }
        acc = next;
        i = i + 1;
    }
    proof {
        assert(s@.take(s@.len() as int) =~= s@);
    }
    Some(acc)
}

/// If the running value already exceeds `usize::MAX` after folding in the
/// digit at `i`, the whole digit string denotes more than `usize::MAX`.
proof fn overflow_means_too_big(s: Seq<u8>, i: int, big: int)
    requires
        0 <= i < s.len(),
        48 <= s[i] <= 57,
        forall|k: int| 0 <= k < i ==> 48 <= #[trigger] s[k] <= 57,
        big == dec_value(s.take(i)) * 10 + (s[i] - 48),
        big > usize::MAX,
    ensures
        !all_digits(s) || dec_value(s) > usize::MAX,
{
    if all_digits(s) {
        assert(s.take(i + 1).drop_last() =~= s.take(i));
        assert(dec_value(s.take(i + 1)) == big);
        lemma_dec_value_prefix_le(s, i + 1);
    }
}

/// Append all of `s` to `out`.
pub fn push_slice(out: &mut Vec<u8>, s: &[u8])
    ensures
        final(out)@ == old(out)@ + s@,
{
    let mut i: usize = 0;
    while i < s.len()
        invariant
            i <= s@.len(),
            out@ == old(out)@ + s@.take(i as int),
        decreases s@.len() - i,
    {
        out.push(s[i]);
        proof {
            assert(old(out)@ + s@.take(i + 1) =~= (old(out)@ + s@.take(i as int)).push(
                s@[i as int],
            ));
        }
        i = i + 1;
    }
    proof {
        assert(old(out)@ + s@.take(s@.len() as int) =~= old(out)@ + s@);
    }
}

/// The decimal numeral of `n`, most significant digit first.
pub open spec fn dec_digits(n: nat) -> Seq<u8>
    decreases n,
{
    if n < 10 {
        seq![(48 + n) as u8]
    } else {
        dec_digits(n / 10).push((48 + n % 10) as u8)
    }
}

/// A decimal numeral is non-empty and holds only digit bytes.
pub proof fn lemma_dec_digits_digits(n: nat)
    ensures
        all_digits(dec_digits(n)),
        dec_digits(n).len() >= 1,
    decreases n,
{
    if n >= 10 {
        lemma_dec_digits_digits(n / 10);
    }
}

/// The decimal numeral of `n` denotes `n`.
pub proof fn lemma_dec_value_of_digits(n: nat)
    ensures
        dec_value(dec_digits(n)) == n,
    decreases n,
{
    reveal_with_fuel(dec_value, 2);
    let ds = dec_digits(n);
    if n < 10 {
        assert(ds.take(0) =~= Seq::<u8>::empty());
    } else {
        lemma_dec_value_of_digits(n / 10);
        assert(ds.take(ds.len() - 1) =~= dec_digits(n / 10));
    }
}

/// Append the decimal numeral of `n` to `out`.
pub fn push_dec(out: &mut Vec<u8>, n: u16)
    ensures
        final(out)@ == old(out)@ + dec_digits(n as nat),
    decreases n,
{
    if n < 10 {
        out.push(48 + n as u8);
        proof {
            assert(out@ =~= old(out)@ + dec_digits(n as nat));
        }
    } else {
        push_dec(out, n / 10);
        out.push(48 + (n % 10) as u8);
        proof {
            assert(out@ =~= old(out)@ + dec_digits(n as nat));
        }
    }
}

} // verus!
