//! Byte-level scanning primitives used by the graph-description parser:
//! substring search, prefix tests, whitespace stripping, and numeric
//! parsing, each pinned to a spec-level mirror.

use vstd::prelude::*;

verus! {

/// True when byte `b` occurs somewhere in `s`.
pub open spec fn contains_byte(s: Seq<u8>, b: u8) -> bool {
    exists|i: int| 0 <= i < s.len() && s[i] == b
}

/// True when the pattern `p` occurs in `s` starting at index `i`.
pub open spec fn match_at(s: Seq<u8>, p: Seq<u8>, i: int) -> bool {
    0 <= i && i + p.len() <= s.len() && s.subrange(i, i + p.len() as int) == p
}

/// True when the pattern `p` occurs somewhere in `s`.
pub open spec fn contains_seq(s: Seq<u8>, p: Seq<u8>) -> bool {
    exists|i: int| match_at(s, p, i)
}

/// Index of the first occurrence of `p` in `s` at or after `from`,
/// or `None` when there is none.
pub open spec fn first_match(s: Seq<u8>, p: Seq<u8>, from: int) -> Option<int>
    decreases s.len() - from
{
    if from < 0 || from + p.len() > s.len() {
        None
    } else if s.subrange(from, from + p.len() as int) == p {
        Some(from)
    } else if from + 1 + p.len() > s.len() {
        None
    } else {
        first_match(s, p, from + 1)
    }
}

/// The first occurrence reported by `first_match` really is a match, is at or
/// after `from`, and no earlier position at or after `from` matches; `None`
/// means no position at or after `from` matches.
pub proof fn lemma_first_match(s: Seq<u8>, p: Seq<u8>, from: int)
    requires
        0 <= from,
    ensures
        match first_match(s, p, from) {
            Some(i) => from <= i && match_at(s, p, i)
                && forall|j: int| from <= j < i ==> !match_at(s, p, j),
            None => forall|j: int| from <= j ==> !match_at(s, p, j),
        },
    decreases s.len() - from,
{
    if from + p.len() > s.len() {
        assert(forall|j: int| from <= j ==> !match_at(s, p, j));
    } else if s.subrange(from, from + p.len() as int) == p {
    } else if from + 1 + p.len() > s.len() {
        assert(forall|j: int| from <= j ==> !match_at(s, p, j));
    } else {
        lemma_first_match(s, p, from + 1);
    }
}

/// Exact byte-for-byte equality of two slices.
pub fn bytes_eq(a: &[u8], b: &[u8]) -> (r: bool)
    ensures
        r == (a@ == b@),
{
    if a.len() != b.len() {
        assert(a@.len() != b@.len());
        return false;
    }
    let n = a.len();
    let mut i: usize = 0;
    while i < n
        invariant
            i <= n,
            n == a@.len() == b@.len(),
            forall|k: int| 0 <= k < i ==> a@[k] == b@[k],
        decreases n - i,
    {
        if a[i] != b[i] {
            return false;
        }
        i += 1;
    }
    assert(a@ =~= b@);
    true
}

/// Whether `s` starts with the pattern `p`.
pub fn starts_with(s: &[u8], p: &[u8]) -> (r: bool)
    ensures
        r == match_at(s@, p@, 0),
{
    if p.len() > s.len() {
        return false;
    }
    let head = vstd::slice::slice_subrange(s, 0, p.len());
    bytes_eq(head, p)
}

/// Whether byte `b` occurs in `s`.
pub fn has_byte(s: &[u8], b: u8) -> (r: bool)
    ensures
        r == contains_byte(s@, b),
{
    let n = s.len();
    let mut i: usize = 0;
    while i < n
        invariant
            i <= n,
            n == s@.len(),
            forall|k: int| 0 <= k < i ==> s@[k] != b,
        decreases n - i,
    {
        if s[i] == b {
            return true;
        }
        i += 1;
    }
    false
}

/// First occurrence of `p` in `s` at or after `from`, as `first_match` gives it.
pub fn find_from(s: &[u8], p: &[u8], from: usize) -> (r: Option<usize>)
    requires
        p@.len() >= 1,
    ensures
        match r {
            Some(i) => first_match(s@, p@, from as int) == Some(i as int),
            None => first_match(s@, p@, from as int) is None,
        },
{
    let n = s.len();
    let m = p.len();
    if from > n || m > n - from {
        return None;
    }
    let mut i: usize = from;
    while i <= n - m
        invariant
            from <= i,
            m >= 1,
            m <= n,
            i <= n - m + 1,
            n == s@.len(),
            m == p@.len(),
            first_match(s@, p@, from as int) == first_match(s@, p@, i as int),
        decreases n - i,
    {
        let window = vstd::slice::slice_subrange(s, i, i + m);
        if bytes_eq(window, p) {
            assert(s@.subrange(i as int, i + m as int) == p@);
            return Some(i);
        }
        assert(s@.subrange(i as int, i + m as int) != p@);
        assert(first_match(s@, p@, i as int) == first_match(s@, p@, i + 1));
        i += 1;
    }
    assert(i + m > n);
    None
}

/// Whether the pattern `p` occurs anywhere in `s`.
pub fn has_seq(s: &[u8], p: &[u8]) -> (r: bool)
    requires
        p@.len() >= 1,
    ensures
        r == contains_seq(s@, p@),
{
    let r = find_from(s, p, 0);
    proof {
        lemma_first_match(s@, p@, 0);
    }
    match r {
        Some(i) => {
            assert(match_at(s@, p@, i as int));
            true
        },
        None => {
            assert(forall|j: int| 0 <= j ==> !match_at(s@, p@, j));
            assert(forall|j: int| match_at(s@, p@, j) ==> 0 <= j);
            false
        },
    }
}

/// Space, horizontal tab, or carriage return.
pub open spec fn is_ws(b: u8) -> bool {
    b == 32 || b == 9 || b == 13
}

/// `s` with every whitespace byte removed.
pub open spec fn strip_ws_spec(s: Seq<u8>) -> Seq<u8>
    decreases s.len()
{
    if s.len() == 0 {
        Seq::empty()
    } else {
        let rest = strip_ws_spec(s.drop_last());
        if is_ws(s.last()) {
            rest
        } else {
            rest.push(s.last())
        }
    }
}

/// Copy of `s` with every whitespace byte removed.
pub fn strip_ws(s: &[u8]) -> (r: Vec<u8>)
    ensures
        r@ == strip_ws_spec(s@),
{
    let n = s.len();
    let mut out: Vec<u8> = Vec::new();
    let mut i: usize = 0;
    while i < n
        invariant
            i <= n,
            n == s@.len(),
            out@ == strip_ws_spec(s@.take(i as int)),
        decreases n - i,
    {
        let b = s[i];
        proof {
            assert(s@.take(i + 1).drop_last() =~= s@.take(i as int));
            assert(s@.take(i + 1).last() == s@[i as int]);
        }
        if !(b == 32 || b == 9 || b == 13) {
            out.push(b);
        }
        i += 1;
    }
    proof {
        assert(s@.take(n as int) =~= s@);
    }
    out
}

/// True when every byte of `s` is an ASCII decimal digit.
pub open spec fn all_digits(s: Seq<u8>) -> bool {
    forall|i: int| 0 <= i < s.len() ==> 48 <= #[trigger] s[i] <= 57
}

/// Numeric value of a string of ASCII decimal digits, most significant first.
pub open spec fn digits_val(s: Seq<u8>) -> int
    decreases s.len()
{
    if s.len() == 0 {
        0
    } else {
        digits_val(s.drop_last()) * 10 + (s.last() - 48)
    }
}

/// The value of a digit string is non-negative, and no prefix exceeds it.
pub proof fn lemma_digits_val_prefix(s: Seq<u8>, i: int)
    requires
        all_digits(s),
        0 <= i <= s.len(),
    ensures
        digits_val(s) >= 0,
        digits_val(s.take(i)) >= 0,
        digits_val(s.take(i)) <= digits_val(s),
    decreases s.len()
{
    if s.len() == 0 {
        assert(s.take(i) =~= s);
    } else {
        assert(all_digits(s.drop_last()));
        lemma_digits_val_prefix(s.drop_last(), if i <= s.len() - 1 { i } else { s.len() - 1 });
        if i == s.len() {
            assert(s.take(i) =~= s);
        } else {
            assert(s.take(i) =~= s.drop_last().take(i));
        }
    }
}

/// The signed integer denoted by `s`: an optional leading minus sign, then
/// one or more decimal digits; `None` when the shape is wrong or the value
/// does not fit in `i64`.
pub open spec fn spec_parse_int(s: Seq<u8>) -> Option<i64> {
    let (neg, digits) = if s.len() > 0 && s[0] == 45 {
        (true, s.drop_first())
    } else {
        (false, s)
    };
    if digits.len() == 0 || !all_digits(digits) || digits_val(digits) > i64::MAX {
        None
    } else if neg {
        Some((-digits_val(digits)) as i64)
    } else {
        Some(digits_val(digits) as i64)
    }
}

/// Value of the digit run of `s`, all of which must be digits.
pub fn parse_int_magnitude(s: &[u8]) -> (r: Option<u64>)
    ensures
        match r {
            Some(v) => all_digits(s@) && v == digits_val(s@) && digits_val(s@) <= i64::MAX,
            None => !all_digits(s@) || digits_val(s@) > i64::MAX,
        },
{
    let n = s.len();
    let mut acc: u64 = 0;
    let mut i: usize = 0;
    while i < n
        invariant
            i <= n,
            n == s@.len(),
            all_digits(s@.take(i as int)),
            acc == digits_val(s@.take(i as int)),
            acc <= i64::MAX,
        decreases n - i,
    {
        let b = s[i];
        if b < 48 || b > 57 {
            return None;
        }
        let d: u64 = (b - 48) as u64;
        proof {
            assert(s@.take(i + 1).drop_last() =~= s@.take(i as int));
            assert(s@.take(i + 1).last() == s@[i as int]);
        }
        if acc > (i64::MAX as u64 - d) / 10 {
            proof {
                let t = s@.take(i + 1);
                assert(digits_val(t) == acc * 10 + d);
                assert(digits_val(t) > i64::MAX);
                if all_digits(s@) {
                    lemma_digits_val_prefix(s@, i + 1);
                }
            }
            return None;
        }
        acc = acc * 10 + d;
        i += 1;
    }
    proof {
        assert(s@.take(n as int) =~= s@);
    }
    Some(acc)
}

/// The signed integer denoted by `s`, exactly as `spec_parse_int` gives it.
pub fn parse_int(s: &[u8]) -> (r: Option<i64>)
    ensures
        r == spec_parse_int(s@),
{
    let n = s.len();
    let (neg, digits) = if n > 0 && s[0] == 45 {
        (true, vstd::slice::slice_subrange(s, 1, n))
    } else {
        (false, vstd::slice::slice_subrange(s, 0, n))
    };
    proof {
        if n > 0 && s@[0] == 45 {
            assert(s@.subrange(1, n as int) =~= s@.drop_first());
        } else {
            assert(s@.subrange(0, n as int) =~= s@);
        }
    }
    if digits.len() == 0 {
        return None;
    }
    match parse_int_magnitude(digits) {
        None => None,
        Some(v) => {
            if neg {
                Some(-(v as i64))
            } else {
                Some(v as i64)
            }
        },
    }
}

/// Copy of the byte range `[from, to)` of `s`.
pub fn sub_copy(s: &[u8], from: usize, to: usize) -> (r: Vec<u8>)
    requires
        from <= to <= s@.len(),
    ensures
        r@ == s@.subrange(from as int, to as int),
{
    let part = vstd::slice::slice_subrange(s, from, to);
    let mut out: Vec<u8> = Vec::new();
    let n = part.len();
    let mut i: usize = 0;
    while i < n
        invariant
            i <= n,
            n == part@.len(),
            part@ == s@.subrange(from as int, to as int),
            out@ == part@.take(i as int),
        decreases n - i,
    {
        out.push(part[i]);
        i += 1;
    }
    proof {
        assert(part@.take(n as int) =~= part@);
    }
    out
}

} // verus!
