//! Byte-level text helpers: decimal numbers and searching.
use vstd::prelude::*;

verus! {

pub open spec fn is_digit(b: u8) -> bool {
    48 <= b <= 57
}

pub open spec fn all_digits(s: Seq<u8>) -> bool {
    forall|i: int| 0 <= i < s.len() ==> is_digit(#[trigger] s[i])
}

/// The value of a string of decimal digits, most significant first.
pub open spec fn digits_value(s: Seq<u8>) -> nat
    decreases s.len(),
{
    if s.len() == 0 {
        0
    } else {
        digits_value(s.drop_last()) * 10 + (s.last() - 48) as nat
    }
}

/// The number a decimal text denotes: an optional `+` (or `-`, where `signed`)
/// followed by at least one digit. `None` for any other text.
pub open spec fn decimal_of(s: Seq<u8>, signed: bool) -> Option<int> {
    if s.len() > 1 && s[0] == 43u8 && all_digits(s.drop_first()) {
        Some(digits_value(s.drop_first()) as int)
    } else if signed && s.len() > 1 && s[0] == 45u8 && all_digits(s.drop_first()) {
        Some(-(digits_value(s.drop_first()) as int))
    } else if s.len() > 0 && all_digits(s) {
        Some(digits_value(s) as int)
    } else {
        None
    }
}

/// The value of a decimal text when it lies in `[lo, hi]`.
pub open spec fn decimal_in(s: Seq<u8>, signed: bool, lo: int, hi: int) -> Option<int> {
    match decimal_of(s, signed) {
        Some(v) => if lo <= v <= hi {
            Some(v)
        } else {
            None
        },
        None => None,
    }
}

proof fn lemma_digits_value_grows(s: Seq<u8>, j: int, k: int)
    requires
        0 <= j <= k <= s.len(),
    ensures
        digits_value(s.subrange(0, j)) <= digits_value(s.subrange(0, k)),
    decreases k - j,
{
    if j < k {
        lemma_digits_value_grows(s, j, k - 1);
        assert(s.subrange(0, k).drop_last() =~= s.subrange(0, k - 1));
    }
}

/// Reads the magnitude of the digits `s[start..]`, giving up once it exceeds `limit`.
fn read_digits(s: &[u8], start: usize, limit: u64) -> (r: Option<u64>)
    requires
        start < s@.len(),
        limit < 0x1_0000_0000_0000,
    ensures
        r is Some <==> (all_digits(s@.subrange(start as int, s@.len() as int))
            && digits_value(s@.subrange(start as int, s@.len() as int)) <= limit),
        r matches Some(v) ==> v == digits_value(s@.subrange(start as int, s@.len() as int)),
{
    let ghost t = s@.subrange(start as int, s@.len() as int);
    let mut acc: u64 = 0;
    let mut i: usize = start;
    while i < s.len()
        invariant
            start <= i <= s@.len(),
            t == s@.subrange(start as int, s@.len() as int),
            all_digits(s@.subrange(start as int, i as int)),
            acc == digits_value(t.subrange(0, i - start)),
            acc <= limit,
            limit < 0x1_0000_0000_0000,
        decreases s@.len() - i,
    {
        let b = s[i];
        assert(t.subrange(0, i + 1 - start).drop_last() =~= t.subrange(0, i - start));
        if b < 48 || b > 57 {
            proof {
                assert(t[i - start] == b);
            }
            return None;
        }
        acc = acc * 10 + (b - 48) as u64;
        i = i + 1;
        assert(s@.subrange(start as int, i as int) =~= s@.subrange(start as int, i - 1).push(b));
        if acc > limit {
            proof {
                lemma_digits_value_grows(t, i - start, t.len() as int);
                assert(t.subrange(0, t.len() as int) =~= t);
            }
            return None;
        }
    }
    assert(t.subrange(0, i - start) =~= t);
    Some(acc)
}

/// Parses decimal text as Rust's integer parsing does, into `[lo, hi]`.
pub fn parse_decimal(s: &[u8], signed: bool, lo: i64, hi: i64) -> (r: Option<i64>)
    requires
        -0x1_0000_0000 <= lo <= 0,
        0 <= hi <= 0x1_0000_0000,
    ensures
        r matches Some(v) ==> decimal_in(s@, signed, lo as int, hi as int) == Some(v as int),
        r is None ==> decimal_in(s@, signed, lo as int, hi as int) is None,
{
    if s.len() == 0 {
        return None;
    }
    if s.len() > 1 && s[0] == 43u8 {
        match read_digits(s, 1, hi as u64) {
            Some(v) => {
                assert(s@.drop_first() =~= s@.subrange(1, s@.len() as int));
                Some(v as i64)
            },
            None => {
                assert(s@.drop_first() =~= s@.subrange(1, s@.len() as int));
                None
            },
        }
    } else if signed && s.len() > 1 && s[0] == 45u8 {
        let lim = (0 - lo) as u64;
        match read_digits(s, 1, lim) {
            Some(v) => {
                assert(s@.drop_first() =~= s@.subrange(1, s@.len() as int));
                Some(0 - v as i64)
            },
            None => {
                assert(s@.drop_first() =~= s@.subrange(1, s@.len() as int));
                None
            },
        }
    } else {
        match read_digits(s, 0, hi as u64) {
            Some(v) => {
                assert(s@ =~= s@.subrange(0, s@.len() as int));
                Some(v as i64)
            },
            None => {
                assert(s@ =~= s@.subrange(0, s@.len() as int));
                None
            },
        }
    }
}

pub open spec fn is_first_index(s: Seq<u8>, b: u8, i: int) -> bool {
    0 <= i < s.len() && s[i] == b && forall|j: int| 0 <= j < i ==> s[j] != b
}

/// The index of the first `b` in `s`, if any.
pub open spec fn first_index_of(s: Seq<u8>, b: u8) -> Option<int> {
    if exists|i: int| is_first_index(s, b, i) {
        Some(choose|i: int| is_first_index(s, b, i))
    } else {
        None
    }
}

pub proof fn lemma_first_index_bounds(s: Seq<u8>, b: u8)
    ensures
        first_index_of(s, b) matches Some(i) ==> is_first_index(s, b, i),
{
}

/// Finds the first occurrence of `b` in `s`.
pub fn find_byte(s: &[u8], b: u8) -> (r: Option<usize>)
    ensures
        r matches Some(i) ==> first_index_of(s@, b) == Some(i as int),
        r is None ==> first_index_of(s@, b) is None,
{
    let mut i: usize = 0;
    while i < s.len()
        invariant
            i <= s@.len(),
            forall|j: int| 0 <= j < i ==> s@[j] != b,
        decreases s@.len() - i,
    {
        if s[i] == b {
            proof {
                assert(is_first_index(s@, b, i as int));
                let k = choose|k: int| is_first_index(s@, b, k);
                assert(k == i);
            }
            return Some(i);
        }
        i = i + 1;
    }
    None
}

/// Whether the two bytes `a b` stand next to each other somewhere in `s`.
pub open spec fn has_pair(s: Seq<u8>, a: u8, b: u8) -> bool {
    exists|i: int| 0 <= i && i + 1 < s.len() && #[trigger] s[i] == a && s[i + 1] == b
}

pub fn contains_pair(s: &[u8], a: u8, b: u8) -> (r: bool)
    ensures
        r == has_pair(s@, a, b),
{
    if s.len() < 2 {
        return false;
    }
    let mut i: usize = 0;
    while i < s.len() - 1
        invariant
            s@.len() >= 2,
            i <= s@.len() - 1,
            forall|j: int| 0 <= j < i && j + 1 < s@.len() ==> !(#[trigger] s@[j] == a && s@[j + 1] == b),
        decreases s@.len() - i,
    {
        if s[i] == a && s[i + 1] == b {
            return true;
        }
        i = i + 1;
    }
    false
}

/// Copies a byte range out of a slice.
pub fn copy_range(s: &[u8], start: usize, end: usize) -> (r: Vec<u8>)
    requires
        start <= end <= s@.len(),
    ensures
        r@ == s@.subrange(start as int, end as int),
{
    let mut v: Vec<u8> = Vec::new();
    let mut i: usize = start;
    while i < end
        invariant
            start <= i <= end <= s@.len(),
            v@ == s@.subrange(start as int, i as int),
        decreases end - i,
    {
        v.push(s[i]);
        i = i + 1;
        assert(v@ =~= s@.subrange(start as int, i as int));
    }
    v
}

pub fn bytes_eq(a: &[u8], b: &[u8]) -> (r: bool)
    ensures
        r == (a@ == b@),
{
    if a.len() != b.len() {
        return false;
    }
    let mut i: usize = 0;
    while i < a.len()
        invariant
            a@.len() == b@.len(),
            i <= a@.len(),
            forall|j: int| 0 <= j < i ==> a@[j] == b@[j],
        decreases a@.len() - i,
    {
        if a[i] != b[i] {
            return false;
        }
        i = i + 1;
    }
    assert(a@ =~= b@);
    true
}

} // verus!
