//! The protocol-buffer wire format: varints and tagged fields.
use vstd::prelude::*;

verus! {

/// What one field carries. Length-delimited contents stay in the buffer,
/// given by their start and end positions.
#[derive(Debug, Clone, Copy, PartialEq, Eq, Structural)]
pub enum WireValue {
    Varint(u64),
    Fixed64,
    Bytes(usize, usize),
    Fixed32,
}

#[derive(Debug, Clone, Copy, PartialEq, Eq, Structural)]
pub struct WireField {
    pub number: u64,
    pub value: WireValue,
}

pub open spec fn pow128(k: nat) -> nat
    decreases k,
{
    if k == 0 {
        1
    } else {
        128 * pow128((k - 1) as nat)
    }
}

/// The number that the low seven bits of `b[pos..pos + k]` make, least significant first.
pub open spec fn varint_low(b: Seq<u8>, pos: int, k: nat) -> nat
    decreases k,
{
    if k == 0 {
        0
    } else {
        varint_low(b, pos, (k - 1) as nat) + (b[pos + k - 1] % 128) as nat * pow128(
            (k - 1) as nat,
        )
    }
}

/// A varint of at most ten bytes at `pos`, ending before `end`: its value and the position after it.
pub open spec fn varint_scan(b: Seq<u8>, pos: int, end: int, k: nat) -> Option<(nat, int)>
    decreases 10 - k,
{
    if k >= 10 || pos + k >= end {
        None
    } else if b[pos + k] < 128 {
        Some((varint_low(b, pos, k + 1), pos + k + 1))
    } else {
        varint_scan(b, pos, end, k + 1)
    }
}

/// The varint at `pos`, when it is there and fits in 64 bits.
pub open spec fn varint_at(b: Seq<u8>, pos: int, end: int) -> Option<(u64, int)> {
    if 0 <= pos && end <= b.len() {
        match varint_scan(b, pos, end, 0) {
            Some((v, next)) => if v < 0x1_0000_0000_0000_0000 {
                Some((v as u64, next))
            } else {
                None
            },
            None => None,
        }
    } else {
        None
    }
}

proof fn lemma_pow128_bound(k: nat)
    requires
        k <= 10,
    ensures
        1 <= pow128(k) <= 0x40_0000_0000_0000_0000,
    decreases k,
{
    if k > 0 {
        lemma_pow128_bound((k - 1) as nat);
        if k == 10 {
            reveal_with_fuel(pow128, 11);
        } else {
            lemma_pow128_grows((k - 1) as nat, 9);
            reveal_with_fuel(pow128, 10);
        }
    }
}

proof fn lemma_pow128_grows(j: nat, k: nat)
    requires
        j <= k,
    ensures
        pow128(j) <= pow128(k),
    decreases k - j,
{
    if j < k {
        lemma_pow128_grows(j, (k - 1) as nat);
    }
}

/// Reads the varint at `pos`, before `end`.
pub fn read_varint(b: &[u8], pos: usize, end: usize) -> (r: Option<(u64, usize)>)
    ensures
        r matches Some((v, next)) ==> varint_at(b@, pos as int, end as int) == Some((v, next as int)),
        r is None ==> varint_at(b@, pos as int, end as int) is None,
{
    if end > b.len() {
        return None;
    }
    let mut acc: u128 = 0;
    let mut mult: u128 = 1;
    let mut k: usize = 0;
    while k < 10 && pos + k < end
        invariant
            end <= b@.len(),
            k <= 10,
            pos + k <= end || k == 0,
            acc == varint_low(b@, pos as int, k as nat),
            mult == pow128(k as nat),
            acc < mult,
            varint_scan(b@, pos as int, end as int, 0) == varint_scan(
                b@,
                pos as int,
                end as int,
                k as nat,
            ),
        decreases 10 - k,
    {
        proof {
            lemma_pow128_bound(k as nat);
        }
        let byte = b[pos + k];
        let low = (byte % 128) as u128;
        assert(acc + low * mult < 128 * mult) by (nonlinear_arith)
            requires
                acc < mult,
                low < 128,
        {
        }
        acc = acc + low * mult;
        if byte < 128 {
            if acc < 0x1_0000_0000_0000_0000 {
                return Some((acc as u64, pos + k + 1));
            } else {
                return None;
            }
        }
        mult = mult * 128;
        k = k + 1;
    }
    None
}

/// The field at `pos`, before `end`, and the position after it.
pub open spec fn field_at(b: Seq<u8>, pos: int, end: int) -> Option<(WireField, int)> {
    match varint_at(b, pos, end) {
        Some((tag, p)) => {
            let number = tag / 8;
            let wt = tag % 8;
            if number == 0 {
                None
            } else if wt == 0 {
                match varint_at(b, p, end) {
                    Some((v, q)) => Some((WireField { number, value: WireValue::Varint(v) }, q)),
                    None => None,
                }
            } else if wt == 1 {
                if p + 8 <= end {
                    Some((WireField { number, value: WireValue::Fixed64 }, p + 8))
                } else {
                    None
                }
            } else if wt == 2 {
                match varint_at(b, p, end) {
                    Some((len, q)) => if q + len <= end {
                        Some(
                            (
                                WireField {
                                    number,
                                    value: WireValue::Bytes(q as usize, (q + len) as usize),
                                },
                                q + len,
                            ),
                        )
                    } else {
                        None
                    },
                    None => None,
                }
            } else if wt == 5 {
                if p + 4 <= end {
                    Some((WireField { number, value: WireValue::Fixed32 }, p + 4))
                } else {
                    None
                }
            } else {
                None
            }
        },
        None => None,
    }
}

proof fn lemma_varint_scan_moves(b: Seq<u8>, pos: int, end: int, k: nat)
    ensures
        varint_scan(b, pos, end, k) matches Some((v, next)) ==> pos < next <= end,
    decreases 10 - k,
{
    if !(k >= 10 || pos + k >= end) && !(b[pos + k] < 128) {
        lemma_varint_scan_moves(b, pos, end, k + 1);
    }
}

proof fn lemma_field_moves(b: Seq<u8>, pos: int, end: int)
    ensures
        field_at(b, pos, end) matches Some((f, next)) ==> pos < next <= end,
{
    lemma_varint_scan_moves(b, pos, end, 0);
    if let Some((tag, p)) = varint_at(b, pos, end) {
        lemma_varint_scan_moves(b, p, end, 0);
    }
}

/// Reads the field at `pos`, before `end`.
pub fn read_field(b: &[u8], pos: usize, end: usize) -> (r: Option<(WireField, usize)>)
    ensures
        r matches Some((f, next)) ==> field_at(b@, pos as int, end as int) == Some((f, next as int)),
        r is None ==> field_at(b@, pos as int, end as int) is None,
{
    proof {
        lemma_varint_scan_moves(b@, pos as int, end as int, 0);
    }
    let (tag, p) = match read_varint(b, pos, end) {
        Some(x) => x,
        None => return None,
    };
    proof {
        lemma_varint_scan_moves(b@, p as int, end as int, 0);
    }
    let number = tag / 8;
    let wt = tag % 8;
    if number == 0 {
        None
    } else if wt == 0 {
        match read_varint(b, p, end) {
            Some((v, q)) => Some((WireField { number, value: WireValue::Varint(v) }, q)),
            None => None,
        }
    } else if wt == 1 {
        if end >= 8 && p <= end - 8 {
            Some((WireField { number, value: WireValue::Fixed64 }, p + 8))
        } else {
            None
        }
    } else if wt == 2 {
        match read_varint(b, p, end) {
            Some((len, q)) => if len <= (end - q) as u64 {
                let stop = q + len as usize;
                Some((WireField { number, value: WireValue::Bytes(q, stop) }, stop))
            } else {
                None
            },
            None => None,
        }
    } else if wt == 5 {
        if end >= 4 && p <= end - 4 {
            Some((WireField { number, value: WireValue::Fixed32 }, p + 4))
        } else {
            None
        }
    } else {
        None
    }
}

/// The fields from `pos` to `end`, when they follow the wire format all the way.
pub open spec fn fields_from(b: Seq<u8>, pos: int, end: int) -> Option<Seq<WireField>>
    decreases end - pos,
{
    if pos == end {
        Some(Seq::empty())
    } else if pos > end {
        None
    } else {
        match field_at(b, pos, end) {
            Some((f, next)) => if pos < next <= end {
                match fields_from(b, next, end) {
                    Some(rest) => Some(seq![f] + rest),
                    None => None,
                }
            } else {
                None
            },
            None => None,
        }
    }
}

/// The fields of the message stored in `b[start..end]`.
pub open spec fn message_fields(b: Seq<u8>, start: int, end: int) -> Option<Seq<WireField>> {
    if 0 <= start <= end <= b.len() {
        fields_from(b, start, end)
    } else {
        None
    }
}

/// Splits the message stored in `b[start..end]` into its fields.
pub fn read_fields(b: &[u8], start: usize, end: usize) -> (r: Option<Vec<WireField>>)
    ensures
        r matches Some(v) ==> message_fields(b@, start as int, end as int) == Some(v@),
        r is None ==> message_fields(b@, start as int, end as int) is None,
{
    if !(start <= end && end <= b.len()) {
        return None;
    }
    let mut acc: Vec<WireField> = Vec::new();
    let mut pos: usize = start;
    while pos < end
        invariant
            start <= pos <= end <= b@.len(),
            fields_from(b@, start as int, end as int) == (match fields_from(
                b@,
                pos as int,
                end as int,
            ) {
                Some(rest) => Some(acc@ + rest),
                None => None,
            }),
        decreases end - pos,
    {
        proof {
            lemma_field_moves(b@, pos as int, end as int);
        }
        match read_field(b, pos, end) {
            Some((f, next)) => {
                proof {
                    let ghost rest = fields_from(b@, next as int, end as int);
                    if let Some(rs) = rest {
                        assert(acc@ + (seq![f] + rs) =~= acc@.push(f) + rs);
                    }
                }
                acc.push(f);
                pos = next;
            },
            None => return None,
        }
    }
    assert(acc@ + Seq::<WireField>::empty() =~= acc@);
    Some(acc)
}

/// The last varint field numbered `n`.
pub open spec fn last_varint(fs: Seq<WireField>, n: u64) -> Option<u64>
    decreases fs.len(),
{
    if fs.len() == 0 {
        None
    } else {
        match fs.last().value {
            WireValue::Varint(v) => if fs.last().number == n {
                Some(v)
            } else {
                last_varint(fs.drop_last(), n)
            },
            _ => last_varint(fs.drop_last(), n),
        }
    }
}

/// The last length-delimited field numbered `n`.
pub open spec fn last_bytes(fs: Seq<WireField>, n: u64) -> Option<(usize, usize)>
    decreases fs.len(),
{
    if fs.len() == 0 {
        None
    } else {
        match fs.last().value {
            WireValue::Bytes(s, e) => if fs.last().number == n {
                Some((s, e))
            } else {
                last_bytes(fs.drop_last(), n)
            },
            _ => last_bytes(fs.drop_last(), n),
        }
    }
}

/// Every length-delimited field numbered `n`, in order.
pub open spec fn all_bytes(fs: Seq<WireField>, n: u64) -> Seq<(usize, usize)>
    decreases fs.len(),
{
    if fs.len() == 0 {
        Seq::empty()
    } else {
        let rest = all_bytes(fs.drop_last(), n);
        match fs.last().value {
            WireValue::Bytes(s, e) => if fs.last().number == n {
                rest.push((s, e))
            } else {
                rest
            },
            _ => rest,
        }
    }
}

pub fn find_last_varint(fs: &Vec<WireField>, n: u64) -> (r: Option<u64>)
    ensures
        r == last_varint(fs@, n),
{
    let mut i: usize = fs.len();
    assert(fs@.subrange(0, i as int) =~= fs@);
    while i > 0
        invariant
            i <= fs@.len(),
            last_varint(fs@, n) == last_varint(fs@.subrange(0, i as int), n),
        decreases i,
    {
        let f = fs[i - 1];
        assert(fs@.subrange(0, i as int).drop_last() =~= fs@.subrange(0, i - 1));
        match f.value {
            WireValue::Varint(v) => {
                if f.number == n {
                    return Some(v);
                }
            },
            _ => {},
        }
        i = i - 1;
    }
    None
}

pub fn find_last_bytes(fs: &Vec<WireField>, n: u64) -> (r: Option<(usize, usize)>)
    ensures
        r == last_bytes(fs@, n),
{
    let mut i: usize = fs.len();
    assert(fs@.subrange(0, i as int) =~= fs@);
    while i > 0
        invariant
            i <= fs@.len(),
            last_bytes(fs@, n) == last_bytes(fs@.subrange(0, i as int), n),
        decreases i,
    {
        let f = fs[i - 1];
        assert(fs@.subrange(0, i as int).drop_last() =~= fs@.subrange(0, i - 1));
        match f.value {
            WireValue::Bytes(s, e) => {
                if f.number == n {
                    return Some((s, e));
                }
            },
            _ => {},
        }
        i = i - 1;
    }
    None
}

pub fn collect_bytes(fs: &Vec<WireField>, n: u64) -> (r: Vec<(usize, usize)>)
    ensures
        r@ == all_bytes(fs@, n),
{
    let mut acc: Vec<(usize, usize)> = Vec::new();
    let mut i: usize = 0;
    while i < fs.len()
        invariant
            i <= fs@.len(),
            acc@ == all_bytes(fs@.subrange(0, i as int), n),
        decreases fs@.len() - i,
    {
        let f = fs[i];
        assert(fs@.subrange(0, i + 1).drop_last() =~= fs@.subrange(0, i as int));
        match f.value {
            WireValue::Bytes(s, e) => {
                if f.number == n {
                    acc.push((s, e));
                }
            },
            _ => {},
        }
        i = i + 1;
    }
    assert(fs@.subrange(0, fs@.len() as int) =~= fs@);
    acc
}

} // verus!
