//! Decimal notation of unsigned integers.
use vstd::prelude::*;

verus! {

/// `c` is one of the ASCII digits.
pub open spec fn is_digit(c: char) -> bool {
    '0' <= c && c <= '9'
}

/// The value of one ASCII digit.
pub open spec fn digit_value(c: char) -> nat {
    ((c as int) - ('0' as int)) as nat
}

/// The character of a digit value below ten.
pub open spec fn digit_char(d: nat) -> char {
    ((d + 48) as u8) as char
}

/// The value of a run of ASCII digits, most significant first.
pub open spec fn decimal_value(d: Seq<char>) -> nat
    decreases d.len(),
{
    if d.len() == 0 {
        0
    } else {
        decimal_value(d.drop_last()) * 10 + digit_value(d.last())
    }
}

/// The decimal notation of `n`, without leading zeros.
pub open spec fn decimal(n: nat) -> Seq<char>
    decreases n,
{
    if n < 10 {
        seq![digit_char(n)]
    } else {
        decimal(n / 10) + seq![digit_char(n % 10)]
    }
}

/// Writes `n` in decimal notation.
pub fn to_decimal(n: u64) -> (r: Vec<char>)
    ensures
        r@ == decimal(n as nat),
    decreases n,
{
    let d: u8 = (n % 10) as u8;
    let c: char = ((d + 48) as u8) as char;
    if n < 10 {
        let mut v: Vec<char> = Vec::new();
        v.push(c);
        assert(v@ =~= seq![digit_char(n as nat)]);
        v
    } else {
        let mut v = to_decimal(n / 10);
        v.push(c);
        v
    }
}

/// Reads a run of ASCII digits; `None` when the value does not fit in a `u64`.
pub fn parse_decimal(d: &Vec<char>) -> (r: Option<u64>)
    requires
        forall|i: int| 0 <= i < d@.len() ==> is_digit(d@[i]),
    ensures
        match r {
            Some(v) => v as nat == decimal_value(d@),
            None => decimal_value(d@) > u64::MAX,
        },
{
    let mut v: u64 = 0;
    let mut i: usize = 0;
    assert(d@.subrange(0, 0) =~= Seq::<char>::empty());
    while i < d.len()
        invariant
            i <= d.len(),
            forall|k: int| 0 <= k < d@.len() ==> is_digit(d@[k]),
            v as nat == decimal_value(d@.subrange(0, i as int)),
        decreases d.len() - i,
    {
        let c = d[i];
        let dv: u64 = (c as u32 - '0' as u32) as u64;
        assert(d@.subrange(0, i + 1).drop_last() =~= d@.subrange(0, i as int));
        if v > (u64::MAX - dv) / 10 {
            proof {
                lemma_decimal_value_grows(d@, i as int + 1);
            }
            return None;
        }
        v = v * 10 + dv;
        i += 1;
    }
    assert(d@.subrange(0, d.len() as int) =~= d@);
    Some(v)
}

/// Once a prefix of digits is worth more than a `u64` holds, so is every longer prefix.
proof fn lemma_decimal_value_grows(d: Seq<char>, k: int)
    requires
        0 < k <= d.len(),
        decimal_value(d.subrange(0, k)) > u64::MAX,
    ensures
        decimal_value(d) > u64::MAX,
    decreases d.len() - k,
{
    if k < d.len() {
        assert(d.subrange(0, k + 1).drop_last() =~= d.subrange(0, k));
        lemma_decimal_value_grows(d, k + 1);
    } else {
        assert(d.subrange(0, k) =~= d);
    }
}

} // verus!
