//! Decimal text of unsigned numbers: 256-bit amounts and 64-bit counters.

use vstd::prelude::*;
use vstd::string::StrSliceExecFns;
use crate::hex::hex_digit;
use crate::hex::push_hex_digit;

verus! {

/// The decimal digits of `n`, most significant first, without leading zeros;
/// zero is the single digit `0`.
pub open spec fn decimal_digits(n: nat) -> Seq<char>
    decreases n,
{
    if n < 10 {
        seq![hex_digit(n as int)]
    } else {
        decimal_digits(n / 10).push(hex_digit((n % 10) as int))
    }
}

/// The number that a run of decimal digits spells, most significant first.
pub open spec fn digits_value(s: Seq<char>) -> nat
    decreases s.len(),
{
    if s.len() == 0 {
        0
    } else {
        digits_value(s.drop_last()) * 10 + digit_value(s.last())
    }
}

pub open spec fn is_decimal_digit(c: char) -> bool {
    '0' <= c <= '9'
}

pub open spec fn digit_value(c: char) -> nat {
    (c as int - '0' as int) as nat
}

pub open spec fn all_decimal_digits(s: Seq<char>) -> bool {
    forall|i: int| 0 <= i < s.len() ==> is_decimal_digit(#[trigger] s[i])
}

/// The text behind an optional leading `+`.
pub open spec fn unsigned_body(s: Seq<char>) -> Seq<char> {
    if s.len() > 0 && s[0] == '+' {
        s.skip(1)
    } else {
        s
    }
}

/// What reading `s` as an unsigned 64-bit number gives: an optional `+`, then
/// at least one decimal digit and nothing else, spelling a number that fits.
pub open spec fn parse_u64_spec(s: Seq<char>) -> Option<u64> {
    let body = unsigned_body(s);
    if body.len() == 0 || !all_decimal_digits(body) || digits_value(body) > u64::MAX {
        None
    } else {
        Some(digits_value(body) as u64)
    }
}

/// A number that only grows with more digits: a prefix never spells more.
proof fn lemma_digits_value_prefix(s: Seq<char>, n: int)
    requires
        0 <= n <= s.len(),
    ensures
        digits_value(s.subrange(0, n)) <= digits_value(s),
    decreases s.len() - n,
{
    if n == s.len() {
        assert(s.subrange(0, n) =~= s);
    } else {
        lemma_digits_value_prefix(s, n + 1);
        assert(s.subrange(0, n + 1).drop_last() =~= s.subrange(0, n));
    }
}

/// Reads an unsigned 64-bit number from decimal text.
pub fn parse_u64(s: &str) -> (r: Option<u64>)
    ensures
        r == parse_u64_spec(s@),
{
    let len = s.unicode_len();
    let start: usize = if len > 0 && s.get_char(0) == '+' {
        1
    } else {
        0
    };
    let ghost body = unsigned_body(s@);
    assert(body =~= s@.skip(start as int));
    if start == len {
        return None;
    }
    let mut acc: u64 = 0;
    let mut i: usize = start;
    while i < len
        invariant
            start <= i <= len,
            len == s@.len(),
            body == s@.skip(start as int),
            body == unsigned_body(s@),
            all_decimal_digits(body.subrange(0, i - start)),
            acc == digits_value(body.subrange(0, i - start)),
        decreases len - i,
    {
        let c = s.get_char(i);
        assert(c == body[i - start]);
        if !(c >= '0' && c <= '9') {
            return None;
        }
        let d: u64 = (c as u32 - '0' as u32) as u64;
        proof {
            let longer = body.subrange(0, i + 1 - start);
            assert(longer.drop_last() =~= body.subrange(0, i - start));
            assert(longer.last() == c);
            assert(digits_value(longer) == acc * 10 + d);
            lemma_digits_value_prefix(body, i + 1 - start);
            assert forall|j: int| 0 <= j < longer.len() implies is_decimal_digit(
                #[trigger] longer[j],
            ) by {
                if j < i - start {
                    assert(longer[j] == body.subrange(0, i - start)[j]);
                }
            }
        }
        if acc > (u64::MAX - d) / 10 {
            return None;
        }
        acc = acc * 10 + d;
        i = i + 1;
    }
    assert(body.subrange(0, len - start) =~= body);
    Some(acc)
}

/// An unsigned 256-bit number in four 64-bit limbs, least significant first.
#[derive(Clone, Copy, Debug)]
pub struct U256 {
    pub limbs: [u64; 4],
}

pub open spec fn limbs_value(l0: u64, l1: u64, l2: u64, l3: u64) -> nat {
    (l0 as nat) + (l1 as nat) * 0x1_0000_0000_0000_0000 + (l2 as nat)
        * 0x1_0000_0000_0000_0000_0000_0000_0000_0000 + (l3 as nat)
        * 0x1_0000_0000_0000_0000_0000_0000_0000_0000_0000_0000_0000_0000
}

impl View for U256 {
    type V = nat;

    open spec fn view(&self) -> nat {
        limbs_value(self.limbs@[0], self.limbs@[1], self.limbs@[2], self.limbs@[3])
    }
}

impl U256 {
    /// The number `n`.
    pub fn from_u64(n: u64) -> (r: U256)
        ensures
            r@ == n,
    {
        U256 { limbs: [n, 0, 0, 0] }
    }

    pub fn is_zero(&self) -> (z: bool)
        ensures
            z <==> self@ == 0,
    {
        self.limbs[0] == 0 && self.limbs[1] == 0 && self.limbs[2] == 0 && self.limbs[3] == 0
    }

    /// Quotient and remainder of the division by ten.
    pub fn div_rem_10(&self) -> (r: (U256, u8))
        ensures
            r.0@ == self@ / 10,
            r.1 == self@ % 10,
    {
        let l3 = self.limbs[3];
        let q3 = l3 / 10;
        let c2: u128 = ((l3 % 10) as u128) * 0x1_0000_0000_0000_0000 + self.limbs[2] as u128;
        let q2 = (c2 / 10) as u64;
        let c1: u128 = (c2 % 10) * 0x1_0000_0000_0000_0000 + self.limbs[1] as u128;
        let q1 = (c1 / 10) as u64;
        let c0: u128 = (c1 % 10) * 0x1_0000_0000_0000_0000 + self.limbs[0] as u128;
        let q0 = (c0 / 10) as u64;
        let rem = (c0 % 10) as u8;
        let q = U256 { limbs: [q0, q1, q2, q3] };
        assert(q@ * 10 + rem == self@);
        (q, rem)
    }

    /// The decimal text of the number.
    pub fn to_decimal(&self) -> (s: String)
        ensures
            s@ == decimal_digits(self@),
    {
        let mut reversed: Vec<u8> = Vec::new();
        let mut cur = *self;
        loop
            invariant_except_break
                decimal_digits(self@) == decimal_digits(cur@) + digit_chars(reversed@).reverse(),
                forall|j: int| 0 <= j < reversed@.len() ==> reversed@[j] < 10,
            ensures
                decimal_digits(self@) == digit_chars(reversed@).reverse(),
                forall|j: int| 0 <= j < reversed@.len() ==> reversed@[j] < 10,
            decreases cur@,
        {
            let (q, rem) = cur.div_rem_10();
            let ghost before = reversed@;
            reversed.push(rem);
            assert(digit_chars(reversed@).reverse() =~= seq![hex_digit(rem as int)] + digit_chars(
                before,
            ).reverse());
            if q.is_zero() {
                assert(decimal_digits(cur@) =~= seq![hex_digit(rem as int)]);
                break ;
            }
            assert(decimal_digits(cur@) =~= decimal_digits(q@).push(hex_digit(rem as int)));
            assert(decimal_digits(cur@) + digit_chars(before).reverse() =~= decimal_digits(q@)
                + digit_chars(reversed@).reverse());
            cur = q;
        }
        let mut s = String::new();
        let mut i: usize = reversed.len();
        while i > 0
            invariant
                i <= reversed@.len(),
                forall|j: int| 0 <= j < reversed@.len() ==> reversed@[j] < 10,
                s@ == digit_chars(reversed@).reverse().subrange(0, reversed@.len() - i),
            decreases i,
        {
            i = i - 1;
            let ghost before = s@;
            push_hex_digit(&mut s, reversed[i]);
            assert(s@ =~= digit_chars(reversed@).reverse().subrange(0, reversed@.len() - i));
        }
        assert(digit_chars(reversed@).reverse().subrange(0, reversed@.len() as int)
            =~= digit_chars(reversed@).reverse());
        s
    }
}

/// The digit characters of a run of digit values.
pub open spec fn digit_chars(digits: Seq<u8>) -> Seq<char> {
    Seq::new(digits.len(), |i: int| hex_digit(digits[i] as int))
}

/// The decimal text of a 64-bit number.
pub fn u64_to_decimal(n: u64) -> (s: String)
    ensures
        s@ == decimal_digits(n as nat),
{
    U256::from_u64(n).to_decimal()
}

} // verus!
