//! Lower-case hexadecimal rendering of hashes and addresses.

use vstd::prelude::*;
use vstd::string::StringExecFns;

verus! {

/// The lower-case hexadecimal digit of a value below sixteen.
pub open spec fn hex_digit(n: int) -> char {
    if n == 0 {
        '0'
    } else if n == 1 {
        '1'
    } else if n == 2 {
        '2'
    } else if n == 3 {
        '3'
    } else if n == 4 {
        '4'
    } else if n == 5 {
        '5'
    } else if n == 6 {
        '6'
    } else if n == 7 {
        '7'
    } else if n == 8 {
        '8'
    } else if n == 9 {
        '9'
    } else if n == 10 {
        'a'
    } else if n == 11 {
        'b'
    } else if n == 12 {
        'c'
    } else if n == 13 {
        'd'
    } else if n == 14 {
        'e'
    } else {
        'f'
    }
}

/// Two digits per byte, high nibble first.
pub open spec fn hex_digits(bytes: Seq<u8>) -> Seq<char> {
    Seq::new(
        2 * bytes.len(),
        |i: int|
            if i % 2 == 0 {
                hex_digit(bytes[i / 2] as int / 16)
            } else {
                hex_digit(bytes[i / 2] as int % 16)
            },
    )
}

/// The digits behind the prefix `0x`.
pub open spec fn hex_0x(bytes: Seq<u8>) -> Seq<char> {
    seq!['0', 'x'] + hex_digits(bytes)
}

/// Appends the digit of `n` to `s`.
pub(crate) fn push_hex_digit(s: &mut String, n: u8)
    requires
        n < 16,
    ensures
        final(s)@ == old(s)@.push(hex_digit(n as int)),
{
    proof {
        reveal_strlit("0");
        reveal_strlit("1");
        reveal_strlit("2");
        reveal_strlit("3");
        reveal_strlit("4");
        reveal_strlit("5");
        reveal_strlit("6");
        reveal_strlit("7");
        reveal_strlit("8");
        reveal_strlit("9");
        reveal_strlit("a");
        reveal_strlit("b");
        reveal_strlit("c");
        reveal_strlit("d");
        reveal_strlit("e");
        reveal_strlit("f");
    }
    let digit: &str = if n == 0 {
        "0"
    } else if n == 1 {
        "1"
    } else if n == 2 {
        "2"
    } else if n == 3 {
        "3"
    } else if n == 4 {
        "4"
    } else if n == 5 {
        "5"
    } else if n == 6 {
        "6"
    } else if n == 7 {
        "7"
    } else if n == 8 {
        "8"
    } else if n == 9 {
        "9"
    } else if n == 10 {
        "a"
    } else if n == 11 {
        "b"
    } else if n == 12 {
        "c"
    } else if n == 13 {
        "d"
    } else if n == 14 {
        "e"
    } else {
        "f"
    };
    assert(digit@ =~= seq![hex_digit(n as int)]);
    s.append(digit);
    assert(s@ =~= old(s)@.push(hex_digit(n as int)));
}

/// Renders `bytes` as `0x` followed by two lower-case digits per byte.
pub fn to_hex_0x(bytes: &[u8]) -> (s: String)
    ensures
        s@ == hex_0x(bytes@),
{
    let mut s = String::from_str("0x");
    proof {
        reveal_strlit("0x");
    }
    assert(s@ =~= seq!['0', 'x']);
    let mut i: usize = 0;
    while i < bytes.len()
        invariant
            i <= bytes.len(),
            s@ == seq!['0', 'x'] + hex_digits(bytes@.subrange(0, i as int)),
        decreases bytes.len() - i,
    {
        let b = bytes[i];
        let ghost before = s@;
        push_hex_digit(&mut s, b / 16);
        push_hex_digit(&mut s, b % 16);
        assert(s@ =~= seq!['0', 'x'] + hex_digits(bytes@.subrange(0, i + 1))) by {
            let shorter = hex_digits(bytes@.subrange(0, i as int));
            let longer = hex_digits(bytes@.subrange(0, i + 1));
            assert(longer.len() == shorter.len() + 2);
            assert forall|j: int| 0 <= j < shorter.len() implies longer[j] == shorter[j] by {
                assert(bytes@.subrange(0, i + 1)[j / 2] == bytes@.subrange(0, i as int)[j / 2]);
            }
            assert(longer[2 * i] == hex_digit(b as int / 16));
            assert(longer[2 * i + 1] == hex_digit(b as int % 16));
        }
        i = i + 1;
    }
    assert(bytes@.subrange(0, i as int) =~= bytes@);
    s
}

} // verus!
