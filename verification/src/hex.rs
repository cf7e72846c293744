//! Hex-string helpers for fixtures: a frame captured as text is turned into
//! the byte buffer the decoder works on, and bytes are rendered back as
//! lower-case hex for display. Both directions are specified exactly.

use crate::error::HexError;
use vstd::prelude::*;
use vstd::string::StringExecFns;
use vstd::string::StringSliceAdditionalSpecFns;

verus! {

/// Whether `b` is the ASCII code of a hexadecimal digit (either case).
pub open spec fn is_hex_digit(b: u8) -> bool {
    (48 <= b && b <= 57) || (65 <= b && b <= 70) || (97 <= b && b <= 102)
}

/// The value of the hexadecimal digit with ASCII code `b`.
pub open spec fn hex_digit_val(b: u8) -> int {
    if 48 <= b && b <= 57 {
        b - 48
    } else if 65 <= b && b <= 70 {
        b - 55
    } else {
        b - 87
    }
}

/// Whether every byte of `s` is a hexadecimal digit.
pub open spec fn all_hex(s: Seq<u8>) -> bool {
    forall|i: int| 0 <= i < s.len() ==> is_hex_digit(s[i])
}

/// The bytes encoded by the even-length digit string `s`: each consecutive
/// digit pair becomes one byte, high digit first.
pub open spec fn hex_decoded(s: Seq<u8>) -> Seq<u8> {
    Seq::new(
        (s.len() / 2) as nat,
        |i: int| (hex_digit_val(s[2 * i]) * 16 + hex_digit_val(s[2 * i + 1])) as u8,
    )
}

/// The lower-case hexadecimal digit for a value below 16.
pub open spec fn hex_char_of(v: int) -> char {
    if v == 0 {
        '0'
    } else if v == 1 {
        '1'
    } else if v == 2 {
        '2'
    } else if v == 3 {
        '3'
    } else if v == 4 {
        '4'
    } else if v == 5 {
        '5'
    } else if v == 6 {
        '6'
    } else if v == 7 {
        '7'
    } else if v == 8 {
        '8'
    } else if v == 9 {
        '9'
    } else if v == 10 {
        'a'
    } else if v == 11 {
        'b'
    } else if v == 12 {
        'c'
    } else if v == 13 {
        'd'
    } else if v == 14 {
        'e'
    } else {
        'f'
    }
}

/// The hex rendering of `b`: two lower-case digits per byte, high digit
/// first.
pub open spec fn hex_chars(b: Seq<u8>) -> Seq<char> {
    Seq::new(
        2 * b.len(),
        |i: int|
            if i % 2 == 0 {
                hex_char_of(b[i / 2] as int / 16)
            } else {
                hex_char_of(b[i / 2] as int % 16)
            },
    )
}

/// The value of one hex digit byte, or `None` if `b` is not a hex digit.
fn hex_val(b: u8) -> (r: Option<u8>)
    ensures
        r is Some <==> is_hex_digit(b),
        r matches Some(v) ==> v == hex_digit_val(b),
{
    if 48 <= b && b <= 57 {
        Some(b - 48)
    } else if 65 <= b && b <= 70 {
        Some(b - 55)
    } else if 97 <= b && b <= 102 {
        Some(b - 87)
    } else {
        None
    }
}

/// Decode a hex string into the bytes it spells. The string must have even
/// length and hold only hexadecimal digits (either case); the first offence
/// is reported, an odd length before any digit is examined.
#[verifier::loop_isolation(false)]
pub fn decode_hex(s: &str) -> (r: Result<Vec<u8>, HexError>)
    ensures
        s.spec_bytes().len() % 2 != 0 ==> r == Err::<Vec<u8>, HexError>(HexError::OddLength),
        s.spec_bytes().len() % 2 == 0 && all_hex(s.spec_bytes()) ==> (r matches Ok(v) && v@
            == hex_decoded(s.spec_bytes())),
        s.spec_bytes().len() % 2 == 0 && !all_hex(s.spec_bytes()) ==> (r matches Err(e)
            && e matches HexError::InvalidDigit { offset } && offset < s.spec_bytes().len()
            && !is_hex_digit(s.spec_bytes()[offset as int]) && (forall|j: int|
            0 <= j < offset ==> is_hex_digit(s.spec_bytes()[j]))),
{
    let bytes: &[u8] = s.as_bytes();
    let ghost sb = s.spec_bytes();
    let n: usize = bytes.len();
    if n % 2 != 0 {
        return Err(HexError::OddLength);
    }
    let mut out: Vec<u8> = Vec::new();
    let mut i: usize = 0;
    while i < n
        invariant
            i % 2 == 0,
            i <= n,
            out@.len() == i / 2,
            out@ == hex_decoded(sb).take(i as int / 2),
            forall|j: int| 0 <= j < i ==> is_hex_digit(sb[j]),
        decreases n - i,
    {
        let hi: u8 = match hex_val(bytes[i]) {
            Some(v) => v,
            None => return Err(HexError::InvalidDigit { offset: i }),
        };
        let lo: u8 = match hex_val(bytes[i + 1]) {
            Some(v) => v,
            None => return Err(HexError::InvalidDigit { offset: i + 1 }),
        };
        let byte: u8 = hi * 16 + lo;
        out.push(byte);
        proof {
            assert(hex_decoded(sb)[i as int / 2] == byte);
            assert(hex_decoded(sb).take((i + 2) as int / 2) =~= hex_decoded(sb).take(
                i as int / 2,
            ).push(byte));
        }
        i = i + 2;
    }
    proof {
        assert(hex_decoded(sb).take(n as int / 2) =~= hex_decoded(sb));
    }
    Ok(out)
}

/// The one-character string holding the lower-case hex digit for `v`.
fn digit_str(v: u8) -> (r: &'static str)
    requires
        v < 16,
    ensures
        r@ == seq![hex_char_of(v as int)],
{
    proof {
        reveal_strlit("0");
        reveal_strlit("1");
        reveal_strlit("2");
        reveal_strlit("3");
        reveal_strlit("4");
        reveal_strlit("5");
        reveal_strlit("6");
        reveal_strlit("7");
        reveal_strlit("8");
        reveal_strlit("9");
        reveal_strlit("a");
        reveal_strlit("b");
        reveal_strlit("c");
        reveal_strlit("d");
        reveal_strlit("e");
        reveal_strlit("f");
    }
    let r: &'static str = if v == 0 {
        "0"
    } else if v == 1 {
        "1"
    } else if v == 2 {
        "2"
    } else if v == 3 {
        "3"
    } else if v == 4 {
        "4"
    } else if v == 5 {
        "5"
    } else if v == 6 {
        "6"
    } else if v == 7 {
        "7"
    } else if v == 8 {
        "8"
    } else if v == 9 {
        "9"
    } else if v == 10 {
        "a"
    } else if v == 11 {
        "b"
    } else if v == 12 {
        "c"
    } else if v == 13 {
        "d"
    } else if v == 14 {
        "e"
    } else {
        "f"
    };
    proof {
        assert(r@ =~= seq![hex_char_of(v as int)]);
    }
    r
}

/// Render bytes as lower-case hex, two digits per byte, high digit first.
#[verifier::loop_isolation(false)]
pub fn encode_hex(bytes: &[u8]) -> (r: String)
    ensures
        r@ == hex_chars(bytes@),
{
    let mut out: String = String::new();
    let mut i: usize = 0;
    while i < bytes.len()
        invariant
            i <= bytes@.len(),
            out@ == hex_chars(bytes@).take(2 * i as int),
        decreases bytes@.len() - i,
    {
        let b: u8 = bytes[i];
        let hi: &'static str = digit_str(b / 16);
        let lo: &'static str = digit_str(b % 16);
        out.append(hi);
        out.append(lo);
        proof {
            assert(hex_chars(bytes@)[2 * i as int] == hex_char_of(b as int / 16));
            assert(hex_chars(bytes@)[2 * i as int + 1] == hex_char_of(b as int % 16));
            assert(hex_chars(bytes@).take(2 * (i + 1) as int) =~= hex_chars(bytes@).take(
                2 * i as int,
            ) + seq![hex_char_of(b as int / 16)] + seq![hex_char_of(b as int % 16)]);
        }
        i = i + 1;
    }
    proof {
        assert(hex_chars(bytes@).take(2 * bytes@.len() as int) =~= hex_chars(bytes@));
    }
    out
}

/// A hex digit char, read back as a byte, is a hex digit of the same value.
proof fn lemma_hex_digit_inverse(v: int)
    requires
        0 <= v < 16,
    ensures
        is_hex_digit(hex_char_of(v) as u8),
        hex_digit_val(hex_char_of(v) as u8) == v,
{
}

/// Round trip: rendering bytes as hex digits and decoding those digits (as
/// their ASCII bytes) yields the original bytes.
pub proof fn lemma_hex_round_trip(b: Seq<u8>)
    ensures
        ({
            let bs = Seq::new(hex_chars(b).len(), |i: int| hex_chars(b)[i] as u8);
            &&& bs.len() % 2 == 0
            &&& all_hex(bs)
            &&& hex_decoded(bs) == b
        }),
{
    let bs = Seq::new(hex_chars(b).len(), |i: int| hex_chars(b)[i] as u8);
    assert forall|j: int| 0 <= j < bs.len() implies is_hex_digit(bs[j]) by {
        if j % 2 == 0 {
            lemma_hex_digit_inverse(b[j / 2] as int / 16);
        } else {
            lemma_hex_digit_inverse(b[j / 2] as int % 16);
        }
    }
    assert(hex_decoded(bs) =~= b) by {
        assert forall|i: int| 0 <= i < b.len() implies hex_decoded(bs)[i] == b[i] by {
            lemma_hex_digit_inverse(b[i] as int / 16);
            lemma_hex_digit_inverse(b[i] as int % 16);
            assert(bs[2 * i] == hex_char_of(b[i] as int / 16) as u8);
            assert(bs[2 * i + 1] == hex_char_of(b[i] as int % 16) as u8);
            assert(hex_digit_val(bs[2 * i]) == b[i] as int / 16);
            assert(hex_digit_val(bs[2 * i + 1]) == b[i] as int % 16);
            vstd::arithmetic::div_mod::lemma_fundamental_div_mod(b[i] as int, 16);
        }
    }
}

} // verus!
