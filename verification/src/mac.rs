//! Hardware addresses and their written form.

use vstd::prelude::*;

use crate::text;

verus! {

/// The character for a digit below sixteen, letters small.
pub open spec fn hex_char(d: int) -> char {
    if d < 10 {
        (48 + d) as char
    } else {
        (87 + d) as char
    }
}

/// The digit that a character stands for, if any; letters may be small or capital.
pub open spec fn hex_digit(c: char) -> Option<int> {
    let n = c as int;
    if 48 <= n <= 57 {
        Some(n - 48)
    } else if 97 <= n <= 102 {
        Some(n - 87)
    } else if 65 <= n <= 70 {
        Some(n - 55)
    } else {
        None
    }
}

/// The written form of an address: six pairs of digits with colons between them.
pub open spec fn mac_text(m: Seq<u8>) -> Seq<char> {
    Seq::new(
        17,
        |j: int|
            if j % 3 == 2 {
                ':'
            } else if j % 3 == 0 {
                hex_char(m[j / 3] as int / 16)
            } else {
                hex_char(m[j / 3] as int % 16)
            },
    )
}

/// Whether a text is the written form of an address.
pub open spec fn is_mac_text(s: Seq<char>) -> bool {
    &&& s.len() == 17
    &&& forall|j: int|
        0 <= j < 17 ==> if j % 3 == 2 {
            #[trigger] s[j] == ':'
        } else {
            hex_digit(s[j]) is Some
        }
}

/// The address that a text is the written form of.
pub open spec fn mac_of(s: Seq<char>) -> Option<Seq<u8>> {
    if is_mac_text(s) {
        Some(
            Seq::new(
                6,
                |i: int| (16 * hex_digit(s[3 * i]).unwrap() + hex_digit(s[3 * i + 1]).unwrap()) as u8,
            ),
        )
    } else {
        None
    }
}

/// A text that is not the written form of an address.
#[derive(Debug, Clone, Copy, PartialEq, Eq, Structural)]
pub struct MacError;

fn digit_char(d: u8) -> (c: char)
    requires
        d < 16,
    ensures
        c == hex_char(d as int),
{
    if d < 10 {
        (48 + d) as char
    } else {
        (87 + d) as char
    }
}

/// The digit that a character stands for, if any.
pub fn char_digit(c: char) -> (r: Option<u8>)
    ensures
        match r {
            Some(d) => d < 16 && hex_digit(c) == Some(d as int),
            None => hex_digit(c) is None,
        },
{
    let n: u32 = c as u32;
    if 48 <= n && n <= 57 {
        Some((n - 48) as u8)
    } else if 97 <= n && n <= 102 {
        Some((n - 87) as u8)
    } else if 65 <= n && n <= 70 {
        Some((n - 55) as u8)
    } else {
        None
    }
}

/// The written form of an address.
pub fn to_string(m: &[u8; 6]) -> (r: String)
    ensures
        r@ == mac_text(m@),
{
    let mut r = String::new();
    for i in 0..6usize
        invariant
            r@ == mac_text(m@).take(if i == 0 {
                0
            } else {
                3 * i - 1
            }),
    {
        let ghost before = r@;
        if i > 0 {
            r.push(':');
            assert(r@ =~= mac_text(m@).take(3 * i));
        }
        let hi: u8 = m[i] / 16;
        let lo: u8 = m[i] % 16;
        r.push(digit_char(hi));
        assert((3 * i) / 3 == i && (3 * i) % 3 == 0 && (3 * i + 1) / 3 == i && (3 * i + 1) % 3 == 1);
        assert(r@ =~= mac_text(m@).take(3 * i + 1));
        r.push(digit_char(lo));
        assert(r@ =~= mac_text(m@).take(3 * i + 2));
    }
    assert(mac_text(m@).take(17) =~= mac_text(m@));
    r
}

/// The address that a text is the written form of.
pub fn from_str(s: &str) -> (r: Result<[u8; 6], MacError>)
    ensures
        match r {
            Ok(m) => mac_of(s@) == Some(m@),
            Err(_) => mac_of(s@) is None,
        },
{
    let v = text::chars_of(s);
    if v.len() != 17 {
        return Err(MacError);
    }
    let mut m: [u8; 6] = [0, 0, 0, 0, 0, 0];
    for i in 0..6usize
        invariant
            v@ == s@,
            v@.len() == 17,
            forall|j: int|
                0 <= j < 3 * i - 1 ==> if j % 3 == 2 {
                    #[trigger] s@[j] == ':'
                } else {
                    hex_digit(s@[j]) is Some
                },
            forall|n: int|
                0 <= n < i ==> #[trigger] m@[n] == (16 * hex_digit(s@[3 * n]).unwrap() + hex_digit(
                    s@[3 * n + 1],
                ).unwrap()) as u8,
    {
        if i > 0 && v[3 * i - 1] != ':' {
            assert((3 * i - 1) % 3 == 2);
            assert(s@[3 * i - 1] != ':');
            return Err(MacError);
        }
        assert((3 * i) % 3 == 0 && (3 * i + 1) % 3 == 1 && (3 * i - 1) % 3 == 2);
        let hi = char_digit(v[3 * i]);
        let lo = char_digit(v[3 * i + 1]);
        match (hi, lo) {
            (Some(a), Some(b)) => {
                m[i] = 16 * a + b;
            },
            _ => {
                assert(hex_digit(s@[3 * i]) is None || hex_digit(s@[3 * i + 1]) is None);
                return Err(MacError);
            },
        }
    }
    assert(m@ =~= mac_of(s@).unwrap());
    Ok(m)
}

/// An address is read back from its written form.
pub proof fn lemma_mac_round_trip(m: Seq<u8>)
    requires
        m.len() == 6,
    ensures
        mac_of(mac_text(m)) == Some(m),
{
    let s = mac_text(m);
    assert forall|j: int| 0 <= j < 17 implies if j % 3 == 2 {
        #[trigger] s[j] == ':'
    } else {
        hex_digit(s[j]) is Some
    } by {
        lemma_digit(m[j / 3] / 16);
        lemma_digit(m[j / 3] % 16);
    }
    assert forall|i: int| 0 <= i < 6 implies (16 * hex_digit(s[3 * i]).unwrap() + hex_digit(
        s[3 * i + 1],
    ).unwrap()) as u8 == m[i] by {
        assert((3 * i) / 3 == i && (3 * i) % 3 == 0 && (3 * i + 1) / 3 == i && (3 * i + 1) % 3 == 1);
        lemma_digit(m[i] / 16);
        lemma_digit(m[i] % 16);
    }
    assert(mac_of(s).unwrap() =~= m);
}

proof fn lemma_digit(d: u8)
    requires
        d < 16,
    ensures
        hex_digit(hex_char(d as int)) == Some(d as int),
        hex_char(d as int) != ':',
{
}

/// Texts that agree once case is ignored are read as the same address, or not at all.
pub proof fn lemma_mac_case(s: Seq<char>, t: Seq<char>)
    requires
        text::same_ignoring_case(s, t),
    ensures
        mac_of(s) == mac_of(t),
{
    assert forall|j: int| 0 <= j < s.len() implies hex_digit(#[trigger] s[j]) == hex_digit(t[j]) && (
    s[j] == ':' <==> t[j] == ':') by {
        assert(text::folded(s[j]) == text::folded(t[j]));
    }
    assert(is_mac_text(s) <==> is_mac_text(t)) by {
        assert(is_mac_text(s) ==> is_mac_text(t)) by {
            if is_mac_text(s) {
                assert forall|j: int| 0 <= j < 17 implies if j % 3 == 2 {
                    #[trigger] t[j] == ':'
                } else {
                    hex_digit(t[j]) is Some
                } by {
                    assert(hex_digit(s[j]) == hex_digit(t[j]));
                }
            }
        }
        assert(is_mac_text(t) ==> is_mac_text(s));
    }
    if is_mac_text(s) {
        assert(mac_of(s).unwrap() =~= mac_of(t).unwrap());
    }
}

/// An address is written as six pairs of digits with colons between them, each pair the value of a
/// byte in sixteens and ones, in small letters.
pub proof fn lemma_mac_written(m: Seq<u8>, i: int)
    requires
        m.len() == 6,
        0 <= i < 6,
    ensures
        mac_text(m).len() == 17,
        i < 5 ==> mac_text(m)[3 * i + 2] == ':',
        ({
            let a = mac_text(m)[3 * i] as int;
            let b = mac_text(m)[3 * i + 1] as int;
            let high = if a >= 97 {
                a - 97 + 10
            } else {
                a - 48
            };
            let low = if b >= 97 {
                b - 97 + 10
            } else {
                b - 48
            };
            &&& 48 <= a <= 57 || 97 <= a <= 102
            &&& 48 <= b <= 57 || 97 <= b <= 102
            &&& m[i] == 16 * high + low
        }),
{
    let s = mac_text(m);
    assert((3 * i) / 3 == i && (3 * i) % 3 == 0);
    assert((3 * i + 1) / 3 == i && (3 * i + 1) % 3 == 1);
    assert((3 * i + 2) % 3 == 2);
    assert(s[3 * i] == hex_char(m[i] as int / 16));
    assert(s[3 * i + 1] == hex_char(m[i] as int % 16));
}

} // verus!
