//! The content hasher: a SHA-256 digest over a canonical textual rendering
//! of a block's fields, shown as lowercase hexadecimal characters.

use vstd::prelude::*;
use vstd::arithmetic::div_mod::lemma_div_decreases;
use sha2::Digest;

verus! {

/// The decimal digit character for `d` (`d < 10`).
pub open spec fn digit_char(d: nat) -> char {
    if d == 0 {
        '0'
    } else if d == 1 {
        '1'
    } else if d == 2 {
        '2'
    } else if d == 3 {
        '3'
    } else if d == 4 {
        '4'
    } else if d == 5 {
        '5'
    } else if d == 6 {
        '6'
    } else if d == 7 {
        '7'
    } else if d == 8 {
        '8'
    } else {
        '9'
    }
}

/// The decimal rendering of `n`, most significant digit first.
pub open spec fn dec_str(n: nat) -> Seq<char>
    decreases n,
{
    if n < 10 {
        seq![digit_char(n)]
    } else {
        dec_str(n / 10) + seq![digit_char(n % 10)]
    }
}

/// The lowercase hexadecimal digit character for `d` (`d < 16`).
pub open spec fn hex_digit(d: nat) -> char {
    if d < 10 {
        digit_char(d)
    } else if d == 10 {
        'a'
    } else if d == 11 {
        'b'
    } else if d == 12 {
        'c'
    } else if d == 13 {
        'd'
    } else if d == 14 {
        'e'
    } else {
        'f'
    }
}

/// The lowercase hexadecimal rendering of a byte sequence, two characters
/// per byte, high nibble first.
pub open spec fn hex_of(s: Seq<u8>) -> Seq<char>
    decreases s.len(),
{
    if s.len() == 0 {
        Seq::empty()
    } else {
        hex_of(s.drop_last()) + seq![
            hex_digit((s.last() >> 4) as nat),
            hex_digit((s.last() & 15) as nat),
        ]
    }
}

/// The hexadecimal rendering is exactly twice as long as its input.
pub proof fn lemma_hex_len(s: Seq<u8>)
    ensures
        hex_of(s).len() == 2 * s.len(),
    decreases s.len(),
{
    if s.len() > 0 {
        lemma_hex_len(s.drop_last());
    }
}

/// The SHA-256 digest of the UTF-8 bytes of a character sequence. The digest
/// itself is left unspecified: it is a pure function of its input, and the
/// library never relies on any other property of it.
pub uninterp spec fn sha256_of(input: Seq<char>) -> Seq<u8>;

/// Relies on `sha2::Sha256` (`Digest::update` / `Digest::finalize`): the
/// digest is a pure function of the input bytes, and is 32 bytes long.
#[verifier::external_body]
fn sha256_digest(input: &str) -> (r: Vec<u8>)
    ensures
        r@ == sha256_of(input@),
        r@.len() == 32,
{
    let mut hasher = sha2::Sha256::new();
    hasher.update(input.as_bytes());
    hasher.finalize().to_vec()
}

/// A one-character string slice holding the decimal digit for `d`.
fn digit_slice(d: u64) -> (r: &'static str)
    requires
        d < 10,
    ensures
        r@ == seq![digit_char(d as nat)],
{
    match d {
        0 => {
            let s = "0";
            proof {
                reveal_strlit("0");
                assert(s@ =~= seq![digit_char(0)]);
            }
            s
        },
        1 => {
            let s = "1";
            proof {
                reveal_strlit("1");
                assert(s@ =~= seq![digit_char(1)]);
            }
            s
        },
        2 => {
            let s = "2";
            proof {
                reveal_strlit("2");
                assert(s@ =~= seq![digit_char(2)]);
            }
            s
        },
        3 => {
            let s = "3";
            proof {
                reveal_strlit("3");
                assert(s@ =~= seq![digit_char(3)]);
            }
            s
        },
        4 => {
            let s = "4";
            proof {
                reveal_strlit("4");
                assert(s@ =~= seq![digit_char(4)]);
            }
            s
        },
        5 => {
            let s = "5";
            proof {
                reveal_strlit("5");
                assert(s@ =~= seq![digit_char(5)]);
            }
            s
        },
        6 => {
            let s = "6";
            proof {
                reveal_strlit("6");
                assert(s@ =~= seq![digit_char(6)]);
            }
            s
        },
        7 => {
            let s = "7";
            proof {
                reveal_strlit("7");
                assert(s@ =~= seq![digit_char(7)]);
            }
            s
        },
        8 => {
            let s = "8";
            proof {
                reveal_strlit("8");
                assert(s@ =~= seq![digit_char(8)]);
            }
            s
        },
        _ => {
            let s = "9";
            proof {
                reveal_strlit("9");
                assert(s@ =~= seq![digit_char(9)]);
            }
            s
        },
    }
}

/// A one-character string slice holding the lowercase hexadecimal digit for `d`.
fn nibble_slice(d: u8) -> (r: &'static str)
    requires
        d < 16,
    ensures
        r@ == seq![hex_digit(d as nat)],
{
    if d < 10 {
        digit_slice(d as u64)
    } else {
        match d {
            10 => {
                let s = "a";
                proof {
                    reveal_strlit("a");
                    assert(s@ =~= seq![hex_digit(10)]);
                }
                s
            },
            11 => {
                let s = "b";
                proof {
                    reveal_strlit("b");
                    assert(s@ =~= seq![hex_digit(11)]);
                }
                s
            },
            12 => {
                let s = "c";
                proof {
                    reveal_strlit("c");
                    assert(s@ =~= seq![hex_digit(12)]);
                }
                s
            },
            13 => {
                let s = "d";
                proof {
                    reveal_strlit("d");
                    assert(s@ =~= seq![hex_digit(13)]);
                }
                s
            },
            14 => {
                let s = "e";
                proof {
                    reveal_strlit("e");
                    assert(s@ =~= seq![hex_digit(14)]);
                }
                s
            },
            _ => {
                let s = "f";
                proof {
                    reveal_strlit("f");
                    assert(s@ =~= seq![hex_digit(15)]);
                }
                s
            },
        }
    }
}

/// Renders `n` in decimal.
pub fn u64_to_dec(n: u64) -> (r: String)
    ensures
        r@ == dec_str(n as nat),
    decreases n,
{
    if n < 10 {
        String::from_str(digit_slice(n))
    } else {
        proof {
            lemma_div_decreases(n as int, 10);
        }
        let mut s = u64_to_dec(n / 10);
        s.append(digit_slice(n % 10));
        s
    }
}

/// Renders a byte vector as lowercase hexadecimal.
pub fn bytes_to_hex(bytes: &Vec<u8>) -> (r: String)
    ensures
        r@ == hex_of(bytes@),
{
    let mut s = String::new();
    let mut i: usize = 0;
    while i < bytes.len()
        invariant
            i <= bytes@.len(),
            s@ == hex_of(bytes@.take(i as int)),
        decreases bytes@.len() - i,
    {
        let b = bytes[i];
        assert(b >> 4 < 16 && b & 15 < 16) by (bit_vector);
        let hi = b >> 4;
        let lo = b & 15;
        s.append(nibble_slice(hi));
        s.append(nibble_slice(lo));
        proof {
            let pre = bytes@.take(i as int);
            let cur = bytes@.take(i + 1);
            assert(cur.drop_last() =~= pre);
            assert(cur.last() == bytes@[i as int]);
            assert(s@ =~= hex_of(cur));
        }
        i = i + 1;
    }
    proof {
        assert(bytes@.take(bytes@.len() as int) =~= bytes@);
    }
    s
}

/// The library's content hash: the SHA-256 digest of `input`, rendered as
/// 64 lowercase hexadecimal characters.
pub open spec fn sha256_hex_of(input: Seq<char>) -> Seq<char> {
    hex_of(sha256_of(input))
}

/// Computes the content hash of `input`.
pub fn sha256_hex(input: &str) -> (r: String)
    ensures
        r@ == sha256_hex_of(input@),
        r@.len() == 64,
{
    let digest = sha256_digest(input);
    proof {
        lemma_hex_len(digest@);
    }
    bytes_to_hex(&digest)
}

/// Whether the first `d` characters of `s` exist and are all `'0'`: the
/// proof-of-work difficulty predicate.
pub open spec fn zero_prefix(s: Seq<char>, d: nat) -> bool {
    &&& d <= s.len()
    &&& forall|i: int| 0 <= i < d ==> s[i] == '0'
}

/// Decides the difficulty predicate on a string.
pub fn has_zero_prefix(s: &str, d: usize) -> (r: bool)
    ensures
        r == zero_prefix(s@, d as nat),
{
    let n = s.unicode_len();
    if n < d {
        return false;
    }
    let mut i: usize = 0;
    while i < d
        invariant
            i <= d,
            d <= s@.len(),
            forall|j: int| 0 <= j < i ==> s@[j] == '0',
        decreases d - i,
    {
        if s.get_char(i) != '0' {
            return false;
        }
        i = i + 1;
    }
    true
}

} // verus!
