//! `0x`-prefixed hexadecimal text, the wire encoding of every numeric
//! and binary field of the RPC surface.
//!
//! Byte strings are printed full-width (two digits per byte); reading
//! accepts an optional `0x` prefix, either case, and an odd number of
//! digits (the first digit is then the low nibble of the first byte).

use vstd::prelude::*;
use crate::error::Error;

verus! {

/// Is `c` the ASCII code of a hexadecimal digit?
pub open spec fn is_hex_digit(c: u8) -> bool {
    (48 <= c <= 57) || (97 <= c <= 102) || (65 <= c <= 70)
}

/// Numeric value of the hexadecimal digit `c`.
pub open spec fn hex_digit_value(c: u8) -> nat {
    if 48 <= c <= 57 {
        (c - 48) as nat
    } else if 97 <= c <= 102 {
        (c - 87) as nat
    } else if 65 <= c <= 70 {
        (c - 55) as nat
    } else {
        0
    }
}

/// Lowercase digit for a nibble value `n < 16`.
pub open spec fn digit_of_nibble(n: u8) -> u8 {
    if n < 10 {
        (48 + n) as u8
    } else {
        (87 + n) as u8
    }
}

/// Full-width lowercase hexadecimal of a byte string, without prefix.
pub open spec fn hex_of_bytes(s: Seq<u8>) -> Seq<u8>
    decreases s.len(),
{
    if s.len() == 0 {
        Seq::empty()
    } else {
        hex_of_bytes(s.drop_last()) + seq![
            digit_of_nibble(s.last() / 16),
            digit_of_nibble(s.last() % 16),
        ]
    }
}

/// Do all characters of `s` spell hexadecimal digits?
pub open spec fn all_hex_digits(s: Seq<u8>) -> bool {
    forall|i: int| 0 <= i < s.len() ==> is_hex_digit(#[trigger] s[i])
}

/// `s` without a leading `0x`, if it has one.
pub open spec fn strip_0x(s: Seq<u8>) -> Seq<u8> {
    if s.len() >= 2 && s[0] == 48 && s[1] == 120 {
        s.skip(2)
    } else {
        s
    }
}

/// The byte string spelled by an even-length digit string.
pub open spec fn bytes_of_hex(s: Seq<u8>) -> Seq<u8>
    decreases s.len(),
{
    if s.len() < 2 {
        Seq::empty()
    } else {
        bytes_of_hex(s.drop_last().drop_last()).push(
            (hex_digit_value(s[s.len() - 2]) * 16 + hex_digit_value(s.last())) as u8,
        )
    }
}

/// Digit string `s` padded with a leading `0` when its length is odd.
pub open spec fn pad_even(s: Seq<u8>) -> Seq<u8> {
    if s.len() % 2 == 1 {
        seq![48u8] + s
    } else {
        s
    }
}

fn hex_digit_of(n: u8) -> (r: u8)
    requires
        n < 16,
    ensures
        r == digit_of_nibble(n),
{
    if n < 10 {
        48 + n
    } else {
        87 + n
    }
}

fn hex_digit_val(c: u8) -> (r: Option<u8>)
    ensures
        r is Some <==> is_hex_digit(c),
        r is Some ==> r->0 == hex_digit_value(c) && r->0 < 16,
{
    if 48 <= c && c <= 57 {
        Some(c - 48)
    } else if 97 <= c && c <= 102 {
        Some(c - 87)
    } else if 65 <= c && c <= 70 {
        Some(c - 55)
    } else {
        None
    }
}

/// Full-width `0x`-prefixed lowercase hexadecimal of a byte string.
pub fn to_hex(data: &[u8]) -> (r: Vec<u8>)
    ensures
        r@ == seq![48u8, 120u8] + hex_of_bytes(data@),
{
    let mut r: Vec<u8> = Vec::new();
    r.push(48);
    r.push(120);
    let mut i: usize = 0;
    while i < data.len()
        invariant
            i <= data.len(),
            r@ == seq![48u8, 120u8] + hex_of_bytes(data@.take(i as int)),
        decreases data.len() - i,
    {
        let b = data[i];
        r.push(hex_digit_of(b / 16));
        r.push(hex_digit_of(b % 16));
        proof {
            assert(data@.take(i + 1).drop_last() =~= data@.take(i as int));
            assert(data@.take(i + 1).last() == data@[i as int]);
        }
        i = i + 1;
    }
    proof {
        assert(data@.take(data@.len() as int) =~= data@);
    }
    r
}

/// Bytes spelled by a hexadecimal string: optional `0x`, either case,
/// odd lengths read as if padded with one leading zero digit.
#[verifier::rlimit(100)]
#[verifier::spinoff_prover]
pub fn read_hex(s: &[u8]) -> (r: Result<Vec<u8>, Error>)
    ensures
        r is Ok <==> all_hex_digits(strip_0x(s@)),
        r is Ok ==> r->Ok_0@ == bytes_of_hex(pad_even(strip_0x(s@))),
        r is Err ==> r->Err_0 == Error::HexError,
{
    let start: usize = if s.len() >= 2 && s[0] == 48 && s[1] == 120 {
        2
    } else {
        0
    };
    let ghost t = strip_0x(s@);
    proof {
        assert(t =~= s@.skip(start as int));
    }

    let mut r: Vec<u8> = Vec::new();
    let odd = (s.len() - start) % 2 == 1;
    let ghost p = pad_even(t);

    let mut i: usize = start;
    // Value of the first (unpaired) digit when the length is odd.
    if odd {
        proof {
            assert(t.len() == s@.len() - start);
            assert(t.len() % 2 == 1);
            assert(p == seq![48u8] + t);
        }
        match hex_digit_val(s[i]) {
            Some(v) => {
                r.push(v);
                proof {
                    let p2 = p.take(2);
                    assert(p2.drop_last().drop_last() =~= Seq::<u8>::empty());
                    assert(p2[0] == p[0] && p[0] == 48u8);
                    assert(hex_digit_value(48) == 0);
                    assert(p2.last() == p[1] && p[1] == t[0]);
                    assert(t[0] == s@[i as int]);
                    assert(bytes_of_hex(p2.drop_last().drop_last()) =~= Seq::<u8>::empty());
                    assert(bytes_of_hex(p2) =~= seq![
                        (hex_digit_value(p2[0]) * 16 + hex_digit_value(p2[1])) as u8,
                    ]);
                    assert(r@ =~= bytes_of_hex(p2));
                }
            },
            None => {
                proof {
                    assert(t[0] == s@[i as int]);
                    assert(!is_hex_digit(t[0]));
                    assert(!all_hex_digits(t));
                }
                return Err(Error::HexError);
            },
        }
        i = i + 1;
    }

    // Invariant ties the bytes built so far to the digits consumed.
    while i < s.len()
        invariant
            start <= i && i - start <= s@.len() - start + 1,
            t == strip_0x(s@),
            t == s@.skip(start as int),
            p == pad_even(t),
            p.len() == if odd { t.len() + 1 } else { t.len() },
            odd == (t.len() % 2 == 1),
            odd ==> i >= start + 1,
            (i - start) % 2 == (if odd { 1int } else { 0int }),
            forall|j: int| start <= j < i && j < s@.len() ==> is_hex_digit(#[trigger] s@[j]),
            r@ == bytes_of_hex(p.take(i - start + if odd { 1int } else { 0int })),
        decreases s.len() - i,
    {
        proof {
            assert((s@.len() - i) % 2 == 0);
            assert(i + 1 < s@.len());
        }
        let hi = match hex_digit_val(s[i]) {
            Some(v) => v,
            None => {
                proof {
                    assert(t[i - start] == s@[i as int]);
                    assert(!all_hex_digits(t));
                }
                return Err(Error::HexError);
            },
        };
        let lo = match hex_digit_val(s[i + 1]) {
            Some(v) => v,
            None => {
                proof {
                    assert(t[i + 1 - start] == s@[i + 1]);
                    assert(!all_hex_digits(t));
                }
                return Err(Error::HexError);
            },
        };
        r.push(hi * 16 + lo);
        proof {
            let k = i - start + if odd { 1int } else { 0int };
            assert(p.take(k + 2).drop_last().drop_last() =~= p.take(k));
            assert(p.take(k + 2).last() == t[i + 1 - start]);
            assert(p.take(k + 2)[k] == t[i - start]);
        }
        i = i + 2;
    }
    proof {
        assert(p.take(p.len() as int) =~= p);
        assert(all_hex_digits(t));
    }
    Ok(r)
}

} // verus!
