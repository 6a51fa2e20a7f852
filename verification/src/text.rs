//! Decimal and hexadecimal rendering of numbers in messages.
use vstd::prelude::*;
use vstd::string::StringExecFns;

verus! {

/// The lowercase hexadecimal digit of `d` (for `d < 16`).
pub open spec fn hex_digit(d: u64) -> char {
    match d {
        0 => '0',
        1 => '1',
        2 => '2',
        3 => '3',
        4 => '4',
        5 => '5',
        6 => '6',
        7 => '7',
        8 => '8',
        9 => '9',
        10 => 'a',
        11 => 'b',
        12 => 'c',
        13 => 'd',
        14 => 'e',
        15 => 'f',
        _ => '?',
    }
}

/// The decimal digit of `d` (for `d < 10`).
pub open spec fn dec_digit(d: u64) -> char {
    hex_digit(d)
}

/// The last `n` hexadecimal digits of `v`, most significant first (zero padded).
pub open spec fn hex_digits(v: u64, n: nat) -> Seq<char>
    decreases n,
{
    if n == 0 {
        Seq::empty()
    } else {
        hex_digits(v >> 4u64, (n - 1) as nat).push(hex_digit(v & 0xf))
    }
}

/// The decimal digits of `v`, without leading zeros.
pub open spec fn dec_digits(v: u64) -> Seq<char>
    decreases v,
{
    if v < 10 {
        seq![dec_digit(v)]
    } else {
        dec_digits(v / 10).push(dec_digit(v % 10))
    }
}

/// The decimal digits of `v`, padded with zeros on the left to at least `width` digits.
pub open spec fn dec_padded(v: u64, width: nat) -> Seq<char> {
    let d = dec_digits(v);
    if d.len() >= width {
        d
    } else {
        Seq::new((width - d.len()) as nat, |i: int| '0') + d
    }
}

/// The one-digit string of `d`.
pub fn hex_str(d: u64) -> (r: &'static str)
    requires
        d < 16,
    ensures
        r@ == seq![hex_digit(d)],
{
    match d {
        0 => {
            proof {
                reveal_strlit("0");
            }
            "0"
        },
        1 => {
            proof {
                reveal_strlit("1");
            }
            "1"
        },
        2 => {
            proof {
                reveal_strlit("2");
            }
            "2"
        },
        3 => {
            proof {
                reveal_strlit("3");
            }
            "3"
        },
        4 => {
            proof {
                reveal_strlit("4");
            }
            "4"
        },
        5 => {
            proof {
                reveal_strlit("5");
            }
            "5"
        },
        6 => {
            proof {
                reveal_strlit("6");
            }
            "6"
        },
        7 => {
            proof {
                reveal_strlit("7");
            }
            "7"
        },
        8 => {
            proof {
                reveal_strlit("8");
            }
            "8"
        },
        9 => {
            proof {
                reveal_strlit("9");
            }
            "9"
        },
        10 => {
            proof {
                reveal_strlit("a");
            }
            "a"
        },
        11 => {
            proof {
                reveal_strlit("b");
            }
            "b"
        },
        12 => {
            proof {
                reveal_strlit("c");
            }
            "c"
        },
        13 => {
            proof {
                reveal_strlit("d");
            }
            "d"
        },
        14 => {
            proof {
                reveal_strlit("e");
            }
            "e"
        },
        15 => {
            proof {
                reveal_strlit("f");
            }
            "f"
        },
        _ => {
            proof {
                reveal_strlit("f");
            }
            "f"
        },
    }
}

/// Appends the last `n` hexadecimal digits of `v` (zero padded).
pub fn push_hex(s: &mut String, v: u64, n: u32)
    ensures
        final(s)@ == old(s)@ + hex_digits(v, n as nat),
    decreases n,
{
    if n > 0 {
        push_hex(s, v >> 4, n - 1);
        assert(v & 0xf < 16) by (bit_vector);
        s.append(hex_str(v & 0xf));
        assert(old(s)@ + hex_digits(v, n as nat) =~= old(s)@ + hex_digits(v >> 4u64, (n - 1) as nat) + seq![hex_digit(v & 0xf)]);
    } else {
        assert(old(s)@ + hex_digits(v, 0) =~= old(s)@);
    }
}

/// Appends the decimal digits of `v`.
pub fn push_dec(s: &mut String, v: u64)
    ensures
        final(s)@ == old(s)@ + dec_digits(v),
    decreases v,
{
    if v >= 10 {
        push_dec(s, v / 10);
        s.append(hex_str(v % 10));
        assert(old(s)@ + dec_digits(v) =~= old(s)@ + dec_digits(v / 10) + seq![dec_digit(v % 10)]);
    } else {
        s.append(hex_str(v));
    }
}

/// The decimal digits of a signed value, with a leading `-` when negative.
pub open spec fn signed_dec(v: int) -> Seq<char> {
    if v < 0 {
        seq!['-'] + dec_digits((-v) as u64)
    } else {
        dec_digits(v as u64)
    }
}

/// Appends the decimal digits of `v`, with a leading `-` when negative.
pub fn push_signed_dec(s: &mut String, v: i64)
    ensures
        final(s)@ == old(s)@ + signed_dec(v as int),
{
    if v < 0 {
        proof {
            reveal_strlit("-");
        }
        s.append("-");
        let m: u64 = if v == i64::MIN { 0x8000_0000_0000_0000u64 } else { (-v) as u64 };
        push_dec(s, m);
        assert(s@ =~= old(s)@ + signed_dec(v as int));
    } else {
        push_dec(s, v as u64);
    }
}

/// Number of decimal digits of `v`.
fn dec_len(v: u64) -> (r: u64)
    ensures
        r == dec_digits(v).len(),
        1 <= r <= v as int + 1,
    decreases v,
{
    if v >= 10 {
        let r = dec_len(v / 10);
        r + 1
    } else {
        1
    }
}

/// Appends the decimal digits of `v` zero padded to at least `width` digits.
pub fn push_dec_padded(s: &mut String, v: u64, width: usize)
    ensures
        final(s)@ == old(s)@ + dec_padded(v, width as nat),
{
    let n = dec_len(v);
    let w = width as u64;
    let mut k: u64 = n;
    let ghost s0 = s@;
    while k < w
        invariant
            n <= k,
            n == dec_digits(v).len(),
            w == width,
            k <= w || k == n,
            s@ == s0 + Seq::new((k - n) as nat, |i: int| '0'),
        decreases width - k,
    {
        proof {
            reveal_strlit("0");
        }
        s.append("0");
        assert(s@ =~= s0 + Seq::new((k + 1 - n) as nat, |i: int| '0'));
        k = k + 1;
    }
    push_dec(s, v);
    if n >= w {
        assert(s@ =~= s0 + dec_padded(v, width as nat));
    } else {
        assert(k == w);
        assert(s@ =~= s0 + dec_padded(v, width as nat));
    }
}

} // verus!
