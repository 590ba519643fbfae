//! Human-readable size formatting.
//!
//! A byte count is shown with one decimal digit in the largest binary unit
//! (B, KB, MB, GB, TB) that keeps the value below 1024, capped at TB.  The
//! tenths digit is rounded to nearest, ties to even.

use vstd::prelude::*;

verus! {

pub open spec fn pow1024(k: int) -> int
    decreases k,
{
    if k <= 0 {
        1
    } else {
        1024 * pow1024(k - 1)
    }
}

/// Which unit a size is shown in: 0 = B, 1 = KB, 2 = MB, 3 = GB, 4 = TB.
pub open spec fn unit_index(size: u64) -> int {
    if size < 1024 {
        0
    } else if size < 1048576 {
        1
    } else if size < 1073741824 {
        2
    } else if size < 1099511627776 {
        3
    } else {
        4
    }
}

pub open spec fn unit_suffix(k: int) -> Seq<char> {
    if k == 0 {
        seq!['B']
    } else if k == 1 {
        seq!['K', 'B']
    } else if k == 2 {
        seq!['M', 'B']
    } else if k == 3 {
        seq!['G', 'B']
    } else {
        seq!['T', 'B']
    }
}

/// The shown value in tenths of a unit: size divided by the unit, scaled
/// by ten and rounded to nearest, ties to even.
pub open spec fn rounded_tenths(size: u64) -> int {
    let d = pow1024(unit_index(size));
    let q = (size as int * 10) / d;
    let r = (size as int * 10) % d;
    if 2 * r > d || (2 * r == d && q % 2 == 1) {
        q + 1
    } else {
        q
    }
}

pub open spec fn digit_char(d: int) -> char {
    if d == 0 {
        '0'
    } else if d == 1 {
        '1'
    } else if d == 2 {
        '2'
    } else if d == 3 {
        '3'
    } else if d == 4 {
        '4'
    } else if d == 5 {
        '5'
    } else if d == 6 {
        '6'
    } else if d == 7 {
        '7'
    } else if d == 8 {
        '8'
    } else {
        '9'
    }
}

/// Decimal digits of a non-negative number, most significant first.
pub open spec fn dec_digits(n: int) -> Seq<char>
    decreases n,
{
    if n < 10 {
        seq![digit_char(n)]
    } else {
        dec_digits(n / 10) + seq![digit_char(n % 10)]
    }
}

/// What `format_size` returns: the rounded tenths as "<units>.<tenth>"
/// followed by a space and the unit suffix.
pub open spec fn spec_format_size(size: u64) -> Seq<char> {
    let t = rounded_tenths(size);
    dec_digits(t / 10) + seq!['.'] + seq![digit_char(t % 10)] + seq![' '] + unit_suffix(
        unit_index(size),
    )
}

/// Append one decimal digit.
fn push_digit(s: &mut String, d: u64)
    requires
        d < 10,
    ensures
        final(s)@ == old(s)@ + seq![digit_char(d as int)],
{
    if d == 0 {
        s.append("0");
        proof {
            reveal_strlit("0");
            assert(final(s)@ =~= old(s)@ + seq![digit_char(d as int)]);
        }
    } else if d == 1 {
        s.append("1");
        proof {
            reveal_strlit("1");
            assert(final(s)@ =~= old(s)@ + seq![digit_char(d as int)]);
        }
    } else if d == 2 {
        s.append("2");
        proof {
            reveal_strlit("2");
            assert(final(s)@ =~= old(s)@ + seq![digit_char(d as int)]);
        }
    } else if d == 3 {
        s.append("3");
        proof {
            reveal_strlit("3");
            assert(final(s)@ =~= old(s)@ + seq![digit_char(d as int)]);
        }
    } else if d == 4 {
        s.append("4");
        proof {
            reveal_strlit("4");
            assert(final(s)@ =~= old(s)@ + seq![digit_char(d as int)]);
        }
    } else if d == 5 {
        s.append("5");
        proof {
            reveal_strlit("5");
            assert(final(s)@ =~= old(s)@ + seq![digit_char(d as int)]);
        }
    } else if d == 6 {
        s.append("6");
        proof {
            reveal_strlit("6");
            assert(final(s)@ =~= old(s)@ + seq![digit_char(d as int)]);
        }
    } else if d == 7 {
        s.append("7");
        proof {
            reveal_strlit("7");
            assert(final(s)@ =~= old(s)@ + seq![digit_char(d as int)]);
        }
    } else if d == 8 {
        s.append("8");
        proof {
            reveal_strlit("8");
            assert(final(s)@ =~= old(s)@ + seq![digit_char(d as int)]);
        }
    } else {
        s.append("9");
        proof {
            reveal_strlit("9");
            assert(final(s)@ =~= old(s)@ + seq![digit_char(d as int)]);
        }
    }
}

/// Append the decimal digits of `n`, most significant first.
pub(crate) fn append_decimal(s: &mut String, n: u64)
    ensures
        final(s)@ == old(s)@ + dec_digits(n as int),
    decreases n,
{
    if n >= 10 {
        append_decimal(s, n / 10);
    }
    push_digit(s, n % 10);
    proof {
        if n >= 10 {
            assert(final(s)@ =~= old(s)@ + dec_digits(n as int));
        }
    }
}

/// Format a byte count for display, e.g. 1048576 bytes as "1.0 MB".
pub fn format_size(size: u64) -> (r: String)
    ensures
        r@ == spec_format_size(size),
{
    proof {
        reveal_with_fuel(pow1024, 5);
    }
    let divisor: u64;
    if size < 1024 {
        divisor = 1;
    } else if size < 1048576 {
        divisor = 1024;
    } else if size < 1073741824 {
        divisor = 1048576;
    } else if size < 1099511627776 {
        divisor = 1073741824;
    } else {
        divisor = 1099511627776;
    }
    proof {
        assert(divisor as int == pow1024(unit_index(size)));
    }
    let num: u128 = (size as u128) * 10;
    let den: u128 = divisor as u128;
    let q: u128 = num / den;
    let rem: u128 = num % den;
    proof {
        assert(q as int == (size as int * 10) / (divisor as int));
        assert(rem as int == (size as int * 10) % (divisor as int));
        assert(rem < den);
        // the quotient is small in every branch, so the tenths fit a u64
        if size < 1024 {
            assert(q < 10240);
        } else {
            vstd::arithmetic::div_mod::lemma_div_is_ordered(
                num as int,
                0xffffffffffffffffu64 as int * 10,
                den as int,
            );
            if size < 1048576 {
                vstd::arithmetic::div_mod::lemma_div_is_ordered(
                    num as int,
                    10485750,
                    den as int,
                );
                assert(q <= 10485750int / 1024);
            } else if size < 1073741824 {
                vstd::arithmetic::div_mod::lemma_div_is_ordered(
                    num as int,
                    10737418230,
                    den as int,
                );
                assert(q <= 10737418230int / 1048576);
            } else if size < 1099511627776 {
                vstd::arithmetic::div_mod::lemma_div_is_ordered(
                    num as int,
                    10995116277750,
                    den as int,
                );
                assert(q <= 10995116277750int / 1073741824);
            } else {
                assert(q <= 0xffffffffffffffffu64 as int * 10 / 1099511627776);
            }
        }
    }
    let up: bool = 2 * rem > den || (2 * rem == den && q % 2 == 1);
    let tenths: u64 = if up {
        (q + 1) as u64
    } else {
        q as u64
    };
    proof {
        assert(tenths as int == rounded_tenths(size));
    }
    let mut r = String::new();
    append_decimal(&mut r, tenths / 10);
    r.append(".");
    push_digit(&mut r, tenths % 10);
    r.append(" ");
    if size < 1024 {
        r.append("B");
    } else if size < 1048576 {
        r.append("KB");
    } else if size < 1073741824 {
        r.append("MB");
    } else if size < 1099511627776 {
        r.append("GB");
    } else {
        r.append("TB");
    }
    proof {
        reveal_strlit(".");
        reveal_strlit(" ");
        reveal_strlit("B");
        reveal_strlit("KB");
        reveal_strlit("MB");
        reveal_strlit("GB");
        reveal_strlit("TB");
        assert(r@ =~= spec_format_size(size));
    }
    r
}

} // verus!
