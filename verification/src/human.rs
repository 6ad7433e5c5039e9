//! Human-readable rendering of byte counts.
//!
//! A count is scaled by the largest power of 1024 that keeps the value
//! at least 1, capped at terabytes.  Plain bytes print as a whole
//! number; every larger unit prints with exactly one decimal digit,
//! obtained by truncation.

use vstd::arithmetic::div_mod::lemma_multiply_divide_lt;
use vstd::prelude::*;
use vstd::string::StringExecFns;

verus! {

/// The decimal digit character for `d` (meaningful for `d < 10`).
pub open spec fn spec_digit(d: nat) -> char {
    if d == 0 {
        '0'
    } else if d == 1 {
        '1'
    } else if d == 2 {
        '2'
    } else if d == 3 {
        '3'
    } else if d == 4 {
        '4'
    } else if d == 5 {
        '5'
    } else if d == 6 {
        '6'
    } else if d == 7 {
        '7'
    } else if d == 8 {
        '8'
    } else {
        '9'
    }
}

/// Decimal rendering of `n`: most significant digit first, no leading
/// zeros, a single `'0'` for zero.
pub open spec fn spec_decimal(n: nat) -> Seq<char>
    decreases n,
{
    if n < 10 {
        seq![spec_digit(n)]
    } else {
        spec_decimal(n / 10).push(spec_digit(n % 10))
    }
}

/// The `k`-th power of 1024.
pub open spec fn pow1024(k: nat) -> nat
    decreases k,
{
    if k == 0 {
        1
    } else {
        1024 * pow1024((k - 1) as nat)
    }
}

/// Index of the unit used for `b` bytes: the number of times `b` can be
/// divided by 1024 while staying at least 1, capped at 4 (terabytes).
pub open spec fn spec_unit_index(b: nat) -> nat {
    if b < pow1024(1) {
        0
    } else if b < pow1024(2) {
        1
    } else if b < pow1024(3) {
        2
    } else if b < pow1024(4) {
        3
    } else {
        4
    }
}

/// The unit suffix printed for unit index `k`, leading space included.
pub open spec fn spec_unit_suffix(k: nat) -> Seq<char> {
    if k == 0 {
        " B"@
    } else if k == 1 {
        " KB"@
    } else if k == 2 {
        " MB"@
    } else if k == 3 {
        " GB"@
    } else {
        " TB"@
    }
}

/// The rendering of `b` bytes: the whole byte count for values under
/// 1024, otherwise the scaled value truncated to one decimal digit,
/// followed by the unit suffix.
pub open spec fn spec_humanize(b: nat) -> Seq<char> {
    let k = spec_unit_index(b);
    if k == 0 {
        spec_decimal(b) + spec_unit_suffix(0)
    } else {
        let tenths = b * 10 / pow1024(k);
        spec_decimal(tenths / 10) + seq!['.'] + seq![spec_digit(tenths % 10)] + spec_unit_suffix(
            k,
        )
    }
}

/// The one-character string for digit `d`.
fn digit_str(d: u64) -> (r: &'static str)
    requires
        d < 10,
    ensures
        r@ == seq![spec_digit(d as nat)],
{
    proof {
        reveal_strlit("0");
        reveal_strlit("1");
        reveal_strlit("2");
        reveal_strlit("3");
        reveal_strlit("4");
        reveal_strlit("5");
        reveal_strlit("6");
        reveal_strlit("7");
        reveal_strlit("8");
        reveal_strlit("9");
    }
    let r = if d == 0 {
        "0"
    } else if d == 1 {
        "1"
    } else if d == 2 {
        "2"
    } else if d == 3 {
        "3"
    } else if d == 4 {
        "4"
    } else if d == 5 {
        "5"
    } else if d == 6 {
        "6"
    } else if d == 7 {
        "7"
    } else if d == 8 {
        "8"
    } else {
        "9"
    };
    proof {
        assert(r@ =~= seq![spec_digit(d as nat)]);
    }
    r
}

/// Renders `n` in decimal.
pub fn decimal_string(n: u64) -> (r: String)
    ensures
        r@ == spec_decimal(n as nat),
    decreases n,
{
    if n < 10 {
        String::from_str(digit_str(n))
    } else {
        let mut s = decimal_string(n / 10);
        s.append(digit_str(n % 10));
        proof {
            assert(s@ =~= spec_decimal(n as nat));
        }
        s
    }
}

/// The unit suffix for unit index `k`.
fn unit_suffix(k: u64) -> (r: &'static str)
    requires
        k <= 4,
    ensures
        r@ == spec_unit_suffix(k as nat),
{
    if k == 0 {
        " B"
    } else if k == 1 {
        " KB"
    } else if k == 2 {
        " MB"
    } else if k == 3 {
        " GB"
    } else {
        " TB"
    }
}

proof fn lemma_pow1024_values()
    ensures
        pow1024(0) == 1,
        pow1024(1) == 1024,
        pow1024(2) == 1048576,
        pow1024(3) == 1073741824,
        pow1024(4) == 1099511627776,
{
    assert(pow1024(0) == 1);
    assert(pow1024(1) == 1024);
    assert(pow1024(2) == 1048576);
    assert(pow1024(3) == 1073741824);
    assert(pow1024(4) == 1099511627776);
}

/// Renders `bytes` as a human-readable size string.
pub fn humanize_bytes(bytes: u64) -> (r: String)
    ensures
        r@ == spec_humanize(bytes as nat),
{
    proof {
        lemma_pow1024_values();
    }
    let k: u64;
    let p: u64;
    if bytes < 1024 {
        k = 0;
        p = 1;
    } else if bytes < 1048576 {
        k = 1;
        p = 1024;
    } else if bytes < 1073741824 {
        k = 2;
        p = 1048576;
    } else if bytes < 1099511627776 {
        k = 3;
        p = 1073741824;
    } else {
        k = 4;
        p = 1099511627776;
    }
    assert(k as nat == spec_unit_index(bytes as nat));
    assert(p as nat == pow1024(k as nat));
    if k == 0 {
        let mut s = decimal_string(bytes);
        s.append(" B");
        proof {
            assert(s@ =~= spec_humanize(bytes as nat));
        }
        s
    } else {
        let wide: u128 = (bytes as u128) * 10 / (p as u128);
        proof {
            let bn: nat = bytes as nat;
            let kn: nat = k as nat;
            if k < 4 {
                assert(pow1024(kn + 1) == 1024 * pow1024(kn));
                assert(bn < 1024 * pow1024(kn));
                assert(bn * 10 < pow1024(kn) * 10240) by (nonlinear_arith)
                    requires
                        bn < 1024 * pow1024(kn),
                ;
                lemma_multiply_divide_lt(bn * 10 as int, p as int, 10240);
            } else {
                assert(bn * 10 < pow1024(4) * 268435456);
                lemma_multiply_divide_lt(bn * 10 as int, p as int, 268435456);
            }
        }
        let tenths: u64 = wide as u64;
        assert(tenths as nat == (bytes as nat) * 10 / pow1024(k as nat));
        let mut s = decimal_string(tenths / 10);
        s.append(".");
        s.append(digit_str(tenths % 10));
        s.append(unit_suffix(k));
        proof {
            reveal_strlit(".");
            assert(s@ =~= spec_humanize(bytes as nat));
        }
        s
    }
}

} // verus!
