//! Sizes as people read them.
use vstd::prelude::*;

verus! {

/// The whole number nearest to `n / d`; of two equally near ones, the even one.
pub open spec fn nearest(n: nat, d: nat) -> nat
    recommends
        d > 0,
{
    let q = n / d;
    let r = n % d;
    if 2 * r < d {
        q
    } else if 2 * r > d {
        q + 1
    } else {
        q + q % 2
    }
}

/// The distance of neighbouring numbers of 53 binary digits where `n` lies.
pub open spec fn spacing(n: nat) -> nat
    decreases n,
{
    if n < 0x20_0000_0000_0000 {
        1
    } else {
        2 * spacing(n / 2)
    }
}

/// The number of 53 binary digits nearest to `n`.
pub open spec fn rounded(n: nat) -> nat {
    nearest(n, spacing(n)) * spacing(n)
}

/// How often `n` can be divided by 1024 before it falls below that, at most five times.
pub open spec fn unit_of(n: nat) -> nat {
    if n < 0x400 {
        0
    } else if n < 0x10_0000 {
        1
    } else if n < 0x4000_0000 {
        2
    } else if n < 0x100_0000_0000 {
        3
    } else if n < 0x4_0000_0000_0000 {
        4
    } else {
        5
    }
}

/// The bytes that one of a unit stands for.
pub open spec fn unit_bytes(unit: nat) -> nat {
    if unit == 0 {
        1
    } else if unit == 1 {
        0x400
    } else if unit == 2 {
        0x10_0000
    } else if unit == 3 {
        0x4000_0000
    } else if unit == 4 {
        0x100_0000_0000
    } else {
        0x4_0000_0000_0000
    }
}

/// What a unit is called.
pub open spec fn unit_name(unit: nat) -> Seq<char> {
    if unit == 0 {
        "B"@
    } else if unit == 1 {
        "KB"@
    } else if unit == 2 {
        "MB"@
    } else if unit == 3 {
        "GB"@
    } else if unit == 4 {
        "TB"@
    } else {
        "PB"@
    }
}

/// A number of tenths with one decimal.
pub open spec fn with_tenths(tenths: nat) -> Seq<char> {
    crate::decimal::decimal(tenths / 10) + "."@ + crate::decimal::decimal(tenths % 10)
}

/// A byte count as people read it: whole bytes below 1024, else one decimal in the
/// largest unit that is not above it.
pub open spec fn human_text(bytes: u64) -> Seq<char> {
    let size = rounded(bytes as nat);
    let unit = unit_of(size);
    if unit == 0 {
        crate::decimal::decimal(bytes as nat) + " "@ + unit_name(0)
    } else {
        with_tenths(nearest(size * 10, unit_bytes(unit))) + " "@ + unit_name(unit)
    }
}

/// The whole number nearest to `n / d`; of two equally near ones, the even one.
fn nearest_to(n: u128, d: u128) -> (r: u128)
    requires
        0 < d <= 0x4_0000_0000_0000,
        n <= 0x2_0000_0000_0000_0000 * 10,
    ensures
        r == nearest(n as nat, d as nat),
        r <= n + 1,
{
    let q: u128 = n / d;
    let r: u128 = n % d;
    assert(q <= n) by (nonlinear_arith)
        requires
            q == n / d,
            d > 0,
            n >= 0,
    ;
    if 2 * r < d {
        q
    } else if 2 * r > d {
        q + 1
    } else {
        q + q % 2
    }
}

/// The distance of neighbouring numbers of 53 binary digits where `n` lies.
fn spacing_at(n: u64) -> (r: u64)
    ensures
        r == spacing(n as nat),
        r >= 1,
        n < 0x20_0000_0000_0000 ==> r == 1,
        n >= 0x20_0000_0000_0000 ==> r * 0x10_0000_0000_0000 <= n,
    decreases n,
{
    if n < 0x20_0000_0000_0000 {
        1
    } else {
        2 * spacing_at(n / 2)
    }
}

/// The number of 53 binary digits nearest to `n`.
fn round_to_53_bits(n: u64) -> (r: u128)
    ensures
        r == rounded(n as nat),
        r <= 0x1_0000_0000_0000_0000 + 0x1000,
{
    let d: u64 = spacing_at(n);
    assert(d <= 0x1000) by (nonlinear_arith)
        requires
            d == 1 || d * 0x10_0000_0000_0000 <= n,
            n <= u64::MAX,
    ;
    let q: u128 = nearest_to(n as u128, d as u128);
    assert(q * d <= n + d) by (nonlinear_arith)
        requires
            q == nearest(n as nat, d as nat),
            d > 0,
    {
        let a = n as int / d as int;
        let b = n as int % d as int;
        vstd::arithmetic::div_mod::lemma_fundamental_div_mod(n as int, d as int);
        assert(q <= a + 1);
        assert(q * d <= (a + 1) * d);
        assert((a + 1) * d == d * a + d);
    }
    assert(q * d <= 0x1_0000_0000_0000_0000 + 0x1000);
    q * (d as u128)
}

/// Format a byte count as a human-readable string, e.g. `1.5 GB`.
pub fn human_size(bytes: u64) -> (r: String)
    ensures
        r@ == human_text(bytes),
{
    let size: u128 = round_to_53_bits(bytes);
    if size < 0x400 {
        let mut out = crate::decimal::decimal_text(bytes);
        out.append(" ");
        out.append("B");
        return out;
    }
    let (per, name): (u128, &str) = if size < 0x10_0000 {
        (0x400, "KB")
    } else if size < 0x4000_0000 {
        (0x10_0000, "MB")
    } else if size < 0x100_0000_0000 {
        (0x4000_0000, "GB")
    } else if size < 0x4_0000_0000_0000 {
        (0x100_0000_0000, "TB")
    } else {
        (0x4_0000_0000_0000, "PB")
    };
    let tenths: u128 = nearest_to(size * 10, per);
    proof {
        let n = (size * 10) as int;
        vstd::arithmetic::div_mod::lemma_fundamental_div_mod(n, per as int);
        let q = n / per as int;
        assert(q <= n / 0x400) by (nonlinear_arith)
            requires
                q == n / per as int,
                per >= 0x400,
                n >= 0,
        ;
    }
    let mut out = crate::decimal::decimal_text((tenths / 10) as u64);
    out.append(".");
    out.append(crate::decimal::decimal_text((tenths % 10) as u64).as_str());
    out.append(" ");
    out.append(name);
    out
}

} // verus!
