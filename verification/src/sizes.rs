//! Sizes and ages for people to read.
//!
//! A size is shown to one decimal of the largest unit that fits. The shown
//! number is that of double-precision arithmetic: the size is brought to 53
//! significant bits first, and both roundings go to the nearest, ties to even.
use vstd::prelude::*;
use vstd::string::*;

use crate::text;
use crate::time;
use crate::FileTime;

verus! {

/// The quotient rounded to the nearest whole number, a tie to the even one.
pub open spec fn nearest(a: nat, b: nat) -> nat
    recommends
        b > 0,
{
    let q = a / b;
    let r = a % b;
    if 2 * r > b || (2 * r == b && q % 2 == 1) {
        q + 1
    } else {
        q
    }
}

/// The distance of numbers with 53 significant bits near `n`.
pub open spec fn grain(n: nat) -> nat
    decreases n,
{
    if n < 0x20_0000_0000_0000 {
        1
    } else {
        2 * grain(n / 2)
    }
}

/// A number brought to 53 significant bits.
pub open spec fn significant(n: nat) -> nat {
    nearest(n, grain(n)) * grain(n)
}

/// The number of the largest unit that fits, up to a limit.
pub open spec fn unit_of(v: nat, limit: nat) -> nat
    decreases limit,
{
    if limit == 0 || v < 1024 {
        0
    } else {
        1 + unit_of(v / 1024, (limit - 1) as nat)
    }
}

/// The size of a unit in bytes.
pub open spec fn unit_size(u: nat) -> nat
    decreases u,
{
    if u == 0 {
        1
    } else {
        1024 * unit_size((u - 1) as nat)
    }
}

/// A size in tenths of its unit.
pub open spec fn tenths(bytes: nat, limit: nat) -> nat {
    let v = significant(bytes);
    nearest(10 * v, unit_size(unit_of(v, limit)))
}

/// A size with one decimal and a unit's name.
pub open spec fn decimal_text(tenths: nat, unit: Seq<char>) -> Seq<char> {
    text::dec(tenths / 10) + "."@ + text::dec(tenths % 10) + " "@ + unit
}

/// The names of the units of reports.
pub open spec fn short_unit(u: nat) -> Seq<char> {
    if u == 0 {
        "B"@
    } else if u == 1 {
        "KB"@
    } else if u == 2 {
        "MB"@
    } else if u == 3 {
        "GB"@
    } else if u == 4 {
        "TB"@
    } else {
        "PB"@
    }
}

/// The names of the units on screen.
pub open spec fn long_unit(u: nat) -> Seq<char> {
    if u == 0 {
        "B"@
    } else if u == 1 {
        "KiB"@
    } else if u == 2 {
        "MiB"@
    } else if u == 3 {
        "GiB"@
    } else {
        "TiB"@
    }
}

/// A size as reports show it: `512 B`, `1.5 MB`.
pub open spec fn human_text(bytes: nat) -> Seq<char> {
    if bytes < 1024 {
        text::dec(bytes) + " B"@
    } else {
        decimal_text(tenths(bytes, 5), short_unit(unit_of(significant(bytes), 5)))
    }
}

/// A size as the screen shows it: `512 B`, `1.5 MiB`.
pub open spec fn bytes_text(bytes: nat) -> Seq<char> {
    if bytes < 1024 {
        text::dec(bytes) + " B"@
    } else {
        decimal_text(tenths(bytes, 4), long_unit(unit_of(significant(bytes), 4)))
    }
}

fn nearest_of(a: u128, b: u128) -> (r: u128)
    requires
        0 < b <= 0x4_0000_0000_0000,
        a <= 0x1000_0000_0000_0000_0000,
    ensures
        r == nearest(a as nat, b as nat),
        r <= a / b + 1,
{
    let q: u128 = a / b;
    let r: u128 = a % b;
    proof {
        assert(a / b <= a) by (nonlinear_arith)
            requires
                b > 0,
        ;
    }
    if 2 * r > b || (2 * r == b && q % 2 == 1) {
        q + 1
    } else {
        q
    }
}

fn grain_of(n: u64) -> (g: u64)
    ensures
        g == grain(n as nat),
        1 <= g <= 4096,
        g == 1 || g * 0x10_0000_0000_0000 <= n,
    decreases n,
{
    if n < 0x20_0000_0000_0000 {
        1
    } else {
        let half: u64 = grain_of(n / 2);
        2 * half
    }
}

proof fn lemma_significant(n: nat, g: nat)
    requires
        0 < g <= 4096,
        n <= u64::MAX,
        g == 1 || g * 0x10_0000_0000_0000 <= n,
    ensures
        nearest(n, g) * g <= u64::MAX + 4096,
        n < 1024 ==> g == 1,
        n >= 1024 ==> nearest(n, g) * g >= 1024,
{
    let q = n / g;
    assert(q * g <= n && (q + 1) * g <= n + g && n < (q + 1) * g) by (nonlinear_arith)
        requires
            q == n / g,
            g > 0,
    ;
    if g == 1 {
        assert(n % 1 == 0);
        assert(nearest(n, 1) == n);
        assert(n * 1 == n);
    } else {
        assert(nearest(n, g) == q || nearest(n, g) == q + 1);
        assert(q * g <= (q + 1) * g) by (nonlinear_arith)
            requires
                g > 0,
        ;
        assert(q * g > n - g) by (nonlinear_arith)
            requires
                n < (q + 1) * g,
        ;
    }
}

/// A number brought to 53 significant bits.
fn significant_of(n: u64) -> (v: u128)
    ensures
        v == significant(n as nat),
        v <= u64::MAX + 4096,
        n >= 1024 ==> v >= 1024,
{
    let g: u64 = grain_of(n);
    let q: u128 = nearest_of(n as u128, g as u128);
    proof {
        lemma_significant(n as nat, g as nat);
        assert(0 <= q * (g as u128) <= u64::MAX + 4096);
    }
    q * (g as u128)
}

/// The largest unit that fits, and its size.
fn scale_of(v: u128, limit: u8) -> (r: (u8, u128))
    requires
        limit <= 5,
        v <= u64::MAX + 4096,
    ensures
        r.0 == unit_of(v as nat, limit as nat),
        r.0 <= limit,
        r.1 == unit_size(r.0 as nat),
        0 < r.1 <= 0x4_0000_0000_0000,
        v >= 1024 && limit > 0 ==> r.0 > 0,
    decreases limit,
{
    if limit == 0 || v < 1024 {
        return (0, 1);
    }
    let (u, size): (u8, u128) = scale_of(v / 1024, limit - 1);
    proof {
        lemma_unit_sizes();
        assert(unit_size((u + 1) as nat) == 1024 * unit_size(u as nat));
    }
    (u + 1, 1024 * size)
}

proof fn lemma_unit_sizes()
    ensures
        unit_size(0) == 1,
        unit_size(1) == 0x400,
        unit_size(2) == 0x10_0000,
        unit_size(3) == 0x4000_0000,
        unit_size(4) == 0x100_0000_0000,
        unit_size(5) == 0x4_0000_0000_0000,
{
    assert(unit_size(0) == 1);
    assert(unit_size(1) == 1024 * unit_size(0));
    assert(unit_size(2) == 1024 * unit_size(1));
    assert(unit_size(3) == 1024 * unit_size(2));
    assert(unit_size(4) == 1024 * unit_size(3));
    assert(unit_size(5) == 1024 * unit_size(4));
}

fn push_tenths(s: &mut String, tenths: u64, unit: &str)
    ensures
        final(s)@ == old(s)@ + decimal_text(tenths as nat, unit@),
{
    let ghost before = s@;
    text::push_decimal(s, tenths / 10);
    s.append(".");
    text::push_decimal(s, tenths % 10);
    s.append(" ");
    s.append(unit);
    proof {
        assert(s@ =~= before + decimal_text(tenths as nat, unit@));
    }
}

/// A size in tenths of its unit, and the unit.
fn tenths_of(bytes: u64, limit: u8) -> (r: (u64, u8))
    requires
        bytes >= 1024,
        0 < limit <= 5,
    ensures
        r.0 == tenths(bytes as nat, limit as nat),
        r.1 == unit_of(significant(bytes as nat), limit as nat),
        0 < r.1 <= limit,
{
    let v: u128 = significant_of(bytes);
    let (u, size): (u8, u128) = scale_of(v, limit);
    let t: u128 = nearest_of(10 * v, size);
    proof {
        lemma_unit_sizes();
        assert(size >= 1024) by {
            assert(u == 1 || u == 2 || u == 3 || u == 4 || u == 5);
        }
        assert((10 * v) / (size as int) <= (10 * v) / 1024) by (nonlinear_arith)
            requires
                size >= 1024,
                v >= 0,
        ;
    }
    (t as u64, u)
}

fn plain_bytes(bytes: u64) -> (s: String)
    ensures
        s@ == text::dec(bytes as nat) + " B"@,
{
    let mut s: String = String::new();
    text::push_decimal(&mut s, bytes);
    s.append(" B");
    proof {
        assert(s@ =~= text::dec(bytes as nat) + " B"@);
    }
    s
}

/// A size as reports show it: `512 B`, `1.5 MB`.
pub fn human_size(bytes: u64) -> (s: String)
    ensures
        s@ == human_text(bytes as nat),
{
    if bytes < 1024 {
        return plain_bytes(bytes);
    }
    let (t, u): (u64, u8) = tenths_of(bytes, 5);
    let unit = if u == 1 {
        "KB"
    } else if u == 2 {
        "MB"
    } else if u == 3 {
        "GB"
    } else if u == 4 {
        "TB"
    } else {
        "PB"
    };
    let mut s: String = String::new();
    push_tenths(&mut s, t, unit);
    proof {
        assert(s@ =~= human_text(bytes as nat));
    }
    s
}

/// A size as the screen shows it: `512 B`, `1.5 MiB`.
pub fn format_bytes(bytes: u64) -> (s: String)
    ensures
        s@ == bytes_text(bytes as nat),
{
    if bytes < 1024 {
        return plain_bytes(bytes);
    }
    let (t, u): (u64, u8) = tenths_of(bytes, 4);
    let unit = if u == 1 {
        "KiB"
    } else if u == 2 {
        "MiB"
    } else if u == 3 {
        "GiB"
    } else {
        "TiB"
    };
    let mut s: String = String::new();
    push_tenths(&mut s, t, unit);
    proof {
        assert(s@ =~= bytes_text(bytes as nat));
    }
    s
}

/// The seconds since 1970 of a file time, rounded towards 1970.
pub open spec fn unix_seconds(ft: FileTime) -> int {
    time::trunc_div(ft - time::UNIX_EPOCH_TICKS, time::TICKS_PER_SECOND as int)
}

fn unix_seconds_of(ft: FileTime) -> (secs: i64)
    ensures
        secs == unix_seconds(ft),
        -1_000_000_000_000 <= secs <= 1_000_000_000_000,
{
    let ticks: i128 = ft as i128 - time::UNIX_EPOCH_TICKS as i128;
    if ticks >= 0 {
        (ticks as u128 / 10_000_000) as i64
    } else {
        let secs: i64 = ((-ticks) as u128 / 10_000_000) as i64;
        -secs
    }
}

/// How many seconds old something is. What lies in the future has age 0.
pub open spec fn seconds_old(now: FileTime, modified: FileTime) -> int {
    let secs = unix_seconds(now) - unix_seconds(modified);
    if secs <= 0 {
        0
    } else {
        secs
    }
}

/// An age in the largest unit that fits: `45s`, `3d`, `2mo`, `1y`.
pub open spec fn age_text(now: FileTime, modified: FileTime) -> Seq<char> {
    let secs = seconds_old(now, modified);
    if secs >= 31_536_000 {
        text::dec((secs / 31_536_000) as nat) + "y"@
    } else if secs >= 2_592_000 {
        text::dec((secs / 2_592_000) as nat) + "mo"@
    } else if secs >= 86_400 {
        text::dec((secs / 86_400) as nat) + "d"@
    } else if secs >= 3_600 {
        text::dec((secs / 3_600) as nat) + "h"@
    } else if secs >= 60 {
        text::dec((secs / 60) as nat) + "m"@
    } else {
        text::dec(secs as nat) + "s"@
    }
}

/// An age in the largest unit that fits.
pub fn age_string(now: FileTime, modified: FileTime) -> (s: String)
    ensures
        s@ == age_text(now, modified),
{
    let a: i64 = unix_seconds_of(now);
    let b: i64 = unix_seconds_of(modified);
    let secs: u64 = if a > b {
        (a - b) as u64
    } else {
        0
    };
    let (n, unit): (u64, &str) = if secs >= 31_536_000 {
        (secs / 31_536_000, "y")
    } else if secs >= 2_592_000 {
        (secs / 2_592_000, "mo")
    } else if secs >= 86_400 {
        (secs / 86_400, "d")
    } else if secs >= 3_600 {
        (secs / 3_600, "h")
    } else if secs >= 60 {
        (secs / 60, "m")
    } else {
        (secs, "s")
    };
    let mut s: String = String::new();
    text::push_decimal(&mut s, n);
    s.append(unit);
    proof {
        assert(s@ =~= age_text(now, modified));
    }
    s
}

/// Whether a text ends with another.
pub open spec fn ends_with(s: Seq<char>, end: Seq<char>) -> bool {
    end.len() <= s.len() && s.skip(s.len() - end.len()) == end
}

/// How many whole units of 1024 a number holds, with the next smaller unit.
proof fn lemma_unit(v: nat, u: nat, limit: nat)
    requires
        u <= limit,
        unit_size(u) <= v,
        u == limit || v < unit_size(u + 1),
    ensures
        unit_of(v, limit) == u,
    decreases limit,
{
    if limit > 0 {
        if u == 0 {
            assert(unit_size(1) == 1024 * unit_size(0));
        } else {
            let w = unit_size((u - 1) as nat);
            lemma_unit_positive((u - 1) as nat);
            assert(unit_size(u) == 1024 * w);
            assert(unit_size(u + 1) == 1024 * unit_size(u));
            assert(v >= 1024);
            assert(v / 1024 >= w);
            assert(u < limit ==> v / 1024 < unit_size(u));
            lemma_unit(v / 1024, (u - 1) as nat, (limit - 1) as nat);
        }
    }
}

proof fn lemma_unit_positive(u: nat)
    ensures
        unit_size(u) >= 1,
    decreases u,
{
    if u > 0 {
        lemma_unit_positive((u - 1) as nat);
    }
}

/// Numbers below 2 to the 53rd are brought to no fewer bits.
proof fn lemma_whole(n: nat)
    requires
        n < 0x20_0000_0000_0000,
    ensures
        significant(n) == n,
{
    assert(grain(n) == 1);
    assert(nearest(n, 1) == n) by {
        assert(n / 1 == n && n % 1 == 0) by (nonlinear_arith);
    }
    assert(n * 1 == n) by (nonlinear_arith);
}

proof fn lemma_ends(t: nat, unit: Seq<char>, end: Seq<char>)
    requires
        end == " "@ + unit,
    ensures
        ends_with(decimal_text(t, unit), end),
{
    let s = decimal_text(t, unit);
    let head = text::dec(t / 10) + "."@ + text::dec(t % 10);
    assert(s =~= head + end);
    assert(s.skip(head.len() as int) =~= end);
}

/// The unit that a report shows fits the size: plain bytes below 1024, then `KB`,
/// `MB`, `GB`, `TB` and `PB`, each from 1024 of the one before.
pub proof fn law_report_units(n: nat)
    requires
        n < 0x20_0000_0000_0000,
    ensures
        n < 1024 ==> human_text(n) == text::dec(n) + " B"@,
        1024 <= n < 1024 * 1024 ==> ends_with(human_text(n), " KB"@),
        1024 * 1024 <= n < 1024 * 1024 * 1024 ==> ends_with(human_text(n), " MB"@),
        1024 * 1024 * 1024 <= n < 1024 * 1024 * 1024 * 1024 ==> ends_with(human_text(n), " GB"@),
        1024 * 1024 * 1024 * 1024 <= n < 1024 * 1024 * 1024 * 1024 * 1024 ==> ends_with(
            human_text(n),
            " TB"@,
        ),
        1024 * 1024 * 1024 * 1024 * 1024 <= n ==> ends_with(human_text(n), " PB"@),
{
    lemma_whole(n);
    lemma_unit_values();
    reveal_strlit(" ");
    reveal_strlit("KB");
    reveal_strlit("MB");
    reveal_strlit("GB");
    reveal_strlit("TB");
    reveal_strlit("PB");
    reveal_strlit(" KB");
    reveal_strlit(" MB");
    reveal_strlit(" GB");
    reveal_strlit(" TB");
    reveal_strlit(" PB");
    let t = tenths(n, 5);
    if 1024 <= n < 0x10_0000 {
        lemma_unit(n, 1, 5);
        assert(" KB"@ =~= " "@ + "KB"@);
        lemma_ends(t, "KB"@, " KB"@);
    } else if 0x10_0000 <= n < 0x4000_0000 {
        lemma_unit(n, 2, 5);
        assert(" MB"@ =~= " "@ + "MB"@);
        lemma_ends(t, "MB"@, " MB"@);
    } else if 0x4000_0000 <= n < 0x100_0000_0000 {
        lemma_unit(n, 3, 5);
        assert(" GB"@ =~= " "@ + "GB"@);
        lemma_ends(t, "GB"@, " GB"@);
    } else if 0x100_0000_0000 <= n < 0x4_0000_0000_0000 {
        lemma_unit(n, 4, 5);
        assert(" TB"@ =~= " "@ + "TB"@);
        lemma_ends(t, "TB"@, " TB"@);
    } else if 0x4_0000_0000_0000 <= n {
        lemma_unit(n, 5, 5);
        assert(" PB"@ =~= " "@ + "PB"@);
        lemma_ends(t, "PB"@, " PB"@);
    }
}

/// The unit that the screen shows fits the size: plain bytes below 1024, then
/// `KiB`, `MiB`, `GiB` and `TiB`, each from 1024 of the one before.
pub proof fn law_screen_units(n: nat)
    requires
        n < 0x20_0000_0000_0000,
    ensures
        n < 1024 ==> bytes_text(n) == text::dec(n) + " B"@,
        1024 <= n < 1024 * 1024 ==> ends_with(bytes_text(n), " KiB"@),
        1024 * 1024 <= n < 1024 * 1024 * 1024 ==> ends_with(bytes_text(n), " MiB"@),
        1024 * 1024 * 1024 <= n < 1024 * 1024 * 1024 * 1024 ==> ends_with(bytes_text(n), " GiB"@),
        1024 * 1024 * 1024 * 1024 <= n ==> ends_with(bytes_text(n), " TiB"@),
{
    lemma_whole(n);
    lemma_unit_values();
    reveal_strlit(" ");
    reveal_strlit("KiB");
    reveal_strlit("MiB");
    reveal_strlit("GiB");
    reveal_strlit("TiB");
    reveal_strlit(" KiB");
    reveal_strlit(" MiB");
    reveal_strlit(" GiB");
    reveal_strlit(" TiB");
    let t = tenths(n, 4);
    if 1024 <= n < 0x10_0000 {
        lemma_unit(n, 1, 4);
        assert(" KiB"@ =~= " "@ + "KiB"@);
        lemma_ends(t, "KiB"@, " KiB"@);
    } else if 0x10_0000 <= n < 0x4000_0000 {
        lemma_unit(n, 2, 4);
        assert(" MiB"@ =~= " "@ + "MiB"@);
        lemma_ends(t, "MiB"@, " MiB"@);
    } else if 0x4000_0000 <= n < 0x100_0000_0000 {
        lemma_unit(n, 3, 4);
        assert(" GiB"@ =~= " "@ + "GiB"@);
        lemma_ends(t, "GiB"@, " GiB"@);
    } else if 0x100_0000_0000 <= n {
        lemma_unit(n, 4, 4);
        assert(" TiB"@ =~= " "@ + "TiB"@);
        lemma_ends(t, "TiB"@, " TiB"@);
    }
}

proof fn lemma_unit_values()
    ensures
        unit_size(0) == 1,
        unit_size(1) == 1024,
        unit_size(2) == 0x10_0000,
        unit_size(3) == 0x4000_0000,
        unit_size(4) == 0x100_0000_0000,
        unit_size(5) == 0x4_0000_0000_0000,
{
    assert(unit_size(0) == 1);
    assert(unit_size(1) == 1024 * unit_size(0));
    assert(unit_size(2) == 1024 * unit_size(1));
    assert(unit_size(3) == 1024 * unit_size(2));
    assert(unit_size(4) == 1024 * unit_size(3));
    assert(unit_size(5) == 1024 * unit_size(4));
}

/// The number that a size text shows before its unit differs from the size by at
/// most a twentieth of the unit, and sizes that are whole tenths are shown exactly:
/// it is written with one decimal after a point.
pub proof fn law_shown_number(n: nat, u: nat, limit: nat)
    requires
        1 <= u <= limit <= 5,
        unit_size(u) <= n < 0x20_0000_0000_0000,
        u == limit || n < unit_size(u + 1),
    ensures
        2 * tenths(n, limit) * unit_size(u) <= 20 * n + unit_size(u),
        20 * n <= 2 * tenths(n, limit) * unit_size(u) + unit_size(u),
        limit == 5 ==> human_text(n) == text::dec(tenths(n, limit) / 10) + "."@ + text::dec(
            tenths(n, limit) % 10,
        ) + " "@ + short_unit(u),
        limit == 4 ==> bytes_text(n) == text::dec(tenths(n, limit) / 10) + "."@ + text::dec(
            tenths(n, limit) % 10,
        ) + " "@ + long_unit(u),
{
    lemma_whole(n);
    lemma_unit(n, u, limit);
    lemma_unit_values();
    lemma_unit_positive(u);
    assert(unit_size(u) >= 1024) by {
        assert(unit_size(u) == 1024 * unit_size((u - 1) as nat));
        lemma_unit_positive((u - 1) as nat);
    }
    let b = unit_size(u);
    let a = 10 * n;
    let q = a / b;
    let r = a % b;
    assert(a == q * b + r && r < b) by (nonlinear_arith)
        requires
            b > 0,
            q == a / b,
            r == a % b,
    ;
    let t = tenths(n, limit);
    assert(t == q || t == q + 1);
    assert((q + 1) * b == q * b + b) by (nonlinear_arith);
    assert(2 * t * b == 2 * (t * b)) by (nonlinear_arith);
}

/// An age is shown in the largest of seconds, minutes, hours, days, months of 30
/// days and years of 365 days that fits at least once.
pub proof fn law_age_units(now: FileTime, modified: FileTime)
    requires
        modified <= now,
        modified >= 116_444_736_000_000_000,
    ensures
        ({
            let secs = (now - 116_444_736_000_000_000) / 10_000_000 - (modified
                - 116_444_736_000_000_000) / 10_000_000;
            &&& secs < 60 ==> age_text(now, modified) == text::dec(secs as nat) + "s"@
            &&& 60 <= secs < 60 * 60 ==> age_text(now, modified) == text::dec((secs / 60) as nat)
                + "m"@
            &&& 60 * 60 <= secs < 24 * 60 * 60 ==> age_text(now, modified) == text::dec(
                (secs / 3_600) as nat,
            ) + "h"@
            &&& 24 * 60 * 60 <= secs < 30 * 24 * 60 * 60 ==> age_text(now, modified) == text::dec(
                (secs / 86_400) as nat,
            ) + "d"@
            &&& 30 * 24 * 60 * 60 <= secs < 365 * 24 * 60 * 60 ==> age_text(now, modified)
                == text::dec((secs / 2_592_000) as nat) + "mo"@
            &&& 365 * 24 * 60 * 60 <= secs ==> age_text(now, modified) == text::dec(
                (secs / 31_536_000) as nat,
            ) + "y"@
        }),
{
}

} // verus!
