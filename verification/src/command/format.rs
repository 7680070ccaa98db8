//! Numbers as they are shown.
use crate::clock::clock_millis;
use crate::text::{decimal, decimal_text, digit};
use vstd::prelude::*;

verus! {

/// The whole number nearest to `n / d`; of two that are equally near, the
/// even one.
pub open spec fn nearest(n: int, d: int) -> int {
    let q = n / d;
    let r = n % d;
    if 2 * r < d || (2 * r == d && q % 2 == 0) {
        q
    } else {
        q + 1
    }
}

/// A number as a double holds it: with 53 significant bits.
pub open spec fn doubled(n: int) -> int {
    if n < 0x20_0000_0000_0000 {
        n
    } else if n < 0x40_0000_0000_0000 {
        nearest(n, 2) * 2
    } else if n < 0x80_0000_0000_0000 {
        nearest(n, 4) * 4
    } else if n < 0x100_0000_0000_0000 {
        nearest(n, 8) * 8
    } else if n < 0x200_0000_0000_0000 {
        nearest(n, 16) * 16
    } else if n < 0x400_0000_0000_0000 {
        nearest(n, 32) * 32
    } else if n < 0x800_0000_0000_0000 {
        nearest(n, 64) * 64
    } else if n < 0x1000_0000_0000_0000 {
        nearest(n, 128) * 128
    } else if n < 0x2000_0000_0000_0000 {
        nearest(n, 256) * 256
    } else if n < 0x4000_0000_0000_0000 {
        nearest(n, 512) * 512
    } else if n < 0x8000_0000_0000_0000 {
        nearest(n, 1024) * 1024
    } else {
        nearest(n, 2048) * 2048
    }
}

/// A count of tenths, as a decimal with one place.
pub open spec fn tenths_text(t: nat) -> Seq<char> {
    decimal_text(t / 10) + "."@ + seq![digit((t % 10) as int)]
}

/// `n / scale`, with one decimal place.
pub open spec fn one_place(n: nat, scale: int) -> Seq<char> {
    tenths_text(nearest(10 * doubled(n as int), scale) as nat)
}

fn nearest_of(n: u128, d: u128) -> (r: u128)
    requires
        0 < d <= 0x1_0000_0000_0000,
        n < 0x1_0000_0000_0000_0000_0000,
    ensures
        r == nearest(n as int, d as int),
        r <= n / d + 1,
{
    let q: u128 = n / d;
    let r: u128 = n % d;
    assert(q <= n) by (nonlinear_arith)
        requires
            q == n / d,
            d > 0,
    ;
    if 2 * r < d || (2 * r == d && q % 2 == 0) {
        q
    } else {
        q + 1
    }
}

fn unit_of(n: u64) -> (u: u64)
    ensures
        0 < u <= 2048,
        n < 0x20_0000_0000_0000 ==> u == 1,
        n >= 0x20_0000_0000_0000 ==> doubled(n as int) == nearest(n as int, u as int) * u,
{
    if n < 0x20_0000_0000_0000 {
        1
    } else if n < 0x40_0000_0000_0000 {
        2
    } else if n < 0x80_0000_0000_0000 {
        4
    } else if n < 0x100_0000_0000_0000 {
        8
    } else if n < 0x200_0000_0000_0000 {
        16
    } else if n < 0x400_0000_0000_0000 {
        32
    } else if n < 0x800_0000_0000_0000 {
        64
    } else if n < 0x1000_0000_0000_0000 {
        128
    } else if n < 0x2000_0000_0000_0000 {
        256
    } else if n < 0x4000_0000_0000_0000 {
        512
    } else if n < 0x8000_0000_0000_0000 {
        1024
    } else {
        2048
    }
}

fn as_double(n: u64) -> (r: u128)
    ensures
        r == doubled(n as int),
        r <= 0x1_0000_0000_0000_0000 + 4096,
{
    if n < 0x20_0000_0000_0000 {
        return n as u128;
    }
    let unit: u64 = unit_of(n);
    let units: u128 = nearest_of(n as u128, unit as u128);
    assert(units * unit <= n + unit) by (nonlinear_arith)
        requires
            units <= n / unit + 1,
            unit > 0,
    ;
    units * unit as u128
}

fn place_words(n: u64, scale: u64) -> (r: String)
    requires
        1024 <= scale <= 0x1_0000_0000_0000,
    ensures
        r@ == one_place(n as nat, scale as int),
{
    let value: u128 = as_double(n);
    let tenths: u128 = nearest_of(10 * value, scale as u128);
    assert(tenths <= 0x400_0000_0000_0000) by (nonlinear_arith)
        requires
            tenths <= (10 * value) / (scale as int) + 1,
            value <= 0x1_0000_0000_0000_0000 + 4096,
            scale >= 1024,
    ;
    let tenths: u64 = tenths as u64;
    let mut r = decimal(tenths / 10);
    r.append(".");
    let last = decimal(tenths % 10);
    r.append(last.as_str());
    assert(decimal_text((tenths % 10) as nat) =~= seq![digit((tenths % 10) as int)]);
    r
}

/// A byte count, in the largest unit of which there is at least one.
pub open spec fn size_text(bytes: nat) -> Seq<char> {
    let value = doubled(bytes as int);
    if value < 1024 {
        decimal_text(bytes) + " B"@
    } else if value < 1048576 {
        one_place(bytes, 1024) + " KB"@
    } else if value < 1073741824 {
        one_place(bytes, 1048576) + " MB"@
    } else if value < 1099511627776 {
        one_place(bytes, 1073741824) + " GB"@
    } else {
        one_place(bytes, 1099511627776) + " TB"@
    }
}

/// A byte count for display.
pub fn format_size(bytes: u64) -> (r: String)
    ensures
        r@ == size_text(bytes as nat),
{
    let value: u128 = as_double(bytes);
    let mut r: String;
    if value < 1024 {
        r = decimal(bytes);
        r.append(" B");
    } else if value < 1048576 {
        r = place_words(bytes, 1024);
        r.append(" KB");
    } else if value < 1073741824 {
        r = place_words(bytes, 1048576);
        r.append(" MB");
    } else if value < 1099511627776 {
        r = place_words(bytes, 1073741824);
        r.append(" GB");
    } else {
        r = place_words(bytes, 1099511627776);
        r.append(" TB");
    }
    r
}

/// `n / scale` at three significant figures, with no figure of a whole number
/// left out.
pub open spec fn three_figures(n: nat, scale: int) -> Seq<char> {
    let value = doubled(n as int);
    let hundredths = nearest(100 * value, scale);
    let tenths = nearest(10 * value, scale);
    if hundredths < 1000 {
        decimal_text((hundredths / 100) as nat) + "."@ + two_digits(hundredths % 100)
    } else if tenths < 1000 {
        tenths_text(tenths as nat)
    } else {
        decimal_text(nearest(value, scale) as nat)
    }
}

fn figure_words(n: u64, scale: u64) -> (r: String)
    requires
        1024 <= scale <= 0x1_0000_0000_0000,
    ensures
        r@ == three_figures(n as nat, scale as int),
{
    let value: u128 = as_double(n);
    let hundredths: u128 = nearest_of(100 * value, scale as u128);
    if hundredths < 1000 {
        let hundredths: u64 = hundredths as u64;
        let mut r = decimal(hundredths / 100);
        r.append(".");
        let rest = two_digit_words(hundredths % 100);
        r.append(rest.as_str());
        return r;
    }
    let tenths: u128 = nearest_of(10 * value, scale as u128);
    if tenths < 1000 {
        return place_words(n, scale);
    }
    let whole: u128 = nearest_of(value, scale as u128);
    assert(whole <= 0x400_0000_0000_0000) by (nonlinear_arith)
        requires
            whole <= (value as int) / (scale as int) + 1,
            value <= 0x1_0000_0000_0000_0000 + 4096,
            scale >= 1024,
    ;
    decimal(whole as u64)
}

/// A byte count for a moving display, at three significant figures.
pub open spec fn bytes_text(bytes: nat) -> Seq<char> {
    if bytes >= 1073741824 {
        three_figures(bytes, 1073741824) + " GB"@
    } else if bytes >= 1048576 {
        three_figures(bytes, 1048576) + " MB"@
    } else if bytes >= 1024 {
        three_figures(bytes, 1024) + " kB"@
    } else if bytes >= 1 {
        decimal_text(bytes) + " bytes"@
    } else {
        "0 bytes"@
    }
}

/// A byte count for a moving display, at three significant figures.
pub fn format_bytes(bytes: u64) -> (r: String)
    ensures
        r@ == bytes_text(bytes as nat),
{
    let mut r: String;
    if bytes >= 1073741824 {
        r = figure_words(bytes, 1073741824);
        r.append(" GB");
    } else if bytes >= 1048576 {
        r = figure_words(bytes, 1048576);
        r.append(" MB");
    } else if bytes >= 1024 {
        r = figure_words(bytes, 1024);
        r.append(" kB");
    } else if bytes >= 1 {
        r = decimal(bytes);
        r.append(" bytes");
    } else {
        r = "0 bytes".to_owned();
    }
    r
}

/// A number below a hundred, in two digits.
pub open spec fn two_digits(n: int) -> Seq<char> {
    seq![digit(n / 10), digit(n % 10)]
}

fn two_digit_words(n: u64) -> (r: String)
    requires
        n < 100,
    ensures
        r@ == two_digits(n as int),
{
    let mut r = decimal(n / 10);
    let last = decimal(n % 10);
    r.append(last.as_str());
    assert(r@ =~= two_digits(n as int));
    r
}

/// A duration, in its two largest units.
pub open spec fn duration_text(seconds: nat) -> Seq<char> {
    if seconds < 60 {
        decimal_text(seconds) + "s"@
    } else if seconds < 3600 {
        if seconds % 60 == 0 {
            decimal_text(seconds / 60) + "m"@
        } else {
            decimal_text(seconds / 60) + "m"@ + two_digits((seconds % 60) as int) + "s"@
        }
    } else {
        if (seconds % 3600) / 60 == 0 {
            decimal_text(seconds / 3600) + "h"@
        } else {
            decimal_text(seconds / 3600) + "h"@ + two_digits(((seconds % 3600) / 60) as int) + "m"@
        }
    }
}

/// A duration for display, at two significant units.
pub fn format_duration(seconds: u64) -> (r: String)
    ensures
        r@ == duration_text(seconds as nat),
{
    let mut r: String;
    if seconds < 60 {
        r = decimal(seconds);
        r.append("s");
    } else if seconds < 3600 {
        r = decimal(seconds / 60);
        r.append("m");
        if seconds % 60 != 0 {
            let rest = two_digit_words(seconds % 60);
            r.append(rest.as_str());
            r.append("s");
        }
    } else {
        r = decimal(seconds / 3600);
        r.append("h");
        if (seconds % 3600) / 60 != 0 {
            let rest = two_digit_words((seconds % 3600) / 60);
            r.append(rest.as_str());
            r.append("m");
        }
    }
    r
}

/// The step an estimate is rounded to: it grows with the estimate.
pub open spec fn estimate_step(seconds: nat) -> nat {
    if seconds < 30 {
        5
    } else if seconds < 300 {
        15
    } else {
        60
    }
}

/// An estimate, rounded up to its step.
pub open spec fn rounded_estimate(seconds: nat) -> nat {
    let step = estimate_step(seconds);
    ((seconds + step - 1) as nat / step) * step
}

/// An estimate for display, rounded up to a precision it can support.
pub fn format_estimate(seconds: u64) -> (r: String)
    requires
        rounded_estimate(seconds as nat) <= u64::MAX,
    ensures
        r@ == duration_text(rounded_estimate(seconds as nat)),
{
    let step: u64 = if seconds < 30 {
        5
    } else if seconds < 300 {
        15
    } else {
        60
    };
    let steps: u64 = seconds / step + if seconds % step == 0 {
        0
    } else {
        1
    };
    assert(steps == (seconds + step - 1) as nat / (step as nat));
    format_duration(steps * step)
}

/// An estimate is never shown as less than it is, nor as a whole step more.
pub proof fn law_estimates_round_up(seconds: nat)
    ensures
        seconds <= rounded_estimate(seconds) < seconds + estimate_step(seconds),
        rounded_estimate(seconds) % estimate_step(seconds) == 0,
{
    let step = estimate_step(seconds) as int;
    vstd::arithmetic::div_mod::lemma_mod_multiples_basic((seconds + step - 1) / step, step);
}

/// A count with a comma between each three digits.
pub open spec fn thousands_text(n: nat) -> Seq<char>
    decreases n,
{
    if n < 1000 {
        decimal_text(n)
    } else {
        thousands_text(n / 1000) + ","@ + seq![
            digit((n % 1000) as int / 100),
            digit((n % 1000) as int / 10 % 10),
            digit((n % 1000) as int % 10),
        ]
    }
}

/// A count with thousands separators.
pub fn thousands(value: u64) -> (r: String)
    ensures
        r@ == thousands_text(value as nat),
    decreases value,
{
    if value < 1000 {
        return decimal(value);
    }
    let mut r = thousands(value / 1000);
    r.append(",");
    let rest: u64 = value % 1000;
    let ghost before = r@;
    let a = decimal(rest / 100);
    let b = decimal(rest / 10 % 10);
    let c = decimal(rest % 10);
    r.append(a.as_str());
    r.append(b.as_str());
    r.append(c.as_str());
    assert(r@ =~= before + seq![
        digit(rest as int / 100),
        digit(rest as int / 10 % 10),
        digit(rest as int % 10),
    ]);
    r
}

/// How long ago something was, in its largest unit.
pub open spec fn age_text(seconds: nat) -> Seq<char> {
    if seconds < 60 {
        decimal_text(seconds) + "s ago"@
    } else if seconds < 3600 {
        decimal_text(seconds / 60) + "m ago"@
    } else {
        decimal_text(seconds / 3600) + "h ago"@
    }
}

/// How long before `now` something was; what is not past is now.
pub open spec fn seconds_before(now: u64, then_: u64) -> nat {
    if now >= then_ {
        (now - then_) as nat
    } else {
        0
    }
}

/// The age of a timestamp at `now`.
pub fn format_age_at(updated_at: u64, now: u64) -> (r: String)
    ensures
        r@ == age_text(seconds_before(now, updated_at)),
{
    let elapsed: u64 = now.saturating_sub(updated_at);
    let mut r: String;
    if elapsed < 60 {
        r = decimal(elapsed);
        r.append("s ago");
    } else if elapsed < 3600 {
        r = decimal(elapsed / 60);
        r.append("m ago");
    } else {
        r = decimal(elapsed / 3600);
        r.append("h ago");
    }
    r
}

/// The age of a timestamp, by the clock.
pub fn format_age(updated_at: u64) -> (r: String)
    ensures
        exists|now: u64| r@ == #[trigger] age_text(seconds_before(now, updated_at)),
{
    let now: u64 = clock_millis() / 1000;
    let r = format_age_at(updated_at, now);
    assert(r@ == age_text(seconds_before(now, updated_at)));
    r
}

// ---------------------------------------------------------------------------
// Laws
// ---------------------------------------------------------------------------

/// What is nearest is off by half a unit at most; in the middle, it is even.
pub proof fn law_the_nearest_is_half_a_unit_off_at_most(n: int, d: int)
    requires
        n >= 0,
        d > 0,
    ensures
        2 * (n - d * nearest(n, d)) <= d,
        2 * (d * nearest(n, d) - n) <= d,
        2 * (n - d * nearest(n, d)) == d || 2 * (d * nearest(n, d) - n) == d ==> nearest(n, d) % 2
            == 0,
{
    let (q, r) = (n / d, n % d);
    assert(n == d * q + r && 0 <= r < d) by (nonlinear_arith)
        requires
            q == n / d,
            r == n % d,
            d > 0,
    ;
    assert(d * (q + 1) == d * q + d) by (nonlinear_arith);
}

/// Sizes are told in units of 1024: a whole number of them, to one place, up to
/// the next unit.
pub proof fn law_sizes_are_told_in_units_of_1024(k: nat)
    requires
        0 < k < 1024,
    ensures
        size_text(k) == decimal_text(k) + " B"@,
        size_text(0) == decimal_text(0) + " B"@,
        size_text(k * 1024) == decimal_text(k) + ".0 KB"@,
        size_text(k * 1024 * 1024) == decimal_text(k) + ".0 MB"@,
        size_text(k * 1024 * 1024 * 1024) == decimal_text(k) + ".0 GB"@,
        size_text(k * 1024 * 1024 * 1024 * 1024) == decimal_text(k) + ".0 TB"@,
{
    reveal_strlit(".");
    reveal_strlit(" KB");
    reveal_strlit(" MB");
    reveal_strlit(" GB");
    reveal_strlit(" TB");
    reveal_strlit(".0 KB");
    reveal_strlit(".0 MB");
    reveal_strlit(".0 GB");
    reveal_strlit(".0 TB");
    let whole = decimal_text(k) + "."@ + seq!['0'];
    assert(tenths_text(10 * k) == whole) by {
        assert((10 * k) / 10 == k && (10 * k) % 10 == 0);
    }
    assert(whole + " KB"@ =~= decimal_text(k) + ".0 KB"@);
    assert(whole + " MB"@ =~= decimal_text(k) + ".0 MB"@);
    assert(whole + " GB"@ =~= decimal_text(k) + ".0 GB"@);
    assert(whole + " TB"@ =~= decimal_text(k) + ".0 TB"@);
    assert(nearest(10 * (k * 1024) as int, 1024) == 10 * k);
    assert(nearest(10 * (k * 1048576) as int, 1048576) == 10 * k);
    assert(nearest(10 * (k * 1073741824) as int, 1073741824) == 10 * k);
    assert(nearest(10 * (k * 1099511627776) as int, 1099511627776) == 10 * k);
}

/// A transfer's bytes are told in units of 1024 too, with three figures.
pub proof fn law_bytes_are_told_with_three_figures(k: nat)
    requires
        0 < k < 10,
    ensures
        bytes_text(0) == "0 bytes"@,
        bytes_text(k) == decimal_text(k) + " bytes"@,
        bytes_text(1023) == decimal_text(1023) + " bytes"@,
        bytes_text(k * 1024) == decimal_text(k) + ".00 kB"@,
        bytes_text(k * 1024 * 1024) == decimal_text(k) + ".00 MB"@,
        bytes_text(k * 1024 * 1024 * 1024) == decimal_text(k) + ".00 GB"@,
{
    reveal_strlit(".");
    reveal_strlit(" kB");
    reveal_strlit(" MB");
    reveal_strlit(" GB");
    reveal_strlit(".00 kB");
    reveal_strlit(".00 MB");
    reveal_strlit(".00 GB");
    let whole = decimal_text(k) + "."@ + two_digits(0);
    assert((100 * k) / 100 == k && (100 * k) % 100 == 0);
    assert(nearest(100 * (k * 1024) as int, 1024) == 100 * k);
    assert(nearest(100 * (k * 1048576) as int, 1048576) == 100 * k);
    assert(nearest(100 * (k * 1073741824) as int, 1073741824) == 100 * k);
    assert(two_digits(0) =~= seq!['0', '0']);
    assert(whole + " kB"@ =~= decimal_text(k) + ".00 kB"@);
    assert(whole + " MB"@ =~= decimal_text(k) + ".00 MB"@);
    assert(whole + " GB"@ =~= decimal_text(k) + ".00 GB"@);
}

/// A duration is told in hours and minutes, in minutes and seconds, or in
/// seconds; a smaller unit of which there is none is left out.
pub proof fn law_a_duration_is_told_in_two_units(h: nat, m: nat, s: nat)
    requires
        m < 60,
        s < 60,
    ensures
        duration_text(s) == decimal_text(s) + "s"@,
        m > 0 ==> duration_text(60 * m) == decimal_text(m) + "m"@,
        m > 0 && s > 0 ==> duration_text(60 * m + s) == decimal_text(m) + "m"@ + two_digits(
            s as int,
        ) + "s"@,
        h > 0 ==> duration_text(3600 * h + s) == decimal_text(h) + "h"@,
        h > 0 && m > 0 ==> duration_text(3600 * h + 60 * m + s) == decimal_text(h) + "h"@
            + two_digits(m as int) + "m"@,
        age_text(s) == decimal_text(s) + "s ago"@,
        m > 0 ==> age_text(60 * m + s) == decimal_text(m) + "m ago"@,
        h > 0 ==> age_text(3600 * h + 60 * m + s) == decimal_text(h) + "h ago"@,
{
    assert((60 * m + s) / 60 == m && (60 * m + s) % 60 == s);
    assert((60 * m) / 60 == m && (60 * m) % 60 == 0);
    let t = 3600 * h + 60 * m + s;
    assert(t / 3600 == h && t % 3600 == 60 * m + s);
    let u = 3600 * h + s;
    assert(u / 3600 == h && u % 3600 == s);
}

/// An estimate is told to five seconds below half a minute, to a quarter of a
/// minute below five, and to the minute from there on.
pub proof fn law_an_estimate_is_as_exact_as_it_is_short(seconds: nat)
    ensures
        seconds < 30 ==> rounded_estimate(seconds) % 5 == 0 && rounded_estimate(seconds) < seconds
            + 5,
        30 <= seconds < 300 ==> rounded_estimate(seconds) % 15 == 0 && rounded_estimate(seconds)
            < seconds + 15,
        seconds >= 300 ==> rounded_estimate(seconds) % 60 == 0 && rounded_estimate(seconds)
            < seconds + 60,
        rounded_estimate(seconds) >= seconds,
{
    law_estimates_round_up(seconds);
}

/// A number has a comma before every three digits.
pub proof fn law_three_digits_follow_a_comma(front: nat, rest: nat)
    requires
        rest < 1000,
    ensures
        thousands_text(rest) == decimal_text(rest),
        front > 0 ==> thousands_text(1000 * front + rest) == thousands_text(front) + seq![
            ',',
            digit(rest as int / 100),
            digit(rest as int / 10 % 10),
            digit(rest as int % 10),
        ],
{
    reveal_strlit(",");
    let n = 1000 * front + rest;
    assert(n / 1000 == front && n % 1000 == rest);
    if front > 0 {
        assert(thousands_text(front) + ","@ + seq![
            digit(rest as int / 100),
            digit(rest as int / 10 % 10),
            digit(rest as int % 10),
        ] =~= thousands_text(front) + seq![
            ',',
            digit(rest as int / 100),
            digit(rest as int / 10 % 10),
            digit(rest as int % 10),
        ]);
    }
}

/// What is past was as long ago as the two times are apart; what is not is now.
pub proof fn law_an_age_is_the_time_between(now: u64, then_: u64)
    ensures
        then_ + seconds_before(now, then_) == (if then_ <= now {
            now
        } else {
            then_
        }),
{
}

} // verus!
