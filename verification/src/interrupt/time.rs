//! The interrupt-driven millisecond counter and the uptime display.
use vstd::prelude::*;
use vstd::string::*;

use crate::irq::time::{
    decimal_value, lemma_padded_exact, lemma_padded_value, padded_decimal, push_colon, push_padded,
    ten_pow, tick_spec, Clock,
};

verus! {

/// Counts one millisecond; the count wraps around at the end of `u64`.
pub fn tick(clock: &mut Clock)
    ensures
        final(clock).millis() == tick_spec(old(clock).millis()),
        final(clock).enabled() == old(clock).enabled(),
{
    crate::irq::time::tick(clock);
}

/// Milliseconds counted since boot.
pub fn current_time_millis(clock: &Clock) -> (r: u64)
    ensures
        r == clock.millis(),
{
    crate::irq::time::current_time_millis(clock)
}

/// Uptime `ms` milliseconds as `HH:MM:SS`; the hours are not wrapped and
/// take as many digits as they need.
pub open spec fn uptime_spec(ms: nat) -> Seq<char> {
    let seconds = ms / 1000;
    let minutes = seconds / 60;
    let hours = minutes / 60;
    padded_decimal(hours, 2) + seq![':'] + padded_decimal(minutes % 60, 2) + seq![':']
        + padded_decimal(seconds % 60, 2)
}

/// The fields of the uptime string, read back as numbers: the minutes and
/// seconds are below 60, and the hours, minutes and seconds make up the
/// uptime to the second. The hours field has at least two digits.
pub proof fn law_uptime_fields(ms: nat)
    ensures
        ({
            let t = uptime_spec(ms);
            let n = t.len() as int;
            let h = decimal_value(t.subrange(0, n - 6));
            let mi = decimal_value(t.subrange(n - 5, n - 3));
            let s = decimal_value(t.subrange(n - 2, n));
            &&& n >= 8
            &&& t[n - 6] == ':' && t[n - 3] == ':'
            &&& mi < 60
            &&& s < 60
            &&& h * 3600000 + mi * 60000 + s * 1000 + ms % 1000 == ms
        }),
{
    let seconds = ms / 1000;
    let minutes = seconds / 60;
    let hours = minutes / 60;
    reveal_with_fuel(ten_pow, 3);
    lemma_padded_exact(minutes % 60, 2);
    lemma_padded_exact(seconds % 60, 2);
    let hs = padded_decimal(hours, 2);
    assert(hs.len() >= 2);
    let t = uptime_spec(ms);
    let n = t.len() as int;
    assert(n == hs.len() + 6);
    assert(t.subrange(0, n - 6) =~= hs);
    assert(t.subrange(n - 5, n - 3) =~= padded_decimal(minutes % 60, 2));
    assert(t.subrange(n - 2, n) =~= padded_decimal(seconds % 60, 2));
    lemma_padded_value(hours, 2);
    lemma_padded_value(minutes % 60, 2);
    lemma_padded_value(seconds % 60, 2);
    assert(ms == seconds * 1000 + ms % 1000);
    assert(seconds == minutes * 60 + seconds % 60);
    assert(minutes == hours * 60 + minutes % 60);
    assert(hours * 3600000 + (minutes % 60) * 60000 + (seconds % 60) * 1000 + ms % 1000 == ms) by (nonlinear_arith)
        requires
            ms == seconds * 1000 + ms % 1000,
            seconds == minutes * 60 + seconds % 60,
            minutes == hours * 60 + minutes % 60,
    ;
}

/// The time since boot as `HH:MM:SS`.
pub fn uptime_str(clock: &Clock) -> (r: String)
    ensures
        r@ == uptime_spec(clock.millis() as nat),
{
    let ms = current_time_millis(clock);
    let seconds = ms / 1000;
    let minutes = seconds / 60;
    let hours = minutes / 60;
    let mut out = String::new();
    push_padded(&mut out, hours, 2);
    push_colon(&mut out);
    push_padded(&mut out, minutes % 60, 2);
    push_colon(&mut out);
    push_padded(&mut out, seconds % 60, 2);
    assert(out@ =~= uptime_spec(ms as nat));
    out
}

} // verus!
