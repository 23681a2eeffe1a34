//! Time keeping: a millisecond clock advanced by the timer interrupt,
//! countdown timers, stopwatches, and time formatting.
use vstd::prelude::*;
use vstd::string::*;

verus! {

// ---------------------------------------------------------------------------
// Decimal formatting.
// ---------------------------------------------------------------------------

/// The character of a decimal digit.
pub open spec fn digit_char(d: nat) -> char {
    if d == 0 {
        '0'
    } else if d == 1 {
        '1'
    } else if d == 2 {
        '2'
    } else if d == 3 {
        '3'
    } else if d == 4 {
        '4'
    } else if d == 5 {
        '5'
    } else if d == 6 {
        '6'
    } else if d == 7 {
        '7'
    } else if d == 8 {
        '8'
    } else {
        '9'
    }
}

/// The decimal representation of `n`, without leading zeros.
pub open spec fn decimal(n: nat) -> Seq<char>
    decreases n,
{
    if n < 10 {
        seq![digit_char(n)]
    } else {
        decimal(n / 10).push(digit_char(n % 10))
    }
}

/// `s` padded on the left with zeros to at least `width` characters.
pub open spec fn zero_pad(s: Seq<char>, width: nat) -> Seq<char> {
    if s.len() >= width {
        s
    } else {
        Seq::new((width - s.len()) as nat, |i: int| '0') + s
    }
}

/// `n` in decimal, zero-padded to at least `width` digits.
pub open spec fn padded_decimal(n: nat, width: nat) -> Seq<char> {
    zero_pad(decimal(n), width)
}

/// Appends the digit `d` to `out`.
fn push_digit(out: &mut String, d: u64)
    requires
        d < 10,
    ensures
        final(out)@ == old(out)@.push(digit_char(d as nat)),
{
    proof {
        reveal_strlit("0");
        reveal_strlit("1");
        reveal_strlit("2");
        reveal_strlit("3");
        reveal_strlit("4");
        reveal_strlit("5");
        reveal_strlit("6");
        reveal_strlit("7");
        reveal_strlit("8");
        reveal_strlit("9");
    }
    let s = if d == 0 {
        "0"
    } else if d == 1 {
        "1"
    } else if d == 2 {
        "2"
    } else if d == 3 {
        "3"
    } else if d == 4 {
        "4"
    } else if d == 5 {
        "5"
    } else if d == 6 {
        "6"
    } else if d == 7 {
        "7"
    } else if d == 8 {
        "8"
    } else {
        "9"
    };
    assert(s@ =~= seq![digit_char(d as nat)]);
    out.append(s);
}

/// Appends `n` in decimal to `out`.
fn push_decimal(out: &mut String, n: u64)
    ensures
        final(out)@ == old(out)@ + decimal(n as nat),
    decreases n,
{
    if n >= 10 {
        push_decimal(out, n / 10);
    }
    push_digit(out, n % 10);
    assert(out@ =~= old(out)@ + decimal(n as nat));
}

/// Number of decimal digits of `n`.
fn decimal_len(n: u64) -> (r: usize)
    ensures
        r == decimal(n as nat).len(),
    decreases n,
{
    if n < 10 {
        1
    } else {
        let k = decimal_len(n / 10);
        proof {
            lemma_decimal_len_bound(n as nat / 10);
        }
        k + 1
    }
}

/// A decimal representation is short.
proof fn lemma_decimal_len_bound(n: nat)
    ensures
        1 <= decimal(n).len() <= n + 1,
        n <= u64::MAX ==> decimal(n).len() <= 20,
    decreases n,
{
    if n >= 10 {
        lemma_decimal_len_bound(n / 10);
        if n <= u64::MAX {
            lemma_decimal_len_u64(n);
        }
    }
}

/// Ten to the power `k`.
pub open spec fn ten_pow(k: nat) -> nat
    decreases k,
{
    if k == 0 {
        1
    } else {
        10 * ten_pow((k - 1) as nat)
    }
}

/// A `u64` has at most twenty decimal digits.
proof fn lemma_decimal_len_u64(n: nat)
    requires
        n <= u64::MAX,
    ensures
        decimal(n).len() <= 20,
{
    reveal_with_fuel(ten_pow, 21);
    assert(ten_pow(20) == 100000000000000000000nat);
    lemma_decimal_len_pow(n, 20);
}

/// A number below `10^k` has at most `k` digits.
proof fn lemma_decimal_len_pow(n: nat, k: nat)
    requires
        k >= 1,
        n < ten_pow(k),
    ensures
        decimal(n).len() <= k,
    decreases k,
{
    if n >= 10 {
        if k == 1 {
            assert(ten_pow(1) == 10 * ten_pow(0));
        } else {
            lemma_decimal_len_pow(n / 10, (k - 1) as nat);
        }
    }
}

/// Appends `n` in decimal, zero-padded to at least `width` digits.
pub fn push_padded(out: &mut String, n: u64, width: usize)
    ensures
        final(out)@ == old(out)@ + padded_decimal(n as nat, width as nat),
{
    let len = decimal_len(n);
    let mut k: usize = len;
    while k < width
        invariant
            len == decimal(n as nat).len(),
            len <= k,
            k == len || (len < k && k <= width),
            out@ == old(out)@ + Seq::new((k - len) as nat, |i: int| '0'),
        decreases width - k,
    {
        push_digit(out, 0);
        assert(out@ =~= old(out)@ + Seq::new((k + 1 - len) as nat, |i: int| '0'));
        k = k + 1;
    }
    push_decimal(out, n);
    if len >= width {
        assert(Seq::new((k - len) as nat, |i: int| '0') =~= Seq::<char>::empty());
    } else {
        assert(k == width);
    }
    assert(out@ =~= old(out)@ + padded_decimal(n as nat, width as nat));
}

/// Appends `:` to `out`.
pub fn push_colon(out: &mut String)
    ensures
        final(out)@ == old(out)@.push(':'),
{
    proof {
        reveal_strlit(":");
    }
    out.append(":");
    assert(out@ =~= old(out)@.push(':'));
}

/// `ms` milliseconds as `HH:MM:SS.mmm`, the hours taken modulo a day.
pub open spec fn format_time_spec(ms: nat) -> Seq<char> {
    let seconds = ms / 1000;
    let minutes = seconds / 60;
    let hours = minutes / 60;
    padded_decimal(hours % 24, 2) + seq![':'] + padded_decimal(minutes % 60, 2) + seq![':']
        + padded_decimal(seconds % 60, 2) + seq!['.'] + padded_decimal(ms % 1000, 3)
}

/// Formats `millis` milliseconds as `HH:MM:SS.mmm`, the hours taken modulo a
/// day.
pub fn format_time(millis: u64) -> (r: String)
    ensures
        r@ == format_time_spec(millis as nat),
{
    let seconds = millis / 1000;
    let minutes = seconds / 60;
    let hours = minutes / 60;
    let mut out = String::new();
    push_padded(&mut out, hours % 24, 2);
    push_colon(&mut out);
    push_padded(&mut out, minutes % 60, 2);
    push_colon(&mut out);
    push_padded(&mut out, seconds % 60, 2);
    proof {
        reveal_strlit(".");
    }
    out.append(".");
    push_padded(&mut out, millis % 1000, 3);
    assert(out@ =~= format_time_spec(millis as nat));
    out
}

/// A number below `10^width` pads to exactly `width` digits.
pub proof fn lemma_padded_exact(n: nat, width: nat)
    requires
        width >= 1,
        n < ten_pow(width),
    ensures
        padded_decimal(n, width).len() == width,
{
    lemma_decimal_len_pow(n, width);
}

/// `format_time` always gives twelve characters, `HH:MM:SS.mmm`.
pub proof fn law_format_time_shape(ms: nat)
    ensures
        format_time_spec(ms).len() == 12,
        format_time_spec(ms)[2] == ':',
        format_time_spec(ms)[5] == ':',
        format_time_spec(ms)[8] == '.',
{
    reveal_with_fuel(ten_pow, 4);
    let seconds = ms / 1000;
    let minutes = seconds / 60;
    let hours = minutes / 60;
    lemma_padded_exact(hours % 24, 2);
    lemma_padded_exact(minutes % 60, 2);
    lemma_padded_exact(seconds % 60, 2);
    lemma_padded_exact(ms % 1000, 3);
}

/// The number a string of decimal digits stands for.
pub open spec fn decimal_value(s: Seq<char>) -> nat
    decreases s.len(),
{
    if s.len() == 0 {
        0
    } else {
        decimal_value(s.drop_last()) * 10 + (s.last() as int - '0' as int) as nat
    }
}

/// Reading back a number's digits gives the number.
proof fn lemma_decimal_value(n: nat)
    ensures
        decimal_value(decimal(n)) == n,
    decreases n,
{
    lemma_digit_value(n % 10);
    if n >= 10 {
        lemma_decimal_value(n / 10);
        assert(decimal(n).drop_last() =~= decimal(n / 10));
        assert(decimal(n).last() == digit_char(n % 10));
        assert(n == (n / 10) * 10 + n % 10);
    } else {
        assert(decimal(n) == seq![digit_char(n)]);
        assert(decimal(n).len() == 1 && decimal(n).last() == digit_char(n % 10));
        assert(decimal_value(Seq::<char>::empty()) == 0);
        assert(decimal_value(decimal(n)) == decimal_value(decimal(n).drop_last()) * 10 + (decimal(n).last() as int
            - '0' as int) as nat);
        assert(decimal(n).drop_last() =~= Seq::<char>::empty());
        assert(n % 10 == n);
    }
}

/// A digit's character stands for the digit.
proof fn lemma_digit_value(d: nat)
    requires
        d < 10,
    ensures
        digit_char(d) as int - '0' as int == d,
{
}

/// Leading zeros do not change the number a string of digits stands for.
proof fn lemma_decimal_value_zeros(k: nat, s: Seq<char>)
    ensures
        decimal_value(Seq::new(k, |i: int| '0') + s) == decimal_value(s),
    decreases s.len(), k,
{
    let z = Seq::new(k, |i: int| '0');
    if s.len() > 0 {
        assert((z + s).drop_last() =~= z + s.drop_last());
        lemma_decimal_value_zeros(k, s.drop_last());
    } else if k > 0 {
        assert(z + s =~= z);
        assert(z.drop_last() =~= Seq::new((k - 1) as nat, |i: int| '0') + Seq::<char>::empty());
        lemma_decimal_value_zeros((k - 1) as nat, Seq::<char>::empty());
    } else {
        assert(z + s =~= s);
    }
}

/// Reading back a zero-padded number gives the number.
pub proof fn lemma_padded_value(n: nat, width: nat)
    ensures
        decimal_value(padded_decimal(n, width)) == n,
{
    lemma_decimal_value(n);
    if decimal(n).len() < width {
        lemma_decimal_value_zeros((width - decimal(n).len()) as nat, decimal(n));
    }
}

/// The fields of `format_time`: hours below 24, minutes and seconds below
/// 60 and milliseconds below 1000, read back from `HH`, `MM`, `SS` and
/// `mmm`, make up the time of day of `ms`.
pub proof fn law_format_time_fields(ms: nat)
    ensures
        ({
            let t = format_time_spec(ms);
            let h = decimal_value(t.subrange(0, 2));
            let mi = decimal_value(t.subrange(3, 5));
            let s = decimal_value(t.subrange(6, 8));
            let f = decimal_value(t.subrange(9, 12));
            &&& h < 24
            &&& mi < 60
            &&& s < 60
            &&& f < 1000
            &&& h * 3600000 + mi * 60000 + s * 1000 + f == ms % 86400000
        }),
{
    law_format_time_shape(ms);
    let t = format_time_spec(ms);
    let seconds = ms / 1000;
    let minutes = seconds / 60;
    let hours = minutes / 60;
    reveal_with_fuel(ten_pow, 4);
    lemma_padded_exact(hours % 24, 2);
    lemma_padded_exact(minutes % 60, 2);
    lemma_padded_exact(seconds % 60, 2);
    lemma_padded_exact(ms % 1000, 3);
    assert(t.subrange(0, 2) =~= padded_decimal(hours % 24, 2));
    assert(t.subrange(3, 5) =~= padded_decimal(minutes % 60, 2));
    assert(t.subrange(6, 8) =~= padded_decimal(seconds % 60, 2));
    assert(t.subrange(9, 12) =~= padded_decimal(ms % 1000, 3));
    lemma_padded_value(hours % 24, 2);
    lemma_padded_value(minutes % 60, 2);
    lemma_padded_value(seconds % 60, 2);
    lemma_padded_value(ms % 1000, 3);
    lemma_time_of_day(ms);
}

/// Splitting a count of milliseconds into hours of the day, minutes,
/// seconds and milliseconds.
proof fn lemma_time_of_day(ms: nat)
    ensures
        (ms / 1000 / 60 / 60) % 24 * 3600000 + (ms / 1000 / 60) % 60 * 60000 + (ms / 1000) % 60 * 1000
            + ms % 1000 == ms % 86400000,
{
    let s = ms / 1000;
    let m = s / 60;
    let h = m / 60;
    let d = h / 24;
    assert(ms == s * 1000 + ms % 1000) by (nonlinear_arith)
        requires
            s == ms / 1000,
    ;
    assert(s == m * 60 + s % 60) by (nonlinear_arith)
        requires
            m == s / 60,
    ;
    assert(m == h * 60 + m % 60) by (nonlinear_arith)
        requires
            h == m / 60,
    ;
    assert(h == d * 24 + h % 24) by (nonlinear_arith)
        requires
            d == h / 24,
    ;
    let rest = h % 24 * 3600000 + m % 60 * 60000 + s % 60 * 1000 + ms % 1000;
    assert(ms == d * 86400000 + rest) by (nonlinear_arith)
        requires
            ms == s * 1000 + ms % 1000,
            s == m * 60 + s % 60,
            m == h * 60 + m % 60,
            h == d * 24 + h % 24,
            rest == h % 24 * 3600000 + m % 60 * 60000 + s % 60 * 1000 + ms % 1000,
    ;
    assert(0 <= rest < 86400000) by (nonlinear_arith)
        requires
            rest == h % 24 * 3600000 + m % 60 * 60000 + s % 60 * 1000 + ms % 1000,
            0 <= h % 24 < 24,
            0 <= m % 60 < 60,
            0 <= s % 60 < 60,
            0 <= ms % 1000 < 1000,
    ;
    vstd::arithmetic::div_mod::lemma_fundamental_div_mod_converse(ms as int, 86400000, d as int, rest as int);
}

// ---------------------------------------------------------------------------
// The clock.
// ---------------------------------------------------------------------------

/// The system clock: milliseconds counted by the timer interrupt, and
/// whether the timer is enabled.
pub struct Clock {
    millis: u64,
    enabled: bool,
}

impl Clock {
    /// Milliseconds counted so far.
    pub closed spec fn millis(&self) -> u64 {
        self.millis
    }

    /// The timer is enabled.
    pub closed spec fn enabled(&self) -> bool {
        self.enabled
    }

    /// A clock at zero with the timer disabled.
    pub fn new() -> (r: Clock)
        ensures
            r.millis() == 0,
            !r.enabled(),
    {
        Clock { millis: 0, enabled: false }
    }
}

/// The count after one more millisecond: it wraps around at the end of
/// `u64`.
pub open spec fn tick_spec(m: u64) -> u64 {
    if m == u64::MAX {
        0
    } else {
        (m + 1) as u64
    }
}

/// The count after `n` more milliseconds.
pub open spec fn ticks(m: u64, n: nat) -> u64
    decreases n,
{
    if n == 0 {
        m
    } else {
        tick_spec(ticks(m, (n - 1) as nat))
    }
}

/// `n` ticks add `n` to the count, wrapping around at the end of `u64`.
pub proof fn law_ticks_wrap(m: u64, n: nat)
    ensures
        ticks(m, n) == (m + n) % 0x1_0000_0000_0000_0000,
    decreases n,
{
    if n > 0 {
        law_ticks_wrap(m, (n - 1) as nat);
        let p = 0x1_0000_0000_0000_0000int;
        let prev = (m + n - 1) % p;
        assert((m + n) % p == if prev + 1 == p { 0 } else { prev + 1 }) by {
            vstd::arithmetic::div_mod::lemma_add_mod_noop(m + n - 1, 1, p);
            vstd::arithmetic::div_mod::lemma_small_mod(1nat, p as nat);
            vstd::arithmetic::div_mod::lemma_mod_bound(m + n - 1, p);
            if prev + 1 < p {
                vstd::arithmetic::div_mod::lemma_small_mod((prev + 1) as nat, p as nat);
            } else {
                vstd::arithmetic::div_mod::lemma_mod_self_0(p);
            }
        }
    }
}

/// What happens to the clock: a tick of the timer interrupt, or the timer
/// being enabled or disabled.
pub enum ClockEvent {
    Tick,
    Enable,
    Disable,
}

/// The clock's count and timer switch after `events`, from `millis` and
/// `enabled`.
pub open spec fn run_events(millis: u64, enabled: bool, events: Seq<ClockEvent>) -> (u64, bool)
    decreases events.len(),
{
    if events.len() == 0 {
        (millis, enabled)
    } else {
        let (m, e) = run_events(millis, enabled, events.drop_last());
        match events.last() {
            ClockEvent::Tick => (tick_spec(m), e),
            ClockEvent::Enable => (m, true),
            ClockEvent::Disable => (m, false),
        }
    }
}

/// The number of ticks among `events`.
pub open spec fn tick_count(events: Seq<ClockEvent>) -> nat
    decreases events.len(),
{
    if events.len() == 0 {
        0
    } else {
        tick_count(events.drop_last()) + if events.last() is Tick { 1nat } else { 0nat }
    }
}

/// Over any sequence of ticks, enables and disables, the count advances by
/// the number of ticks (wrapping around at the end of `u64`), and the timer
/// is enabled exactly when the last switch was an enable, or as it started
/// when there was no switch.
pub proof fn law_clock_events(millis: u64, enabled: bool, events: Seq<ClockEvent>, k: int)
    ensures
        run_events(millis, enabled, events).0 == ticks(millis, tick_count(events)),
        run_events(millis, enabled, events).0 == (millis + tick_count(events)) % 0x1_0000_0000_0000_0000,
        (forall|i: int| 0 <= i < events.len() ==> #[trigger] events[i] is Tick)
            ==> run_events(millis, enabled, events).1 == enabled,
        0 <= k < events.len() && !(events[k] is Tick) && (forall|j: int|
            k < j < events.len() ==> #[trigger] events[j] is Tick) ==> run_events(millis, enabled, events).1
            == (events[k] is Enable),
    decreases events.len(),
{
    law_ticks_wrap(millis, tick_count(events));
    if events.len() > 0 {
        let rest = events.drop_last();
        law_clock_events(millis, enabled, rest, k);
        assert forall|i: int| 0 <= i < rest.len() implies #[trigger] rest[i] == events[i] by {}
        if (forall|i: int| 0 <= i < events.len() ==> #[trigger] events[i] is Tick) {
            assert forall|i: int| 0 <= i < rest.len() implies #[trigger] rest[i] is Tick by {
                assert(events[i] is Tick);
            }
            assert(events[events.len() - 1] is Tick);
        }
        if 0 <= k < events.len() && !(events[k] is Tick) && (forall|j: int|
            k < j < events.len() ==> #[trigger] events[j] is Tick) {
            if k < events.len() - 1 {
                assert(events[events.len() - 1] is Tick);
                assert(rest[k] == events[k]);
                assert forall|j: int| k < j < rest.len() implies #[trigger] rest[j] is Tick by {
                    assert(events[j] is Tick);
                }
            }
        }
    }
}

/// Counts one millisecond; the count wraps around at the end of `u64`.
pub fn tick(clock: &mut Clock)
    ensures
        final(clock).millis() == tick_spec(old(clock).millis()),
        final(clock).enabled() == old(clock).enabled(),
{
    clock.millis = if clock.millis == u64::MAX {
        0
    } else {
        clock.millis + 1
    };
}

/// Milliseconds counted so far.
pub fn current_time_millis(clock: &Clock) -> (r: u64)
    ensures
        r == clock.millis(),
{
    clock.millis
}

/// Units in which the current time can be read.
#[derive(Debug, Clone, Copy)]
pub enum TimeUnit {
    Milliseconds,
    Seconds,
    Minutes,
    Hours,
}

/// Milliseconds per unit.
pub open spec fn unit_millis(unit: TimeUnit) -> nat {
    match unit {
        TimeUnit::Milliseconds => 1,
        TimeUnit::Seconds => 1000,
        TimeUnit::Minutes => 60000,
        TimeUnit::Hours => 3600000,
    }
}

/// A millisecond is the unit of the clock; a second is a thousand of them,
/// a minute sixty seconds and an hour sixty minutes.
pub proof fn law_time_units()
    ensures
        unit_millis(TimeUnit::Milliseconds) == 1,
        unit_millis(TimeUnit::Seconds) == 1000 * unit_millis(TimeUnit::Milliseconds),
        unit_millis(TimeUnit::Minutes) == 60 * unit_millis(TimeUnit::Seconds),
        unit_millis(TimeUnit::Hours) == 60 * unit_millis(TimeUnit::Minutes),
{
}

/// The current time in whole `unit`s, rounded down.
pub fn current_time(clock: &Clock, unit: TimeUnit) -> (r: u64)
    ensures
        r == clock.millis() as nat / unit_millis(unit),
{
    let millis = current_time_millis(clock);
    match unit {
        TimeUnit::Milliseconds => millis,
        TimeUnit::Seconds => millis / 1000,
        TimeUnit::Minutes => millis / (1000 * 60),
        TimeUnit::Hours => millis / (1000 * 60 * 60),
    }
}

/// The time at which a sleep of `ms` milliseconds started now ends; the
/// caller waits until the clock reaches it.
pub fn sleep_deadline(clock: &Clock, ms: u64) -> (r: u64)
    requires
        clock.millis() + ms <= u64::MAX,
    ensures
        r == clock.millis() + ms,
{
    current_time_millis(clock) + ms
}

/// A sleep ending at `end` is over at time `now`.
pub fn sleep_over(now: u64, end: u64) -> (r: bool)
    ensures
        r == (now >= end),
{
    now >= end
}

/// Enables the timer.
pub fn enable_timer(clock: &mut Clock)
    ensures
        final(clock).enabled(),
        final(clock).millis() == old(clock).millis(),
{
    clock.enabled = true;
}

/// Disables the timer.
pub fn disable_timer(clock: &mut Clock)
    ensures
        !final(clock).enabled(),
        final(clock).millis() == old(clock).millis(),
{
    clock.enabled = false;
}

/// Whether the timer is enabled.
pub fn is_timer_enabled(clock: &Clock) -> (r: bool)
    ensures
        r == clock.enabled(),
{
    clock.enabled
}

// ---------------------------------------------------------------------------
// Timers and stopwatches.
// ---------------------------------------------------------------------------

/// A countdown timer: it expires once its duration has passed since it was
/// started, and stays expired until reset.
pub struct Timer {
    start_time: u64,
    duration: u64,
    expired: bool,
}

impl Timer {
    /// When the timer was started, in milliseconds.
    pub closed spec fn start_time(&self) -> u64 {
        self.start_time
    }

    /// The duration in milliseconds.
    pub closed spec fn duration(&self) -> u64 {
        self.duration
    }

    /// The timer has been seen expired.
    pub closed spec fn expired(&self) -> bool {
        self.expired
    }

    /// A timer of `duration_millis` milliseconds started at time `now`. The
    /// duration is taken modulo 2^64, as a `u64`.
    pub fn new(duration_millis: u128, now: u64) -> (r: Timer)
        ensures
            r.start_time() == now,
            r.duration() == duration_millis as u64,
            !r.expired(),
    {
        Timer { start_time: now, duration: duration_millis as u64, expired: false }
    }

    /// Whether the timer has expired at time `now`; once it has, it stays
    /// expired.
    pub fn is_expired(&mut self, now: u64) -> (r: bool)
        requires
            !old(self).expired() ==> now >= old(self).start_time(),
        ensures
            r == (old(self).expired() || now - old(self).start_time() >= old(self).duration()),
            final(self).expired() == r,
            final(self).start_time() == old(self).start_time(),
            final(self).duration() == old(self).duration(),
    {
        if self.expired {
            return true;
        }
        if now - self.start_time >= self.duration {
            self.expired = true;
            return true;
        }
        false
    }

    /// Restarts the timer at time `now`.
    pub fn reset(&mut self, now: u64)
        ensures
            final(self).start_time() == now,
            final(self).duration() == old(self).duration(),
            !final(self).expired(),
    {
        self.start_time = now;
        self.expired = false;
    }
}

/// The reading of a stopwatch at time `now`: the accumulated time plus the
/// running period, if any.
pub open spec fn stopwatch_reading(start: Option<u64>, accumulated: u64, now: u64) -> int {
    match start {
        Some(s) => accumulated + (now - s),
        None => accumulated as int,
    }
}

/// Stopping does not change the reading: after `stop(now)` the stopwatch
/// reads, at any later time, what it read at `now`.
pub proof fn law_stop_keeps_reading(start: Option<u64>, accumulated: u64, now: u64, later: u64)
    requires
        start matches Some(s) ==> s <= now && accumulated + (now - s) <= u64::MAX,
    ensures
        stopwatch_reading(None, stopwatch_reading(start, accumulated, now) as u64, later)
            == stopwatch_reading(start, accumulated, now),
{
}

/// A running stopwatch reads the accumulated time when its period starts
/// and then advances with the clock, millisecond for millisecond; a stopped
/// stopwatch reads the accumulated time whatever the clock says.
pub proof fn law_stopwatch_advances(accumulated: u64, start: u64, now: u64, later: u64)
    requires
        start <= now <= later,
    ensures
        stopwatch_reading(Some(start), accumulated, start) == accumulated,
        stopwatch_reading(Some(start), accumulated, later) - stopwatch_reading(Some(start), accumulated, now)
            == later - now,
        stopwatch_reading(None, accumulated, now) == accumulated,
        stopwatch_reading(None, accumulated, later) == stopwatch_reading(None, accumulated, now),
{
}

/// A stopwatch: accumulates the time it runs between starts and stops.
pub struct Stopwatch {
    start_time: Option<u64>,
    elapsed: u64,
}

impl Stopwatch {
    /// When the running period started, if the stopwatch runs.
    pub closed spec fn start_time(&self) -> Option<u64> {
        self.start_time
    }

    /// Milliseconds accumulated by finished periods.
    pub closed spec fn accumulated(&self) -> u64 {
        self.elapsed
    }

    /// A stopped stopwatch at zero.
    pub fn new() -> (r: Stopwatch)
        ensures
            r.start_time() is None,
            r.accumulated() == 0,
    {
        Stopwatch { start_time: None, elapsed: 0 }
    }

    /// Starts (or restarts) a running period at time `now`.
    pub fn start(&mut self, now: u64)
        ensures
            final(self).start_time() == Some(now),
            final(self).accumulated() == old(self).accumulated(),
    {
        self.start_time = Some(now);
    }

    /// Ends the running period at time `now`, adding it to the total; does
    /// nothing when the stopwatch is stopped.
    pub fn stop(&mut self, now: u64)
        requires
            old(self).start_time() matches Some(s) ==> s <= now && old(self).accumulated() + (now - s)
                <= u64::MAX,
        ensures
            final(self).start_time() is None,
            final(self).accumulated() == stopwatch_reading(old(self).start_time(), old(self).accumulated(), now),
    {
        if let Some(start) = self.start_time {
            self.elapsed = self.elapsed + (now - start);
            self.start_time = None;
        }
    }

    /// Stops the stopwatch and sets it back to zero.
    pub fn reset(&mut self)
        ensures
            final(self).start_time() is None,
            final(self).accumulated() == 0,
    {
        self.start_time = None;
        self.elapsed = 0;
    }

    /// The total time at time `now`, including the running period.
    pub fn elapsed(&self, now: u64) -> (r: u64)
        requires
            self.start_time() matches Some(s) ==> s <= now && self.accumulated() + (now - s) <= u64::MAX,
        ensures
            r == stopwatch_reading(self.start_time(), self.accumulated(), now),
    {
        let running = match self.start_time {
            Some(start) => now - start,
            None => 0,
        };
        self.elapsed + running
    }
}

} // verus!
