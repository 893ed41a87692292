//! The preferences window: the list of targets that it edits, and its sliders.
//! Showing it is left to the caller.

use vstd::prelude::*;
use crate::double::{nearest_double, to_double, UNIT};
use crate::numeral::{
    dec, decimal, digit, half_even, half_up, law_rounding_is_nearest, lemma_half_up,
    lemma_rounds_below, round_half_even, round_half_up,
};
use crate::ping::{hosts_of, PingTarget};
use crate::settings::{
    closest_step, is_closest, on_steps, snapped, AppPrefs, FAST_DEFAULT, FAST_STEPS, SLOW_DEFAULT,
    SLOW_STEPS, TOLERANCE_DEFAULT, TOLERANCE_STEPS,
};
use crate::sparkline::NS_PER_MS;
use crate::text::texts_of;

verus! {

/// How many targets the window edits.
pub const MAX_ENTRY_ROWS: usize = 15;

/// The rows of the window, from top to bottom: what each host field holds.
#[derive(Debug)]
pub struct EntryRows {
    hosts: Vec<String>,
}

impl View for EntryRows {
    type V = Seq<Seq<char>>;

    closed spec fn view(&self) -> Seq<Seq<char>> {
        texts_of(self.hosts@)
    }
}

/// The hosts that are saved: what the fields hold, without the empty ones.
pub open spec fn filled(rows: Seq<Seq<char>>) -> Seq<Seq<char>>
    decreases rows.len(),
{
    if rows.len() == 0 {
        Seq::empty()
    } else {
        let before = filled(rows.drop_last());
        if rows.last().len() == 0 {
            before
        } else {
            before.push(rows.last())
        }
    }
}

/// The rows with one more, where there is room for it.
pub open spec fn with_entry(rows: Seq<Seq<char>>, host: Seq<char>) -> Seq<Seq<char>> {
    if rows.len() >= MAX_ENTRY_ROWS {
        rows
    } else {
        rows.push(host)
    }
}

/// The first of the targets, as many as there is room for.
pub open spec fn first_rows(targets: Seq<Seq<char>>) -> Seq<Seq<char>> {
    if targets.len() <= MAX_ENTRY_ROWS {
        targets
    } else {
        targets.take(MAX_ENTRY_ROWS as int)
    }
}

impl EntryRows {
    /// A row for each target, as far as there is room.
    pub fn new(targets: &[PingTarget]) -> (r: Self)
        ensures
            r@ == first_rows(hosts_of(targets@)),
            r@.len() <= MAX_ENTRY_ROWS,
    {
        let ghost hosts = hosts_of(targets@);
        let mut r = EntryRows { hosts: Vec::new() };
        let mut i: usize = 0;
        assert(r@ =~= first_rows(hosts.take(0)));
        while i < targets.len()
            invariant
                i <= targets@.len(),
                hosts == hosts_of(targets@),
                r@ == first_rows(hosts.take(i as int)),
            decreases targets.len() - i,
        {
            r.do_add_entry_with(targets[i].host.as_str());
            assert(hosts[i as int] == targets@[i as int]@);
            assert(r@ =~= first_rows(hosts.take(i as int + 1)));
            i += 1;
        }
        assert(hosts.take(i as int) =~= hosts);
        r
    }

    /// How many rows there are.
    pub fn entry_count(&self) -> (r: usize)
        ensures
            r == self@.len(),
    {
        self.hosts.len()
    }

    /// Whether a row can be added: the state of the add button.
    pub fn can_add(&self) -> (r: bool)
        ensures
            r == (self@.len() < MAX_ENTRY_ROWS),
    {
        self.entry_count() < MAX_ENTRY_ROWS
    }

    /// Add a row at the end, unless there are as many as there may be.
    pub fn do_add_entry_with(&mut self, host: &str)
        ensures
            final(self)@ == with_entry(old(self)@, host@),
    {
        if self.entry_count() >= MAX_ENTRY_ROWS {
            return;
        }
        self.hosts.push(host.to_string());
        assert(self@ =~= old(self)@.push(host@));
    }

    /// Add an empty row; whether the targets are to be saved, which is when a
    /// row was added.
    pub fn do_add_entry(&mut self) -> (r: bool)
        ensures
            final(self)@ == with_entry(old(self)@, Seq::empty()),
            r == (old(self)@.len() < MAX_ENTRY_ROWS),
    {
        if self.entry_count() >= MAX_ENTRY_ROWS {
            return false;
        }
        let none = String::new();
        self.do_add_entry_with(none.as_str());
        true
    }

    /// Remove a row; where there is no such row, nothing changes.
    pub fn do_remove_entry(&mut self, at: usize)
        ensures
            final(self)@ == if at < old(self)@.len() {
                old(self)@.remove(at as int)
            } else {
                old(self)@
            },
    {
        if at < self.hosts.len() {
            let _gone = self.hosts.remove(at);
            assert(self@ =~= old(self)@.remove(at as int));
        }
    }

    /// Another text stands in the field of a row.
    pub fn edit_entry(&mut self, at: usize, host: &str)
        ensures
            final(self)@ == if at < old(self)@.len() {
                old(self)@.update(at as int, host@)
            } else {
                old(self)@
            },
    {
        if at < self.hosts.len() {
            self.hosts.set(at, host.to_string());
            assert(self@ =~= old(self)@.update(at as int, host@));
        }
    }

    /// The targets to save: one for each field that is not empty.
    pub fn do_save(&self) -> (r: Vec<PingTarget>)
        ensures
            hosts_of(r@) == filled(self@),
    {
        let mut targets: Vec<PingTarget> = Vec::new();
        let mut i: usize = 0;
        assert(hosts_of(targets@) =~= filled(self@.take(0)));
        while i < self.hosts.len()
            invariant
                i <= self.hosts@.len(),
                hosts_of(targets@) == filled(self@.take(i as int)),
            decreases self.hosts.len() - i,
        {
            assert(self@.take(i as int + 1).drop_last() =~= self@.take(i as int));
            assert(self@[i as int] == self.hosts@[i as int]@);
            let host = self.hosts[i].clone();
            if !host.as_str().is_empty() {
                let ghost before = targets@;
                let t = PingTarget { host };
                targets.push(t);
                assert(hosts_of(targets@) =~= hosts_of(before).push(t@));
            }
            i += 1;
        }
        assert(self@.take(i as int) =~= self@);
        targets
    }
}

/// No edit makes more rows than there may be.
pub proof fn law_rows_stay_within_the_limit(rows: Seq<Seq<char>>, host: Seq<char>, at: int)
    requires
        rows.len() <= MAX_ENTRY_ROWS,
    ensures
        with_entry(rows, host).len() <= MAX_ENTRY_ROWS,
        0 <= at < rows.len() ==> rows.remove(at).len() < MAX_ENTRY_ROWS,
{
}

/// Opening the window and saving changes nothing: targets that fit and have a
/// host are saved as they were.
pub proof fn law_unedited_targets_are_saved_as_they_were(targets: Seq<Seq<char>>)
    requires
        targets.len() <= MAX_ENTRY_ROWS,
        forall|i: int| 0 <= i < targets.len() ==> (#[trigger] targets[i]).len() > 0,
    ensures
        filled(first_rows(targets)) == targets,
    decreases targets.len(),
{
    if targets.len() > 0 {
        let before = targets.drop_last();
        assert forall|i: int| 0 <= i < before.len() implies (#[trigger] before[i]).len() > 0 by {
            assert(before[i] == targets[i]);
        }
        law_unedited_targets_are_saved_as_they_were(before);
        assert(targets[targets.len() - 1] == targets.last());
        assert(targets =~= before.push(targets.last()));
    }
}

/// An empty row is not saved, and adding one changes nothing that is.
pub proof fn law_empty_rows_are_not_saved(rows: Seq<Seq<char>>)
    ensures
        filled(with_entry(rows, Seq::empty())) == filled(rows),
        forall|i: int| 0 <= i < filled(rows).len() ==> (#[trigger] filled(rows)[i]).len() > 0,
    decreases rows.len(),
{
    let none = Seq::<char>::empty();
    assert(rows.push(none).drop_last() =~= rows);
    if rows.len() > 0 {
        law_empty_rows_are_not_saved(rows.drop_last());
    }
}

/// A stepped slider: its largest index, the number of its ticks, and where it
/// stands.
#[derive(Clone, Copy, Debug, PartialEq, Eq, Structural)]
pub struct Slider {
    pub max: usize,
    pub ticks: usize,
    pub index: usize,
}

/// Stepped slider: integer index 0..steps.len()-1 with one tick per step,
/// snapping to ticks only. Initial position is the index of the step
/// closest to `value`.
pub fn make_stepped_slider(steps: &[i64], value: i64) -> (r: Slider)
    ensures
        r.ticks == if steps@.len() == 0 {
            1
        } else {
            steps@.len() as int
        },
        r.max == r.ticks - 1,
        if steps@.len() == 0 {
            r.index == 0
        } else {
            is_closest(steps@, value, r.index as int)
        },
{
    let ticks: usize = if steps.len() == 0 {
        1
    } else {
        steps.len()
    };
    Slider { max: ticks - 1, ticks, index: closest_step(steps, value) }
}

/// The step at a slider's index; the default where there is no such step.
pub open spec fn step_at(steps: Seq<i64>, index: int, default: i64) -> i64 {
    if 0 <= index < steps.len() {
        steps[index]
    } else {
        default
    }
}

/// Read the current step value from a stepped slider, falling back to
/// `default` if the index is somehow out of range.
pub fn step_value(steps: &[i64], index: i64, default: i64) -> (r: i64)
    ensures
        r == step_at(steps@, index as int, default),
{
    if 0 <= index && (index as u64) < steps.len() as u64 {
        steps[index as usize]
    } else {
        default
    }
}

/// A slider that was set to a value and is read again gives the step closest
/// to that value.
pub proof fn law_slider_gives_back_the_snapped_value(
    steps: Seq<i64>,
    value: i64,
    index: int,
    default: i64,
)
    requires
        steps.len() > 0,
        is_closest(steps, value, index),
    ensures
        step_at(steps, index, default) == snapped(steps, value),
{
    crate::settings::lemma_closest_step(steps, value);
}

/// The preferences that the sliders stand for.
pub open spec fn prefs_at(slow: i64, fast: i64, tolerance: i64) -> AppPrefs {
    AppPrefs {
        slow_ns: step_at(SLOW_STEPS@, slow as int, SLOW_DEFAULT),
        fast_ns: step_at(FAST_STEPS@, fast as int, FAST_DEFAULT),
        tolerance_ns: step_at(TOLERANCE_STEPS@, tolerance as int, TOLERANCE_DEFAULT),
    }
}

/// The preferences to save, from the indices at which the three sliders stand.
pub fn do_save_prefs(slow: i64, fast: i64, tolerance: i64) -> (r: AppPrefs)
    ensures
        r == prefs_at(slow, fast, tolerance),
        on_steps(r),
{
    proof {
        crate::settings::law_nothing_stored_means_defaults();
    }
    AppPrefs {
        slow_ns: step_value(&SLOW_STEPS, slow, SLOW_DEFAULT),
        fast_ns: step_value(&FAST_STEPS, fast, FAST_DEFAULT),
        tolerance_ns: step_value(&TOLERANCE_STEPS, tolerance, TOLERANCE_DEFAULT),
    }
}

/// Whether the "launch at login" box is checked in the end. `wanted` is how the
/// user left it, `done` whether the system took the change, and `enabled`
/// whether the system has the service enabled. A refused change is taken back.
pub fn launch_at_login(wanted: bool, done: bool, enabled: bool) -> (r: bool)
    ensures
        r == if wanted {
            done
        } else {
            !done && enabled
        },
{
    if wanted {
        done
    } else {
        !done && enabled
    }
}

pub const NS_PER_SEC: u64 = 1_000_000_000;

/// 2 to the power of 72.
pub const TWO_72: u128 = 4_722_366_482_869_645_213_696;

/// How far a duration must be from whole seconds to be shown with decimals: the
/// double-precision number nearest to a millionth of a second, over 2 to the
/// power of 72.
pub const MICRO_72: u128 = 4_722_366_482_869_645;

/// The duration, in nanoseconds, up to which double-precision numbers of seconds
/// tell all nanoseconds apart: 2 to the power of 23 seconds.
pub const SECS_NS_MAX: u64 = 8_388_608_000_000_000;

/// A duration in seconds, a double-precision number: numerator and denominator.
pub open spec fn secs_of(ns: u64) -> (int, int) {
    nearest_double(ns as int, NS_PER_SEC as int)
}

/// How far a fraction is from a whole number, over the fraction's denominator.
pub open spec fn off_by(num: int, den: int, whole: int) -> int {
    if num >= whole * den {
        num - whole * den
    } else {
        whole * den - num
    }
}

/// The last `width` digits of `n`.
pub open spec fn padded(n: nat, width: nat) -> Seq<char>
    decreases width,
{
    if width == 0 {
        Seq::empty()
    } else {
        padded(n / 10, (width - 1) as nat).push(digit((n % 10) as int))
    }
}

/// The last `width` digits of `n`, without the zeros at the end.
pub open spec fn decimals(n: nat, width: nat) -> Seq<char>
    decreases width,
{
    if width == 0 || n % 10 != 0 {
        padded(n, width)
    } else {
        decimals(n / 10, (width - 1) as nat)
    }
}

/// A duration in seconds: whole where it is whole to a microsecond, and
/// otherwise with as many decimals as it has.
pub open spec fn secs_text(ns: u64) -> Seq<char> {
    let secs = secs_of(ns);
    let whole = half_up(secs.0, secs.1);
    if off_by(secs.0, secs.1, whole) * TWO_72 < MICRO_72 * secs.1 {
        dec(whole as nat) + "s"@
    } else {
        dec((ns / NS_PER_SEC) as nat) + "."@ + decimals((ns % NS_PER_SEC) as nat, 9) + "s"@
    }
}

fn push_padded(s: &mut String, n: u64, width: u8)
    ensures
        final(s)@ == old(s)@ + padded(n as nat, width as nat),
    decreases width,
{
    if width > 0 {
        push_padded(s, n / 10, width - 1);
        s.push((48 + (n % 10) as u8) as char);
    }
    assert(s@ =~= old(s)@ + padded(n as nat, width as nat));
}

fn push_decimals(s: &mut String, n: u64, width: u8)
    ensures
        final(s)@ == old(s)@ + decimals(n as nat, width as nat),
    decreases width,
{
    if width == 0 || n % 10 != 0 {
        push_padded(s, n, width);
    } else {
        push_decimals(s, n / 10, width - 1);
    }
}

/// Whether a fraction is less than a millionth away from `whole`, the whole
/// number nearest to it.
fn is_whole(num: u128, den: u128, whole: u128) -> (r: bool)
    requires
        num <= 2 * UNIT,
        0 < den,
        whole == half_up(num as int, den as int),
    ensures
        r == (off_by(num as int, den as int, whole as int) * TWO_72 < MICRO_72 * den),
{
    proof {
        law_rounding_is_nearest(num as int, den as int);
        lemma_half_up(num as int, den as int);
        if 2 * num < den {
            vstd::arithmetic::div_mod::lemma_small_mod(num as nat, den as nat);
            vstd::arithmetic::div_mod::lemma_basic_div(num as int, den as int);
        }
    }
    if den > 4 * TWO_72 {
        assert(whole == 0);
        assert(off_by(num as int, den as int, 0) == num) by (nonlinear_arith)
            requires
                0 <= num,
        ;
        assert(num * TWO_72 < MICRO_72 * den) by (nonlinear_arith)
            requires
                num <= 2 * UNIT,
                den > 4 * TWO_72,
        ;
        return true;
    }
    assert(whole * den <= num + den);
    let near: u128 = whole * den;
    let gap: u128 = if num >= near {
        num - near
    } else {
        near - num
    };
    assert(gap == off_by(num as int, den as int, whole as int));
    assert(gap <= 4 * UNIT) by {
        if den > 4 * UNIT {
            assert(whole == 0);
            assert(whole * den == 0) by (nonlinear_arith)
                requires
                    whole == 0,
            ;
        } else {
            assert(2 * gap <= den);
        }
    }
    gap * TWO_72 < MICRO_72 * den
}

/// A duration in seconds.
pub fn format_secs(ns: u64) -> (r: String)
    requires
        ns <= SECS_NS_MAX,
    ensures
        r@ == secs_text(ns),
{
    let secs = to_double(ns as u128, NS_PER_SEC as u128);
    let whole: u128 = round_half_up(secs.0, secs.1);
    let rest: u64 = ns % NS_PER_SEC;
    proof {
        lemma_rounds_below(secs.0 as int, secs.1 as int);
    }
    if is_whole(secs.0, secs.1, whole) {
        let mut s = decimal(whole as u64);
        s.append("s");
        s
    } else {
        let mut s = decimal(ns / NS_PER_SEC);
        s.append(".");
        push_decimals(&mut s, rest, 9);
        s.append("s");
        s
    }
}

/// The labels under a slider of durations.
fn secs_ticks(steps: &[i64]) -> (r: Vec<String>)
    requires
        forall|i: int| 0 <= i < steps@.len() ==> 0 <= #[trigger] steps@[i] <= SECS_NS_MAX,
    ensures
        texts_of(r@) == steps@.map_values(|v: i64| secs_text(v as u64)),
{
    let ghost want = steps@.map_values(|v: i64| secs_text(v as u64));
    let mut r: Vec<String> = Vec::new();
    assert(texts_of(r@) =~= want.take(0));
    while r.len() < steps.len()
        invariant
            r@.len() <= steps@.len(),
            want == steps@.map_values(|v: i64| secs_text(v as u64)),
            forall|i: int| 0 <= i < steps@.len() ==> 0 <= #[trigger] steps@[i] <= SECS_NS_MAX,
            texts_of(r@) == want.take(r@.len() as int),
        decreases steps.len() - r.len(),
    {
        let s = format_secs(steps[r.len()] as u64);
        let ghost before = r@;
        r.push(s);
        assert(texts_of(r@) =~= texts_of(before).push(s@));
        assert(texts_of(r@) =~= want.take(r@.len() as int));
    }
    assert(want.take(r@.len() as int) =~= want);
    r
}

/// A latency in whole milliseconds.
pub open spec fn whole_ms_text(ns: u64) -> Seq<char> {
    let ms = nearest_double(ns as int, NS_PER_MS as int);
    dec(half_even(ms.0, ms.1) as nat)
}

/// The labels under a slider of latencies.
fn ms_ticks(steps: &[i64]) -> (r: Vec<String>)
    requires
        forall|i: int| 0 <= i < steps@.len() ==> 0 <= #[trigger] steps@[i],
    ensures
        texts_of(r@) == steps@.map_values(|v: i64| whole_ms_text(v as u64)),
{
    let ghost want = steps@.map_values(|v: i64| whole_ms_text(v as u64));
    let mut r: Vec<String> = Vec::new();
    assert(texts_of(r@) =~= want.take(0));
    while r.len() < steps.len()
        invariant
            r@.len() <= steps@.len(),
            want == steps@.map_values(|v: i64| whole_ms_text(v as u64)),
            forall|i: int| 0 <= i < steps@.len() ==> 0 <= #[trigger] steps@[i],
            texts_of(r@) == want.take(r@.len() as int),
        decreases steps.len() - r.len(),
    {
        let ms = to_double(steps[r.len()] as u64 as u128, NS_PER_MS as u128);
        proof {
            lemma_rounds_below(ms.0 as int, ms.1 as int);
        }
        let s = decimal(round_half_even(ms.0, ms.1) as u64);
        let ghost before = r@;
        r.push(s);
        assert(texts_of(r@) =~= texts_of(before).push(s@));
        assert(texts_of(r@) =~= want.take(r@.len() as int));
    }
    assert(want.take(r@.len() as int) =~= want);
    r
}

/// The labels under the three sliders.
#[derive(Debug)]
pub struct Ticks {
    pub slow: Vec<String>,
    pub fast: Vec<String>,
    pub tolerance: Vec<String>,
}

/// The labels under the three sliders: a duration or a latency for each step.
pub fn slider_ticks() -> (r: Ticks)
    ensures
        texts_of(r.slow@) == SLOW_STEPS@.map_values(|v: i64| secs_text(v as u64)),
        texts_of(r.fast@) == FAST_STEPS@.map_values(|v: i64| secs_text(v as u64)),
        texts_of(r.tolerance@) == TOLERANCE_STEPS@.map_values(|v: i64| whole_ms_text(v as u64)),
{
    Ticks {
        slow: secs_ticks(&SLOW_STEPS),
        fast: secs_ticks(&FAST_STEPS),
        tolerance: ms_ticks(&TOLERANCE_STEPS),
    }
}

/// What is saved are the rows that are not empty, all of them and in order; a
/// row is added at the end while there are fewer than 15; and a window opens
/// with the first 15 targets.
pub proof fn law_rows_are_saved_in_order(rows: Seq<Seq<char>>, host: Seq<char>, i: int)
    ensures
        filled(rows) == rows.filter(|h: Seq<char>| h.len() > 0),
        rows.len() < 15 ==> with_entry(rows, host) == rows.push(host),
        rows.len() >= 15 ==> with_entry(rows, host) == rows,
        first_rows(rows).len() == if rows.len() <= 15 {
            rows.len() as int
        } else {
            15
        },
        0 <= i < first_rows(rows).len() ==> first_rows(rows)[i] == rows[i],
        MAX_ENTRY_ROWS == 15,
    decreases rows.len(),
{
    reveal(Seq::filter);
    if rows.len() > 0 {
        law_rows_are_saved_in_order(rows.drop_last(), host, 0);
    }
}

/// A slider's index gives the step that stands there, and any other index the
/// default; each slider goes by its own steps.
pub proof fn law_an_index_gives_its_step(
    steps: Seq<i64>,
    default: i64,
    slow: i64,
    fast: i64,
    tolerance: i64,
)
    ensures
        forall|i: int| 0 <= i < steps.len() ==> step_at(steps, i, default) == #[trigger] steps[i],
        forall|i: int| i < 0 || i >= steps.len() ==> #[trigger] step_at(steps, i, default) == default,
        0 <= slow < 5 ==> prefs_at(slow, fast, tolerance).slow_ns == SLOW_STEPS@[slow as int],
        slow < 0 || 5 <= slow ==> prefs_at(slow, fast, tolerance).slow_ns == 10_000_000_000,
        0 <= fast < 6 ==> prefs_at(slow, fast, tolerance).fast_ns == FAST_STEPS@[fast as int],
        fast < 0 || 6 <= fast ==> prefs_at(slow, fast, tolerance).fast_ns == 1_000_000_000,
        0 <= tolerance < 5 ==> prefs_at(slow, fast, tolerance).tolerance_ns
            == TOLERANCE_STEPS@[tolerance as int],
        tolerance < 0 || 5 <= tolerance ==> prefs_at(slow, fast, tolerance).tolerance_ns
            == 30_000_000,
{
}

/// Digits behind the point are written one by one, and zeros at the end are
/// left out.
pub proof fn law_decimals_are_written_one_by_one(n: nat, d: nat, width: nat)
    requires
        d < 10,
    ensures
        padded(n, 0).len() == 0,
        padded(10 * n + d, width + 1) == padded(n, width).push(digit(d as int)),
        decimals(n, 0).len() == 0,
        d > 0 ==> decimals(10 * n + d, width + 1) == padded(10 * n + d, width + 1),
        decimals(10 * n, width + 1) == decimals(n, width),
{
    assert((10 * n + d) / 10 == n);
    assert((10 * n + d) % 10 == d);
    assert((10 * n) / 10 == n);
    assert((10 * n) % 10 == 0);
}

/// How far the seconds of a duration are from a whole number `w`, over their
/// denominator: that of the duration itself, give or take a nanosecond.
proof fn lemma_secs_are_near(ns: u64, w: int)
    requires
        0 < ns <= SECS_NS_MAX,
    ensures
        ({
            let (m, p) = secs_of(ns);
            let e = ns - w * 1_000_000_000;
            &&& 0 < m
            &&& 0 < p
            &&& (e - 1) * p <= (m - w * p) * 1_000_000_000 <= (e + 1) * p
        }),
{
    crate::double::law_double_is_near(ns as int, NS_PER_SEC as int);
    let (m, p) = secs_of(ns);
    let n = ns as int;
    let x = m * 1_000_000_000 - n * p;
    assert(-p <= x <= p) by (nonlinear_arith)
        requires
            -(n * p) <= 2 * (UNIT * x) <= n * p,
            0 < n <= 8_388_608_000_000_000,
            0 < p,
    {
        assert(n * p <= (2 * UNIT) * p);
        assert(2 * (UNIT * x) <= (2 * UNIT) * p);
        assert(-((2 * UNIT) * p) <= 2 * (UNIT * x));
    }
    let e = n - w * 1_000_000_000;
    assert((m - w * p) * 1_000_000_000 == x + e * p) by (nonlinear_arith)
        requires
            x == m * 1_000_000_000 - n * p,
            e == n - w * 1_000_000_000,
    ;
    assert((e - 1) * p == e * p - p && (e + 1) * p == e * p + p) by (nonlinear_arith);
}

/// A duration that is less than a microsecond from whole seconds is shown as
/// whole seconds; one that is more than a microsecond from them with all its
/// decimals.
pub proof fn law_durations_are_whole_or_in_full(ns: u64, k: nat)
    requires
        ns <= SECS_NS_MAX,
    ensures
        -998 <= ns - k * 1_000_000_000 <= 998 ==> secs_text(ns) == dec(k).push('s'),
        1_002 <= ns % 1_000_000_000 <= 999_998_998 ==> secs_text(ns) == (dec(
            (ns / 1_000_000_000) as nat,
        ).push('.') + decimals((ns % 1_000_000_000) as nat, 9)).push('s'),
{
    reveal_strlit("s");
    reveal_strlit(".");
    assert("s"@ =~= seq!['s']);
    assert("."@ =~= seq!['.']);
    let (m, p) = secs_of(ns);
    let whole = half_up(m, p);
    if ns == 0 {
        assert(m == 0 && p == 1);
        lemma_half_up(0, 1);
        assert(whole == 0);
        assert(k == 0 || k * 1_000_000_000 >= 1_000_000_000);
        assert(whole * p == 0) by (nonlinear_arith)
            requires
                whole == 0,
        ;
        assert(off_by(m, p, whole) == 0);
        assert(dec(0) + "s"@ =~= dec(0).push('s'));
    } else {
        lemma_secs_are_near(ns, k as int);
        law_rounding_is_nearest(m, p);
        if -998 <= ns - k * 1_000_000_000 <= 998 {
            let e = ns - k * 1_000_000_000;
            let y = m - k * p;
            assert(-(999 * p) <= y * 1_000_000_000 <= 999 * p) by (nonlinear_arith)
                requires
                    (e - 1) * p <= y * 1_000_000_000 <= (e + 1) * p,
                    -998 <= e <= 998,
                    0 < p,
            ;
            let z = whole * p - m;
            assert(whole == k) by (nonlinear_arith)
                requires
                    y == m - k * p,
                    z == whole * p - m,
                    -(999 * p) <= y * 1_000_000_000 <= 999 * p,
                    -p <= 2 * z <= p,
                    0 < p,
            {
                assert(y + z == (whole - k) * p);
                assert(2 * (y + z) < 2 * p && -(2 * p) < 2 * (y + z));
                if whole > k {
                    assert((whole - k) * p >= p);
                }
                if whole < k {
                    assert((whole - k) * p <= -p);
                }
            }
            let off = off_by(m, p, whole);
            assert(off == y || off == -y);
            assert(off * TWO_72 < MICRO_72 * p) by (nonlinear_arith)
                requires
                    off * 1_000_000_000 <= 999 * p,
                    0 <= off,
                    0 < p,
            {
                assert((off * 1_000_000_000) * TWO_72 <= (999 * p) * TWO_72);
                assert((999 * p) * TWO_72 == (999 * TWO_72) * p);
                assert(999 * TWO_72 < MICRO_72 * 1_000_000_000);
                assert((999 * TWO_72) * p < (MICRO_72 * 1_000_000_000) * p);
            }
            assert(dec(k) + "s"@ =~= dec(k).push('s'));
        }
        if 1_002 <= ns % 1_000_000_000 <= 999_998_998 {
            lemma_secs_are_near(ns, whole);
            let e = ns - whole * 1_000_000_000;
            assert(e >= 1_002 || e <= -1_002) by {
                let q = (ns / 1_000_000_000) as int;
                assert(ns == q * 1_000_000_000 + ns % 1_000_000_000);
                if whole <= q {
                    assert(whole * 1_000_000_000 <= q * 1_000_000_000);
                } else {
                    assert(whole * 1_000_000_000 >= (q + 1) * 1_000_000_000);
                }
            }
            let y = m - whole * p;
            let off = off_by(m, p, whole);
            assert(off * 1_000_000_000 >= 1_001 * p) by (nonlinear_arith)
                requires
                    (e - 1) * p <= y * 1_000_000_000 <= (e + 1) * p,
                    e >= 1_002 || e <= -1_002,
                    off == y || off == -y,
                    off >= 0,
                    0 < p,
            {
                if e >= 1_002 {
                    assert((e - 1) * p >= 1_001 * p);
                    assert(y > 0);
                } else {
                    assert((e + 1) * p <= -(1_001 * p));
                    assert(y < 0);
                }
            }
            assert(off * TWO_72 >= MICRO_72 * p) by (nonlinear_arith)
                requires
                    off * 1_000_000_000 >= 1_001 * p,
                    0 < p,
            {
                assert((off * 1_000_000_000) * TWO_72 >= (1_001 * p) * TWO_72);
                assert((1_001 * p) * TWO_72 == (1_001 * TWO_72) * p);
                assert(1_001 * TWO_72 >= MICRO_72 * 1_000_000_000);
                assert((1_001 * TWO_72) * p >= (MICRO_72 * 1_000_000_000) * p);
            }
            assert(secs_text(ns) =~= (dec((ns / 1_000_000_000) as nat).push('.') + decimals(
                (ns % 1_000_000_000) as nat,
                9,
            )).push('s'));
        }
    }
}

/// A latency of whole milliseconds is shown as that number.
pub proof fn law_whole_milliseconds_are_shown_as_they_are(k: u32)
    ensures
        whole_ms_text((k * 1_000_000) as u64) == dec(k as nat),
{
    let ns = k * 1_000_000;
    let (m, p) = nearest_double(ns, NS_PER_MS as int);
    crate::double::law_double_is_the_nearest_of_its_digits(ns, NS_PER_MS as int);
    if k > 0 {
        crate::double::law_double_is_near(ns, NS_PER_MS as int);
    }
    let x = m - k * p;
    assert(m * 1_000_000 - ns * p == x * 1_000_000) by (nonlinear_arith)
        requires
            x == m - k * p,
            ns == k * 1_000_000,
    ;
    assert(x == 0);
    vstd::arithmetic::div_mod::lemma_fundamental_div_mod_converse(m, p, k as int, 0);
}

} // verus!
