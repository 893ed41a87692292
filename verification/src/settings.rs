//! Preferences and targets: the values that the sliders offer, what is stored,
//! and what stored text means. Durations and latencies are in nanoseconds.

use vstd::prelude::*;
use crate::ping::{hosts_of, PingTarget};
use crate::text::{text_of, texts_of};

verus! {

pub const TARGETS_KEY: &'static str = "ping_targets";

pub const PREFS_KEY: &'static str = "preferences";

// Discrete step values for each slider. The slider UI is a 0..N-1 integer
// index; these arrays map index → real value.
pub const SLOW_STEPS: [i64; 5] = [
    2_000_000_000,
    5_000_000_000,
    10_000_000_000,
    30_000_000_000,
    60_000_000_000,
];

pub const FAST_STEPS: [i64; 6] = [
    250_000_000,
    500_000_000,
    1_000_000_000,
    2_000_000_000,
    5_000_000_000,
    10_000_000_000,
];

/// Latency below which sparkline cells stay fully green. Lower =
/// stricter (turns yellow sooner); higher = more tolerant.
pub const TOLERANCE_STEPS: [i64; 5] = [20_000_000, 30_000_000, 60_000_000, 100_000_000, 200_000_000];

pub const SLOW_DEFAULT: i64 = 10_000_000_000;

pub const FAST_DEFAULT: i64 = 1_000_000_000;

pub const TOLERANCE_DEFAULT: i64 = 30_000_000;

/// How far `a` is from `b`.
pub open spec fn distance(a: i64, b: i64) -> int {
    if a <= b {
        b - a
    } else {
        a - b
    }
}

/// Whether step `k` is the closest to `v`: no step is closer, and none before
/// it is as close.
pub open spec fn is_closest(steps: Seq<i64>, v: i64, k: int) -> bool {
    &&& 0 <= k < steps.len()
    &&& forall|j: int|
        0 <= j < steps.len() ==> distance(steps[k], v) <= distance(#[trigger] steps[j], v)
    &&& forall|j: int| 0 <= j < k ==> distance(steps[k], v) < distance(#[trigger] steps[j], v)
}

/// There is a closest step, and only one.
pub proof fn lemma_closest_step(steps: Seq<i64>, v: i64)
    requires
        steps.len() > 0,
    ensures
        exists|k: int| is_closest(steps, v, k),
        forall|k: int, m: int| is_closest(steps, v, k) && is_closest(steps, v, m) ==> k == m,
    decreases steps.len(),
{
    let last = steps.len() - 1;
    if steps.len() == 1 {
        assert(is_closest(steps, v, 0));
    } else {
        let before = steps.drop_last();
        lemma_closest_step(before, v);
        let k = choose|k: int| is_closest(before, v, k);
        assert(forall|j: int| 0 <= j < last ==> #[trigger] steps[j] == before[j]);
        if distance(steps[last], v) < distance(steps[k], v) {
            assert(is_closest(steps, v, last));
        } else {
            assert(is_closest(steps, v, k));
        }
    }
    assert forall|k: int, m: int| is_closest(steps, v, k) && is_closest(steps, v, m) implies k
        == m by {
        assert(distance(steps[k], v) <= distance(steps[m], v));
        assert(distance(steps[m], v) <= distance(steps[k], v));
    }
}

/// The step closest to `v`; `v` itself if there are no steps.
pub open spec fn snapped(steps: Seq<i64>, v: i64) -> i64 {
    if steps.len() == 0 {
        v
    } else {
        steps[choose|k: int| is_closest(steps, v, k)]
    }
}

fn gap(a: i64, b: i64) -> (r: i128)
    ensures
        r == distance(a, b),
{
    if a <= b {
        b as i128 - a as i128
    } else {
        a as i128 - b as i128
    }
}

/// The index of the step closest to `v`; 0 if there are no steps.
pub fn closest_step(steps: &[i64], v: i64) -> (r: usize)
    ensures
        if steps@.len() == 0 {
            r == 0
        } else {
            is_closest(steps@, v, r as int)
        },
{
    let mut best: usize = 0;
    let mut i: usize = 1;
    while i < steps.len()
        invariant
            1 <= i,
            steps@.len() > 0 ==> {
                &&& best < i <= steps@.len()
                &&& forall|j: int|
                    0 <= j < i ==> distance(steps@[best as int], v) <= distance(
                        #[trigger] steps@[j],
                        v,
                    )
                &&& forall|j: int|
                    0 <= j < best ==> distance(steps@[best as int], v) < distance(
                        #[trigger] steps@[j],
                        v,
                    )
            },
            steps@.len() == 0 ==> best == 0,
        decreases steps.len() - i,
    {
        if gap(steps[i], v) < gap(steps[best], v) {
            best = i;
        }
        i += 1;
    }
    best
}

/// Snap an arbitrary value to the closest entry in `steps`.
pub fn snap_to_steps(steps: &[i64], v: i64) -> (r: i64)
    ensures
        r == snapped(steps@, v),
        steps@.len() > 0 ==> exists|k: int| #[trigger] is_closest(steps@, v, k) && r == steps@[k],
{
    if steps.len() == 0 {
        v
    } else {
        let k = closest_step(steps, v);
        assert(is_closest(steps@, v, k as int));
        proof {
            lemma_closest_step(steps@, v);
        }
        steps[k]
    }
}

/// A value among the steps is snapped to itself, and every snapped value is
/// one of the steps.
pub proof fn law_steps_snap_to_themselves(steps: Seq<i64>, v: i64)
    requires
        steps.len() > 0,
    ensures
        steps.contains(snapped(steps, v)),
        steps.contains(v) ==> snapped(steps, v) == v,
        snapped(steps, snapped(steps, v)) == snapped(steps, v),
{
    lemma_closest_step(steps, v);
    let w = snapped(steps, v);
    let k = choose|k: int| is_closest(steps, v, k);
    assert(steps[k] == w);
    lemma_closest_step(steps, w);
    let m = choose|m: int| is_closest(steps, w, m);
    assert(distance(steps[m], w) <= distance(steps[k], w));
    if steps.contains(v) {
        let i = choose|i: int| 0 <= i < steps.len() && steps[i] == v;
        assert(distance(steps[k], v) <= distance(steps[i], v));
    }
}

/// The tunable preferences.
#[derive(Clone, Copy, Debug, PartialEq, Eq, Structural)]
pub struct AppPrefs {
    pub slow_ns: i64,
    pub fast_ns: i64,
    pub tolerance_ns: i64,
}

/// The preferences before the user sets any.
pub open spec fn default_prefs() -> AppPrefs {
    AppPrefs { slow_ns: SLOW_DEFAULT, fast_ns: FAST_DEFAULT, tolerance_ns: TOLERANCE_DEFAULT }
}

impl Default for AppPrefs {
    fn default() -> (r: Self)
        ensures
            r == default_prefs(),
    {
        AppPrefs { slow_ns: SLOW_DEFAULT, fast_ns: FAST_DEFAULT, tolerance_ns: TOLERANCE_DEFAULT }
    }
}

/// Whether every preference is one that its slider offers.
pub open spec fn on_steps(p: AppPrefs) -> bool {
    &&& SLOW_STEPS@.contains(p.slow_ns)
    &&& FAST_STEPS@.contains(p.fast_ns)
    &&& TOLERANCE_STEPS@.contains(p.tolerance_ns)
}

/// The preferences as they are stored; any may be missing.
#[derive(Clone, Copy, Debug, PartialEq, Eq, Structural)]
pub struct StoredPrefs {
    pub slow_ns: Option<i64>,
    pub fast_ns: Option<i64>,
    pub tolerance_ns: Option<i64>,
}

/// The value, or the default where there is none.
pub open spec fn value_or(v: Option<i64>, default: i64) -> i64 {
    match v {
        Some(x) => x,
        None => default,
    }
}

/// What stored preferences mean: what is missing is the default, and every
/// value is snapped to the steps of its slider.
pub open spec fn loaded_prefs(stored: Option<StoredPrefs>) -> AppPrefs {
    let s = match stored {
        Some(s) => s,
        None => StoredPrefs { slow_ns: None, fast_ns: None, tolerance_ns: None },
    };
    AppPrefs {
        slow_ns: snapped(SLOW_STEPS@, value_or(s.slow_ns, SLOW_DEFAULT)),
        fast_ns: snapped(FAST_STEPS@, value_or(s.fast_ns, FAST_DEFAULT)),
        tolerance_ns: snapped(TOLERANCE_STEPS@, value_or(s.tolerance_ns, TOLERANCE_DEFAULT)),
    }
}

/// The preferences that were stored; `None` if nothing readable was.
pub fn load_prefs(stored: Option<StoredPrefs>) -> (r: AppPrefs)
    ensures
        r == loaded_prefs(stored),
        on_steps(r),
{
    let s = match stored {
        Some(s) => s,
        None => StoredPrefs { slow_ns: None, fast_ns: None, tolerance_ns: None },
    };
    proof {
        law_loaded_prefs_are_on_steps(stored);
    }
    AppPrefs {
        slow_ns: snap_to_steps(&SLOW_STEPS, s.slow_ns.unwrap_or(SLOW_DEFAULT)),
        fast_ns: snap_to_steps(&FAST_STEPS, s.fast_ns.unwrap_or(FAST_DEFAULT)),
        tolerance_ns: snap_to_steps(
            &TOLERANCE_STEPS,
            s.tolerance_ns.unwrap_or(TOLERANCE_DEFAULT),
        ),
    }
}

/// The preferences as they are to be stored.
pub open spec fn stored_form(p: AppPrefs) -> StoredPrefs {
    StoredPrefs {
        slow_ns: Some(p.slow_ns),
        fast_ns: Some(p.fast_ns),
        tolerance_ns: Some(p.tolerance_ns),
    }
}

/// Prepare preferences to be stored.
pub fn save_prefs(p: &AppPrefs) -> (r: StoredPrefs)
    ensures
        r == stored_form(*p),
{
    StoredPrefs {
        slow_ns: Some(p.slow_ns),
        fast_ns: Some(p.fast_ns),
        tolerance_ns: Some(p.tolerance_ns),
    }
}

/// Whatever was stored, the loaded preferences are ones that the sliders offer.
pub proof fn law_loaded_prefs_are_on_steps(stored: Option<StoredPrefs>)
    ensures
        on_steps(loaded_prefs(stored)),
{
    let s = match stored {
        Some(s) => s,
        None => StoredPrefs { slow_ns: None, fast_ns: None, tolerance_ns: None },
    };
    law_steps_snap_to_themselves(SLOW_STEPS@, value_or(s.slow_ns, SLOW_DEFAULT));
    law_steps_snap_to_themselves(FAST_STEPS@, value_or(s.fast_ns, FAST_DEFAULT));
    law_steps_snap_to_themselves(TOLERANCE_STEPS@, value_or(s.tolerance_ns, TOLERANCE_DEFAULT));
}

/// Preferences that the sliders offer come back as they were saved.
pub proof fn law_saved_prefs_load_back(p: AppPrefs)
    requires
        on_steps(p),
    ensures
        loaded_prefs(Some(stored_form(p))) == p,
{
    law_steps_snap_to_themselves(SLOW_STEPS@, p.slow_ns);
    law_steps_snap_to_themselves(FAST_STEPS@, p.fast_ns);
    law_steps_snap_to_themselves(TOLERANCE_STEPS@, p.tolerance_ns);
}

/// With nothing stored the defaults hold; they are ones that the sliders offer.
pub proof fn law_nothing_stored_means_defaults()
    ensures
        loaded_prefs(None) == default_prefs(),
        on_steps(default_prefs()),
{
    assert(SLOW_STEPS@[2] == SLOW_DEFAULT);
    assert(FAST_STEPS@[2] == FAST_DEFAULT);
    assert(TOLERANCE_STEPS@[1] == TOLERANCE_DEFAULT);
    law_steps_snap_to_themselves(SLOW_STEPS@, SLOW_DEFAULT);
    law_steps_snap_to_themselves(FAST_STEPS@, FAST_DEFAULT);
    law_steps_snap_to_themselves(TOLERANCE_STEPS@, TOLERANCE_DEFAULT);
}

/// What `serde_json::from_str` reads as a `Vec<String>`; `None` where the text
/// is not a JSON array of strings.
pub uninterp spec fn json_strings(text: Seq<char>) -> Option<Seq<Seq<char>>>;

/// `serde_json::from_str::<Vec<String>>`: the strings of a JSON array. The
/// grammar is that of JSON; of the result it is said only that it depends on
/// the text alone.
#[verifier::external_body]
fn parse_json_strings(text: &str) -> (r: Option<Vec<String>>)
    ensures
        match r {
            Some(list) => json_strings(text@) == Some(texts_of(list@)),
            None => json_strings(text@) is None,
        },
{
    serde_json::from_str::<Vec<String>>(text).ok()
}

/// What `serde_json::to_string` writes for a list of strings.
pub uninterp spec fn json_of_strings(list: Seq<Seq<char>>) -> Seq<char>;

/// `serde_json::to_string` of a list of strings, which cannot fail. The text
/// depends on the list alone, and `serde_json::from_str` reads the same
/// strings back from it.
#[verifier::external_body]
fn write_json_strings(list: &Vec<String>) -> (r: String)
    ensures
        r@ == json_of_strings(texts_of(list@)),
        json_strings(r@) == Some(texts_of(list@)),
{
    serde_json::to_string(list).expect("serializable")
}

/// The hosts that were stored: those of the current format (an array of host
/// strings), or else those of the legacy format; `None` if there are none.
pub open spec fn stored_hosts(
    current: Option<Seq<Seq<char>>>,
    legacy: Option<Seq<Seq<char>>>,
) -> Option<Seq<Seq<char>>> {
    let hosts = match current {
        Some(h) => Some(h),
        None => legacy,
    };
    match hosts {
        Some(h) if h.len() > 0 => Some(h),
        _ => None,
    }
}

/// The texts of an optional list of strings.
pub open spec fn list_of(list: Option<Vec<String>>) -> Option<Seq<Seq<char>>> {
    match list {
        Some(l) => Some(texts_of(l@)),
        None => None,
    }
}

/// The hosts of an optional list of targets.
pub open spec fn targets_of(targets: Option<Vec<PingTarget>>) -> Option<Seq<Seq<char>>> {
    match targets {
        Some(t) => Some(hosts_of(t@)),
        None => None,
    }
}

/// A target for each host.
fn targets_for(hosts: &Vec<String>) -> (r: Vec<PingTarget>)
    ensures
        hosts_of(r@) == texts_of(hosts@),
{
    let mut r: Vec<PingTarget> = Vec::new();
    assert(hosts_of(r@) =~= texts_of(hosts@).take(0));
    while r.len() < hosts.len()
        invariant
            r@.len() <= hosts@.len(),
            hosts_of(r@) == texts_of(hosts@).take(r@.len() as int),
        decreases hosts.len() - r.len(),
    {
        let i: usize = r.len();
        let t = PingTarget { host: hosts[i].clone() };
        let ghost before = r@;
        r.push(t);
        assert(hosts_of(r@) =~= hosts_of(before).push(t@));
        assert(texts_of(hosts@)[i as int] == hosts@[i as int]@);
        assert(hosts_of(r@) =~= texts_of(hosts@).take(r@.len() as int));
    }
    assert(texts_of(hosts@).take(r@.len() as int) =~= texts_of(hosts@));
    r
}

/// The targets that the two readings of the stored text give: `current` as an
/// array of strings, `legacy` as the hosts of an array of entries.
pub fn targets_from(current: Option<Vec<String>>, legacy: Option<Vec<String>>) -> (r: Option<
    Vec<PingTarget>,
>)
    ensures
        targets_of(r) == stored_hosts(list_of(current), list_of(legacy)),
{
    let hosts: Vec<String> = match current {
        Some(h) => h,
        None => match legacy {
            Some(h) => h,
            None => return None,
        },
    };
    if hosts.len() == 0 {
        return None;
    }
    Some(targets_for(&hosts))
}

/// What stored text means as targets.
pub open spec fn loaded_hosts(
    text: Option<Seq<char>>,
    legacy: Option<Seq<Seq<char>>>,
) -> Option<Seq<Seq<char>>> {
    match text {
        Some(t) => stored_hosts(json_strings(t), legacy),
        None => None,
    }
}

/// The targets that were stored; `None` if none were. The current format is a
/// plain JSON array of host strings. The legacy format had a name and a host
/// per entry: `legacy` holds the hosts of the text read in that format.
pub fn load_targets(text: &Option<String>, legacy: Option<Vec<String>>) -> (r: Option<
    Vec<PingTarget>,
>)
    ensures
        targets_of(r) == loaded_hosts(text_of(*text), list_of(legacy)),
{
    match text {
        Some(t) => targets_from(parse_json_strings(t.as_str()), legacy),
        None => None,
    }
}

/// The text to store for the targets. Targets come back from it as they were
/// saved; an empty list comes back as none.
pub fn save_targets(targets: &[PingTarget]) -> (r: String)
    ensures
        r@ == json_of_strings(hosts_of(targets@)),
        forall|legacy: Option<Seq<Seq<char>>>|
            #[trigger] loaded_hosts(Some(r@), legacy) == if targets@.len() > 0 {
                Some(hosts_of(targets@))
            } else {
                None
            },
{
    let mut hosts: Vec<String> = Vec::new();
    assert(texts_of(hosts@) =~= hosts_of(targets@).take(0));
    while hosts.len() < targets.len()
        invariant
            hosts@.len() <= targets@.len(),
            texts_of(hosts@) == hosts_of(targets@).take(hosts@.len() as int),
        decreases targets.len() - hosts.len(),
    {
        let i: usize = hosts.len();
        let h = targets[i].host.clone();
        let ghost before = hosts@;
        hosts.push(h);
        assert(texts_of(hosts@) =~= texts_of(before).push(h@));
        assert(hosts_of(targets@)[i as int] == targets@[i as int]@);
        assert(texts_of(hosts@) =~= hosts_of(targets@).take(hosts@.len() as int));
    }
    assert(hosts_of(targets@).take(hosts@.len() as int) =~= hosts_of(targets@));
    write_json_strings(&hosts)
}

/// The hosts that are watched before the user sets any.
pub open spec fn default_hosts() -> Seq<Seq<char>> {
    seq!["google.com"@, "cloudflare.com"@, "apple.com"@]
}

/// The targets to start with, and whether they are to be saved: those that
/// were loaded, or else the defaults, which are saved.
pub fn initial_targets(loaded: Option<Vec<PingTarget>>) -> (r: (Vec<PingTarget>, bool))
    ensures
        match loaded {
            Some(t) => r.0 == t && !r.1,
            None => hosts_of(r.0@) == default_hosts() && r.1,
        },
{
    match loaded {
        Some(t) => (t, false),
        None => {
            let mut t: Vec<PingTarget> = Vec::new();
            t.push(PingTarget { host: "google.com".to_string() });
            t.push(PingTarget { host: "cloudflare.com".to_string() });
            t.push(PingTarget { host: "apple.com".to_string() });
            assert(hosts_of(t@) =~= default_hosts());
            (t, true)
        },
    }
}

/// The targets after a reload: those that were loaded, or else the ones in
/// use.
pub fn reload_settings(current: Vec<PingTarget>, loaded: Option<Vec<PingTarget>>) -> (r: Vec<
    PingTarget,
>)
    ensures
        r == match loaded {
            Some(t) => t,
            None => current,
        },
{
    match loaded {
        Some(t) => t,
        None => current,
    }
}

/// A value is snapped to a step such that no step is nearer to it and none
/// before that step is as near; without steps it stays as it is.
pub proof fn law_no_step_is_nearer_than_the_snapped_one(steps: Seq<i64>, v: i64)
    ensures
        steps.len() == 0 ==> snapped(steps, v) == v,
        steps.len() > 0 ==> exists|k: int|
            0 <= k < steps.len() && snapped(steps, v) == #[trigger] steps[k] && (forall|j: int|
                0 <= j < steps.len() ==> (if steps[k] < v {
                    v - steps[k]
                } else {
                    steps[k] - v
                }) <= (if #[trigger] steps[j] < v {
                    v - steps[j]
                } else {
                    steps[j] - v
                })) && (forall|j: int|
                0 <= j < k ==> (if steps[k] < v {
                    v - steps[k]
                } else {
                    steps[k] - v
                }) < (if #[trigger] steps[j] < v {
                    v - steps[j]
                } else {
                    steps[j] - v
                })),
{
    if steps.len() > 0 {
        lemma_closest_step(steps, v);
        let k = choose|k: int| is_closest(steps, v, k);
        assert(snapped(steps, v) == steps[k]);
        assert forall|j: int| 0 <= j < steps.len() implies (if steps[k] < v {
            v - steps[k]
        } else {
            steps[k] - v
        }) <= (if #[trigger] steps[j] < v {
            v - steps[j]
        } else {
            steps[j] - v
        }) by {
            assert(distance(steps[k], v) <= distance(steps[j], v));
        }
        assert forall|j: int| 0 <= j < k implies (if steps[k] < v {
            v - steps[k]
        } else {
            steps[k] - v
        }) < (if #[trigger] steps[j] < v {
            v - steps[j]
        } else {
            steps[j] - v
        }) by {
            assert(distance(steps[k], v) < distance(steps[j], v));
        }
    }
}

/// Each preference is loaded for itself: what was stored, snapped to the steps
/// of its own slider, or its own default: 10 seconds, 1 second, 30
/// milliseconds.
pub proof fn law_each_preference_is_loaded_for_itself(s: StoredPrefs)
    ensures
        s.slow_ns is Some ==> loaded_prefs(Some(s)).slow_ns == snapped(SLOW_STEPS@, s.slow_ns->0),
        s.fast_ns is Some ==> loaded_prefs(Some(s)).fast_ns == snapped(FAST_STEPS@, s.fast_ns->0),
        s.tolerance_ns is Some ==> loaded_prefs(Some(s)).tolerance_ns == snapped(
            TOLERANCE_STEPS@,
            s.tolerance_ns->0,
        ),
        s.slow_ns is None ==> loaded_prefs(Some(s)).slow_ns == 10_000_000_000,
        s.fast_ns is None ==> loaded_prefs(Some(s)).fast_ns == 1_000_000_000,
        s.tolerance_ns is None ==> loaded_prefs(Some(s)).tolerance_ns == 30_000_000,
        loaded_prefs(None).slow_ns == 10_000_000_000,
        loaded_prefs(None).fast_ns == 1_000_000_000,
        loaded_prefs(None).tolerance_ns == 30_000_000,
        SLOW_STEPS@ == seq![
            2_000_000_000i64,
            5_000_000_000,
            10_000_000_000,
            30_000_000_000,
            60_000_000_000,
        ],
        FAST_STEPS@ == seq![
            250_000_000i64,
            500_000_000,
            1_000_000_000,
            2_000_000_000,
            5_000_000_000,
            10_000_000_000,
        ],
        TOLERANCE_STEPS@ == seq![20_000_000i64, 30_000_000, 60_000_000, 100_000_000, 200_000_000],
{
    law_nothing_stored_means_defaults();
    assert(SLOW_STEPS@[2] == SLOW_DEFAULT);
    assert(FAST_STEPS@[2] == FAST_DEFAULT);
    assert(TOLERANCE_STEPS@[1] == TOLERANCE_DEFAULT);
    law_steps_snap_to_themselves(SLOW_STEPS@, SLOW_DEFAULT);
    law_steps_snap_to_themselves(FAST_STEPS@, FAST_DEFAULT);
    law_steps_snap_to_themselves(TOLERANCE_STEPS@, TOLERANCE_DEFAULT);
    assert(SLOW_STEPS@ =~= seq![
        2_000_000_000i64,
        5_000_000_000,
        10_000_000_000,
        30_000_000_000,
        60_000_000_000,
    ]);
    assert(FAST_STEPS@ =~= seq![
        250_000_000i64,
        500_000_000,
        1_000_000_000,
        2_000_000_000,
        5_000_000_000,
        10_000_000_000,
    ]);
    assert(TOLERANCE_STEPS@ =~= seq![
        20_000_000i64,
        30_000_000,
        60_000_000,
        100_000_000,
        200_000_000,
    ]);
}

/// Every preference is stored, each in its own place.
pub proof fn law_every_preference_is_stored(p: AppPrefs)
    ensures
        stored_form(p).slow_ns == Some(p.slow_ns),
        stored_form(p).fast_ns == Some(p.fast_ns),
        stored_form(p).tolerance_ns == Some(p.tolerance_ns),
        on_steps(p) <==> SLOW_STEPS@.contains(p.slow_ns) && FAST_STEPS@.contains(p.fast_ns)
            && TOLERANCE_STEPS@.contains(p.tolerance_ns),
{
}

/// Text that reads as a list of hosts gives all of them, in order; text that
/// does not gives those of the legacy reading; and an empty list gives none.
/// Without text nothing is stored.
pub proof fn law_stored_hosts_are_given_in_full(
    text: Seq<char>,
    legacy: Option<Seq<Seq<char>>>,
    hosts: Seq<Seq<char>>,
)
    ensures
        loaded_hosts(None, legacy) is None,
        json_strings(text) == Some(hosts) && hosts.len() > 0 ==> loaded_hosts(Some(text), legacy)
            == Some(hosts),
        json_strings(text) == Some(hosts) && hosts.len() == 0 ==> loaded_hosts(
            Some(text),
            legacy,
        ) is None,
        json_strings(text) is None && legacy == Some(hosts) && hosts.len() > 0 ==> loaded_hosts(
            Some(text),
            legacy,
        ) == Some(hosts),
        json_strings(text) is None && legacy == Some(hosts) && hosts.len() == 0 ==> loaded_hosts(
            Some(text),
            legacy,
        ) is None,
        json_strings(text) is None && legacy is None ==> loaded_hosts(Some(text), legacy) is None,
        stored_hosts(json_strings(text), legacy) == loaded_hosts(Some(text), legacy),
        hosts.len() > 0 ==> stored_hosts(Some(hosts), legacy) == Some(hosts),
        hosts.len() == 0 ==> stored_hosts(Some(hosts), legacy) is None,
        hosts.len() > 0 ==> stored_hosts(None, Some(hosts)) == Some(hosts),
        stored_hosts(None, None) is None,
{
}

/// The first targets are google.com, cloudflare.com and apple.com; and lists of
/// targets and of strings are told in full.
pub proof fn law_targets_are_told_in_full(targets: Vec<PingTarget>, list: Vec<String>)
    ensures
        default_hosts().len() == 3,
        default_hosts()[0] == "google.com"@,
        default_hosts()[1] == "cloudflare.com"@,
        default_hosts()[2] == "apple.com"@,
        targets_of(None) is None,
        targets_of(Some(targets)) == Some(hosts_of(targets@)),
        list_of(None) is None,
        list_of(Some(list)) == Some(texts_of(list@)),
        TARGETS_KEY@ == "ping_targets"@,
        PREFS_KEY@ == "preferences"@,
{
}

} // verus!
