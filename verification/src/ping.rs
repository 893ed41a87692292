//! The ping service: which hosts are probed, what each probe brought back, and
//! the steps of one probe. The probes themselves are sent elsewhere.

use vstd::prelude::*;

verus! {

/// How long a probe waits for its reply, in nanoseconds.
pub const PING_TIMEOUT: u64 = 10_000_000_000;

/// How many bytes an echo request carries.
pub const PAYLOAD_LEN: usize = 32;

/// How long a sample is kept, in nanoseconds: the time that a sparkline covers.
pub const RETENTION: u64 = 300_000_000_000;

/// A service that the user watches.
#[derive(Debug)]
pub struct PingTarget {
    pub host: String,
}

impl View for PingTarget {
    type V = Seq<char>;

    open spec fn view(&self) -> Seq<char> {
        self.host@
    }
}

impl Clone for PingTarget {
    fn clone(&self) -> (r: Self)
        ensures
            r@ == self@,
    {
        PingTarget { host: self.host.clone() }
    }
}

/// The hosts of a list of targets.
pub open spec fn hosts_of(targets: Seq<PingTarget>) -> Seq<Seq<char>> {
    targets.map_values(|t: PingTarget| t@)
}

/// How a host is probed.
#[derive(Clone, Copy, Debug, PartialEq, Eq, Structural)]
pub enum ProbeKind {
    /// By an ICMP echo request.
    Echo,
    /// By opening a TCP connection.
    Tcp,
}

/// A host, and how it is probed.
#[derive(Debug)]
pub struct Probe {
    pub host: String,
    pub kind: ProbeKind,
}

/// The value of a `Probe`.
pub struct ProbeModel {
    pub host: Seq<char>,
    pub kind: ProbeKind,
}

impl View for Probe {
    type V = ProbeModel;

    open spec fn view(&self) -> ProbeModel {
        ProbeModel { host: self.host@, kind: self.kind }
    }
}

impl Clone for Probe {
    fn clone(&self) -> (r: Self)
        ensures
            r@ == self@,
    {
        Probe { host: self.host.clone(), kind: self.kind }
    }
}

/// The values of a list of probes.
pub open spec fn probes_model(probes: Seq<Probe>) -> Seq<ProbeModel> {
    probes.map_values(|p: Probe| p@)
}

/// What is known of a probe.
#[derive(Debug)]
pub enum PingResult {
    /// A reply came, after so many nanoseconds.
    Reply(u64),
    Timeout,
    Error(String),
    /// No probe has come back yet.
    Pending,
}

/// The value of a `PingResult`.
pub enum ResultModel {
    Reply(u64),
    Timeout,
    Error(Seq<char>),
    Pending,
}

impl View for PingResult {
    type V = ResultModel;

    open spec fn view(&self) -> ResultModel {
        match *self {
            PingResult::Reply(ns) => ResultModel::Reply(ns),
            PingResult::Timeout => ResultModel::Timeout,
            PingResult::Error(e) => ResultModel::Error(e@),
            PingResult::Pending => ResultModel::Pending,
        }
    }
}

impl Clone for PingResult {
    fn clone(&self) -> (r: Self)
        ensures
            r@ == self@,
    {
        match self {
            PingResult::Reply(ns) => PingResult::Reply(*ns),
            PingResult::Timeout => PingResult::Timeout,
            PingResult::Error(e) => PingResult::Error(e.clone()),
            PingResult::Pending => PingResult::Pending,
        }
    }
}

/// One result, and when it came: nanoseconds on a clock that never goes back.
#[derive(Debug)]
pub struct Sample {
    pub at: u64,
    pub result: PingResult,
}

/// The value of a `Sample`.
pub struct SampleModel {
    pub at: u64,
    pub result: ResultModel,
}

impl View for Sample {
    type V = SampleModel;

    open spec fn view(&self) -> SampleModel {
        SampleModel { at: self.at, result: self.result@ }
    }
}

impl Clone for Sample {
    fn clone(&self) -> (r: Self)
        ensures
            r@ == self@,
    {
        Sample { at: self.at, result: self.result.clone() }
    }
}

/// The values of a list of samples.
pub open spec fn samples_model(samples: Seq<Sample>) -> Seq<SampleModel> {
    samples.map_values(|s: Sample| s@)
}

/// What is known of one probed host: the latest result and the kept samples.
#[derive(Debug)]
pub struct HostSnapshot {
    pub current: PingResult,
    pub samples: Vec<Sample>,
}

/// The value of a `HostSnapshot`.
pub struct SnapshotModel {
    pub current: ResultModel,
    pub samples: Seq<SampleModel>,
}

impl View for HostSnapshot {
    type V = SnapshotModel;

    open spec fn view(&self) -> SnapshotModel {
        SnapshotModel { current: self.current@, samples: samples_model(self.samples@) }
    }
}

/// The values of a list of snapshots.
pub open spec fn snapshots_model(snaps: Seq<HostSnapshot>) -> Seq<SnapshotModel> {
    snaps.map_values(|s: HostSnapshot| s@)
}

/// A probed host, the number of the task that probes it, and what it brought.
#[derive(Debug)]
struct Slot {
    probe: Probe,
    task: u64,
    current: PingResult,
    samples: Vec<Sample>,
}

/// The value of a slot.
pub struct SlotModel {
    pub probe: ProbeModel,
    pub task: u64,
    pub current: ResultModel,
    pub samples: Seq<SampleModel>,
}

impl Slot {
    spec fn model(self) -> SlotModel {
        SlotModel {
            probe: self.probe@,
            task: self.task,
            current: self.current@,
            samples: samples_model(self.samples@),
        }
    }
}

spec fn slots_model(slots: Seq<Slot>) -> Seq<SlotModel> {
    slots.map_values(|s: Slot| s.model())
}

/// The set of probed hosts, in order.
#[derive(Debug)]
pub struct PingService {
    slots: Vec<Slot>,
    next_task: u64,
    interval_ns: u64,
}

/// The value of a `PingService`.
pub struct ServiceModel {
    pub slots: Seq<SlotModel>,
    /// The number that the next started task gets.
    pub next_task: u64,
    pub interval_ns: u64,
}

impl View for PingService {
    type V = ServiceModel;

    closed spec fn view(&self) -> ServiceModel {
        ServiceModel {
            slots: slots_model(self.slots@),
            next_task: self.next_task,
            interval_ns: self.interval_ns,
        }
    }
}

/// Every slot has a task of its own, and its number was given out before.
pub open spec fn tasks_distinct(slots: Seq<SlotModel>, next_task: int) -> bool {
    &&& forall|i: int| 0 <= i < slots.len() ==> (#[trigger] slots[i]).task < next_task
    &&& forall|i: int, j: int|
        0 <= i < j < slots.len() ==> (#[trigger] slots[i]).task != (#[trigger] slots[j]).task
}

impl ServiceModel {
    pub open spec fn wf(self) -> bool {
        tasks_distinct(self.slots, self.next_task as int)
    }
}

/// A task to start.
#[derive(Debug)]
pub struct Spawn {
    pub task: u64,
    pub probe: Probe,
}

/// What a change of the hosts asks for: the tasks to start and those to abort.
#[derive(Debug)]
pub struct Retarget {
    pub spawn: Vec<Spawn>,
    pub abort: Vec<u64>,
}

/// The first slot that probes `p`; the number of slots if none does.
pub open spec fn first_with(slots: Seq<SlotModel>, p: ProbeModel) -> int
    decreases slots.len(),
{
    if slots.len() == 0 || slots[0].probe == p {
        0
    } else {
        1 + first_with(slots.drop_first(), p)
    }
}

/// A slot whose task has just started.
pub open spec fn fresh_slot(task: int, p: ProbeModel) -> SlotModel {
    SlotModel {
        probe: p,
        task: task as u64,
        current: ResultModel::Pending,
        samples: Seq::empty(),
    }
}

/// How the slots change with the hosts.
pub struct RetargetModel {
    /// The slots afterwards.
    pub slots: Seq<SlotModel>,
    /// Those of them that were there before.
    pub kept: Seq<SlotModel>,
    /// Those of them that are new.
    pub started: Seq<SlotModel>,
    /// The slots that are gone.
    pub gone: Seq<SlotModel>,
}

/// Each probe in turn takes the first slot left that probes the same host in
/// the same way, or else gets a fresh one; what is left at the end is gone.
pub open spec fn retargeted(
    slots: Seq<SlotModel>,
    probes: Seq<ProbeModel>,
    next_task: int,
) -> RetargetModel
    decreases probes.len(),
{
    if probes.len() == 0 {
        RetargetModel {
            slots: Seq::empty(),
            kept: Seq::empty(),
            started: Seq::empty(),
            gone: slots,
        }
    } else {
        let p = probes.last();
        let before = retargeted(slots, probes.drop_last(), next_task);
        let at = first_with(before.gone, p);
        if at < before.gone.len() {
            RetargetModel {
                slots: before.slots.push(before.gone[at]),
                kept: before.kept.push(before.gone[at]),
                started: before.started,
                gone: before.gone.remove(at),
            }
        } else {
            let new = fresh_slot(next_task + before.started.len(), p);
            RetargetModel {
                slots: before.slots.push(new),
                kept: before.kept,
                started: before.started.push(new),
                gone: before.gone,
            }
        }
    }
}

proof fn lemma_first_with(slots: Seq<SlotModel>, p: ProbeModel)
    ensures
        0 <= first_with(slots, p) <= slots.len(),
        first_with(slots, p) < slots.len() ==> slots[first_with(slots, p)].probe == p,
        forall|i: int| 0 <= i < first_with(slots, p) ==> (#[trigger] slots[i]).probe != p,
    decreases slots.len(),
{
    if slots.len() > 0 && slots[0].probe != p {
        let rest = slots.drop_first();
        lemma_first_with(rest, p);
        assert forall|i: int| 0 <= i < first_with(slots, p) implies (#[trigger] slots[i]).probe
            != p by {
            if i > 0 {
                assert(slots[i] == rest[i - 1]);
            }
        }
    }
}

proof fn lemma_first_with_is(slots: Seq<SlotModel>, p: ProbeModel, at: int)
    requires
        0 <= at <= slots.len(),
        at < slots.len() ==> slots[at].probe == p,
        forall|i: int| 0 <= i < at ==> (#[trigger] slots[i]).probe != p,
    ensures
        first_with(slots, p) == at,
{
    lemma_first_with(slots, p);
    let f = first_with(slots, p);
    if f < at {
        assert(slots[f].probe != p);
    } else if at < f {
        assert(slots[at].probe != p);
    }
}

/// The numbers of a list of slots' tasks.
pub open spec fn tasks_of(slots: Seq<SlotModel>) -> Seq<u64> {
    slots.map_values(|s: SlotModel| s.task)
}

impl PingService {
    /// A service that probes nothing yet.
    pub fn new(initial_interval: u64) -> (r: Self)
        ensures
            r@.slots == Seq::<SlotModel>::empty(),
            r@.next_task == 0,
            r@.interval_ns == initial_interval,
            r@.wf(),
    {
        let r = PingService { slots: Vec::new(), next_task: 0, interval_ns: initial_interval };
        assert(slots_model(r.slots@) =~= Seq::<SlotModel>::empty());
        r
    }

    /// Whether there are numbers left for `count` more tasks.
    pub fn has_room(&self, count: usize) -> (r: bool)
        ensures
            r == (self@.next_task + count <= u64::MAX),
    {
        count as u64 <= u64::MAX - self.next_task
    }

    /// Replace the set of hosts being pinged. Unchanged hosts keep their
    /// current result and in-flight task; new hosts start in Pending; removed
    /// hosts are aborted.
    pub fn set_targets(&mut self, probes: &[Probe]) -> (r: Retarget)
        requires
            old(self)@.wf(),
            old(self)@.next_task + probes@.len() <= u64::MAX,
        ensures
            final(self)@.wf(),
            final(self)@.interval_ns == old(self)@.interval_ns,
            ({
                let m = retargeted(
                    old(self)@.slots,
                    probes_model(probes@),
                    old(self)@.next_task as int,
                );
                &&& final(self)@.slots == m.slots
                &&& final(self)@.next_task == old(self)@.next_task + m.started.len()
                &&& r.abort@ == tasks_of(m.gone)
                &&& r.spawn@.len() == m.started.len()
                &&& forall|i: int|
                    0 <= i < r.spawn@.len() ==> (#[trigger] r.spawn@[i]).task == m.started[i].task
                        && r.spawn@[i].probe@ == m.started[i].probe
            }),
    {
        let ghost was = self@;
        let ghost model = probes_model(probes@);
        let mut existing: Vec<Slot> = Vec::new();
        std::mem::swap(&mut existing, &mut self.slots);
        let mut slots: Vec<Slot> = Vec::new();
        let mut spawn: Vec<Spawn> = Vec::new();
        let mut next: u64 = self.next_task;
        let mut k: usize = 0;
        assert(slots_model(existing@) == was.slots);
        assert(slots_model(slots@) == Seq::<SlotModel>::empty());
        while k < probes.len()
            invariant
                k <= probes.len(),
                was.next_task + probes@.len() <= u64::MAX,
                model == probes_model(probes@),
                ({
                    let m = retargeted(was.slots, model.take(k as int), was.next_task as int);
                    &&& slots_model(slots@) == m.slots
                    &&& slots_model(existing@) == m.gone
                    &&& next == was.next_task + m.started.len()
                    &&& m.started.len() <= k
                    &&& spawn@.len() == m.started.len()
                    &&& forall|i: int|
                        0 <= i < spawn@.len() ==> (#[trigger] spawn@[i]).task == m.started[i].task
                            && spawn@[i].probe@ == m.started[i].probe
                }),
            decreases probes.len() - k,
        {
            let probe = &probes[k];
            let ghost m = retargeted(was.slots, model.take(k as int), was.next_task as int);
            assert(model.take(k as int + 1).drop_last() == model.take(k as int));
            assert(model.take(k as int + 1).last() == probe@);
            let mut at: usize = 0;
            while at < existing.len() && !(existing[at].probe.host == probe.host
                && existing[at].probe.kind == probe.kind)
                invariant
                    at <= existing.len(),
                    slots_model(existing@) == m.gone,
                    forall|i: int| 0 <= i < at ==> (#[trigger] m.gone[i]).probe != probe@,
                decreases existing.len() - at,
            {
                assert(m.gone[at as int] == existing@[at as int].model());
                at += 1;
            }
            proof {
                if at < existing.len() {
                    assert(m.gone[at as int] == existing@[at as int].model());
                }
                lemma_first_with_is(m.gone, probe@, at as int);
            }
            if at < existing.len() {
                let slot = existing.remove(at);
                assert(slots_model(existing@) =~= m.gone.remove(at as int));
                slots.push(slot);
                assert(slots_model(slots@) =~= m.slots.push(m.gone[at as int]));
            } else {
                let slot = Slot {
                    probe: probe.clone(),
                    task: next,
                    current: PingResult::Pending,
                    samples: Vec::new(),
                };
                assert(samples_model(slot.samples@) =~= Seq::<SampleModel>::empty());
                assert(slot.model() == fresh_slot(was.next_task + m.started.len(), probe@));
                spawn.push(Spawn { task: next, probe: probe.clone() });
                slots.push(slot);
                assert(slots_model(slots@) =~= m.slots.push(slot.model()));
                next = next + 1;
            }
            k += 1;
        }
        assert(model.take(model.len() as int) == model);
        let ghost m = retargeted(was.slots, model, was.next_task as int);
        let mut abort: Vec<u64> = Vec::new();
        let mut j: usize = 0;
        while j < existing.len()
            invariant
                j <= existing.len(),
                slots_model(existing@) == m.gone,
                abort@ == tasks_of(m.gone).take(j as int),
            decreases existing.len() - j,
        {
            assert(m.gone[j as int] == existing@[j as int].model());
            abort.push(existing[j].task);
            assert(abort@ =~= tasks_of(m.gone).take(j as int + 1));
            j += 1;
        }
        assert(tasks_of(m.gone).take(m.gone.len() as int) =~= tasks_of(m.gone));
        self.slots = slots;
        self.next_task = next;
        proof {
            lemma_retargeted_distinct(was.slots, model, was.next_task as int);
        }
        Retarget { spawn, abort }
    }
}

/// Moving a slot from one list to the other leaves all tasks distinct.
proof fn lemma_distinct_moved(a: Seq<SlotModel>, b: Seq<SlotModel>, at: int, next_task: int)
    requires
        tasks_distinct(a + b, next_task),
        0 <= at < b.len(),
    ensures
        tasks_distinct(a.push(b[at]) + b.remove(at), next_task),
{
    let (x, y) = (a + b, a.push(b[at]) + b.remove(at));
    let n = a.len() as int;
    let from = |i: int|
        if i < n {
            i
        } else if i == n {
            n + at
        } else if i <= n + at {
            i - 1
        } else {
            i
        };
    assert forall|i: int| 0 <= i < y.len() implies #[trigger] y[i] == x[from(i)] && 0 <= from(i)
        < x.len() by {}
    assert forall|i: int, j: int| 0 <= i < j < y.len() implies (#[trigger] y[i]).task != (
    #[trigger] y[j]).task by {
        let (p, q) = (from(i), from(j));
        assert(p != q);
        if p < q {
            assert(x[p].task != x[q].task);
        } else {
            assert(x[q].task != x[p].task);
        }
    }
    assert forall|i: int| 0 <= i < y.len() implies (#[trigger] y[i]).task < next_task by {
        assert(x[from(i)].task < next_task);
    }
}

/// A slot with the next task number leaves all tasks distinct.
proof fn lemma_distinct_fresh(
    a: Seq<SlotModel>,
    b: Seq<SlotModel>,
    s: SlotModel,
    next_task: int,
)
    requires
        tasks_distinct(a + b, next_task),
        s.task == next_task,
    ensures
        tasks_distinct(a.push(s) + b, next_task + 1),
{
    let (x, y) = (a + b, a.push(s) + b);
    let n = a.len() as int;
    let from = |i: int|
        if i < n {
            i
        } else {
            i - 1
        };
    assert forall|i: int| 0 <= i < y.len() && i != n implies #[trigger] y[i] == x[from(i)] && 0
        <= from(i) < x.len() by {}
    assert(y[n] == s);
    assert forall|i: int| 0 <= i < y.len() && i != n implies (#[trigger] y[i]).task
        < next_task by {
        assert(x[from(i)].task < next_task);
    }
    assert forall|i: int, j: int| 0 <= i < j < y.len() implies (#[trigger] y[i]).task != (
    #[trigger] y[j]).task by {
        if i != n && j != n {
            assert(x[from(i)].task != x[from(j)].task);
        }
    }
}

/// Every slot, kept, new or gone, still has a task of its own.
proof fn lemma_retargeted_distinct(slots: Seq<SlotModel>, probes: Seq<ProbeModel>, next_task: int)
    requires
        tasks_distinct(slots, next_task),
        0 <= next_task,
        next_task + probes.len() <= u64::MAX,
    ensures
        ({
            let m = retargeted(slots, probes, next_task);
            &&& m.started.len() <= probes.len()
            &&& tasks_distinct(m.slots + m.gone, next_task + m.started.len())
            &&& tasks_distinct(m.slots, next_task + m.started.len())
        }),
    decreases probes.len(),
{
    let m = retargeted(slots, probes, next_task);
    if probes.len() == 0 {
        assert(Seq::<SlotModel>::empty() + slots =~= slots);
    } else {
        let b = retargeted(slots, probes.drop_last(), next_task);
        lemma_retargeted_distinct(slots, probes.drop_last(), next_task);
        lemma_first_with(b.gone, probes.last());
        let at = first_with(b.gone, probes.last());
        let next = next_task + b.started.len();
        if at < b.gone.len() {
            lemma_distinct_moved(b.slots, b.gone, at, next);
        } else {
            lemma_distinct_fresh(b.slots, b.gone, fresh_slot(next, probes.last()), next);
        }
    }
    let all = m.slots + m.gone;
    assert forall|i: int| 0 <= i < m.slots.len() implies #[trigger] m.slots[i] == all[i] by {}
}

/// Whether a sample is too old to be kept at the time `now`.
pub open spec fn is_expired(s: SampleModel, now: u64) -> bool {
    s.at <= now && now - s.at >= RETENTION
}

/// The samples without those at the front that are too old.
pub open spec fn retained(samples: Seq<SampleModel>, now: u64) -> Seq<SampleModel>
    decreases samples.len(),
{
    if samples.len() > 0 && is_expired(samples[0], now) {
        retained(samples.drop_first(), now)
    } else {
        samples
    }
}

/// A slot after its task brought a result at the time `at`.
pub open spec fn slot_after(slot: SlotModel, at: u64, result: ResultModel) -> SlotModel {
    SlotModel {
        current: result,
        samples: retained(slot.samples.push(SampleModel { at, result }), at),
        ..slot
    }
}

/// All slots after a task brought a result; a task without a slot changes none.
pub open spec fn slots_after(
    slots: Seq<SlotModel>,
    task: u64,
    at: u64,
    result: ResultModel,
) -> Seq<SlotModel> {
    slots.map_values(
        |s: SlotModel|
            if s.task == task {
                slot_after(s, at, result)
            } else {
                s
            },
    )
}

/// What a slot shows.
pub open spec fn snapshot_of(slot: SlotModel) -> SnapshotModel {
    SnapshotModel { current: slot.current, samples: slot.samples }
}

proof fn lemma_retained_skip(samples: Seq<SampleModel>, now: u64, n: int)
    requires
        0 <= n <= samples.len(),
        forall|i: int| 0 <= i < n ==> is_expired(#[trigger] samples[i], now),
        n < samples.len() ==> !is_expired(samples[n], now),
    ensures
        retained(samples, now) == samples.skip(n),
    decreases n,
{
    if n == 0 {
        assert(samples.skip(0) == samples);
    } else {
        let t = samples.drop_first();
        assert forall|i: int| 0 <= i < n - 1 implies is_expired(#[trigger] t[i], now) by {
            assert(t[i] == samples[i + 1]);
        }
        lemma_retained_skip(t, now, n - 1);
        assert(t.skip(n - 1) == samples.skip(n));
    }
}

/// Drop the samples at the front that are too old.
fn evict(samples: Vec<Sample>, now: u64) -> (r: Vec<Sample>)
    ensures
        samples_model(r@) == retained(samples_model(samples@), now),
{
    let mut samples = samples;
    let ghost model = samples_model(samples@);
    let mut n: usize = 0;
    while n < samples.len() && samples[n].at <= now && now - samples[n].at >= RETENTION
        invariant
            n <= samples.len(),
            model == samples_model(samples@),
            forall|i: int| 0 <= i < n ==> is_expired(#[trigger] model[i], now),
        decreases samples.len() - n,
    {
        assert(model[n as int] == samples@[n as int]@);
        n += 1;
    }
    proof {
        if n < samples.len() {
            assert(model[n as int] == samples@[n as int]@);
        }
        lemma_retained_skip(model, now, n as int);
    }
    let r = samples.split_off(n);
    assert(samples_model(r@) =~= model.skip(n as int));
    r
}

fn copy_samples(samples: &Vec<Sample>) -> (r: Vec<Sample>)
    ensures
        samples_model(r@) == samples_model(samples@),
{
    let mut r: Vec<Sample> = Vec::new();
    while r.len() < samples.len()
        invariant
            r@.len() <= samples@.len(),
            samples_model(r@) == samples_model(samples@).take(r@.len() as int),
        decreases samples.len() - r.len(),
    {
        let i: usize = r.len();
        let s = samples[i].clone();
        let ghost before = r@;
        r.push(s);
        assert(samples_model(r@) =~= samples_model(before).push(s@));
        assert(samples_model(samples@)[i as int] == samples@[i as int]@);
        assert(samples_model(r@) =~= samples_model(samples@).take(r@.len() as int));
    }
    assert(samples_model(samples@).take(r@.len() as int) =~= samples_model(samples@));
    r
}

impl PingService {
    /// Take the result that a task brought at the time `at`. Results of tasks
    /// that were aborted are dropped.
    pub fn record(&mut self, task: u64, at: u64, result: PingResult)
        requires
            old(self)@.wf(),
        ensures
            final(self)@.wf(),
            final(self)@.slots == slots_after(old(self)@.slots, task, at, result@),
            final(self)@.next_task == old(self)@.next_task,
            final(self)@.interval_ns == old(self)@.interval_ns,
    {
        let ghost was = self@;
        let mut i: usize = 0;
        while i < self.slots.len() && self.slots[i].task != task
            invariant
                i <= self.slots.len(),
                self@ == was,
                forall|j: int| 0 <= j < i ==> (#[trigger] self.slots@[j]).task != task,
            decreases self.slots.len() - i,
        {
            i += 1;
        }
        let ghost after = slots_after(was.slots, task, at, result@);
        if i < self.slots.len() {
            let ghost slot_was = self.slots@[i as int];
            assert(was.slots[i as int] == slot_was.model());
            let mut slot = self.slots.remove(i);
            slot.samples.push(Sample { at, result: result.clone() });
            assert(samples_model(slot.samples@) =~= samples_model(slot_was.samples@).push(
                SampleModel { at, result: result@ },
            ));
            slot.samples = evict(slot.samples, at);
            slot.current = result;
            self.slots.insert(i, slot);
            proof {
                assert(slot.model() == slot_after(slot_was.model(), at, result@));
                assert forall|j: int| 0 <= j < was.slots.len() implies self@.slots[j]
                    == #[trigger] after[j] by {
                    if j != i {
                        assert(was.slots[j].task != was.slots[i as int].task);
                    }
                }
                assert(self@.slots =~= after);
            }
        } else {
            assert forall|j: int| 0 <= j < was.slots.len() implies was.slots[j]
                == #[trigger] after[j] by {
                assert(was.slots[j] == self.slots@[j].model());
            }
            assert(self@.slots =~= after);
        }
        assert(forall|j: int|
            0 <= j < was.slots.len() ==> (#[trigger] self@.slots[j]).task == was.slots[j].task);
    }

    /// Probe every `interval` nanoseconds from now on.
    pub fn set_interval(&mut self, interval: u64)
        ensures
            final(self)@.interval_ns == interval,
            final(self)@.slots == old(self)@.slots,
            final(self)@.next_task == old(self)@.next_task,
    {
        self.interval_ns = interval;
    }

    /// The time from one probe of a host to the next, in nanoseconds.
    pub fn interval(&self) -> (r: u64)
        ensures
            r == self@.interval_ns,
    {
        self.interval_ns
    }

    /// What is known of each host, in the order of the targets.
    pub fn snapshot(&self) -> (r: Vec<HostSnapshot>)
        ensures
            snapshots_model(r@) == self@.slots.map_values(|s: SlotModel| snapshot_of(s)),
    {
        let ghost want = self@.slots.map_values(|s: SlotModel| snapshot_of(s));
        let mut r: Vec<HostSnapshot> = Vec::new();
        while r.len() < self.slots.len()
            invariant
                r@.len() <= self.slots@.len(),
                want == self@.slots.map_values(|s: SlotModel| snapshot_of(s)),
                snapshots_model(r@) == want.take(r@.len() as int),
            decreases self.slots.len() - r.len(),
        {
            let i: usize = r.len();
            let slot = &self.slots[i];
            let shot = HostSnapshot {
                current: slot.current.clone(),
                samples: copy_samples(&slot.samples),
            };
            let ghost before = r@;
            r.push(shot);
            assert(self@.slots[i as int] == slot.model());
            assert(want[i as int] == shot@);
            assert(snapshots_model(r@) =~= snapshots_model(before).push(shot@));
            assert(snapshots_model(r@) =~= want.take(r@.len() as int));
        }
        assert(want.take(r@.len() as int) =~= want);
        r
    }
}

/// The slots afterwards are those of the wanted hosts, in their order.
pub proof fn law_slots_follow_the_targets(
    slots: Seq<SlotModel>,
    probes: Seq<ProbeModel>,
    next_task: int,
)
    ensures
        retargeted(slots, probes, next_task).slots.map_values(|s: SlotModel| s.probe) == probes,
    decreases probes.len(),
{
    let m = retargeted(slots, probes, next_task);
    if probes.len() == 0 {
        assert(m.slots.map_values(|s: SlotModel| s.probe) =~= probes);
    } else {
        let b = retargeted(slots, probes.drop_last(), next_task);
        law_slots_follow_the_targets(slots, probes.drop_last(), next_task);
        lemma_first_with(b.gone, probes.last());
        assert(m.slots.map_values(|s: SlotModel| s.probe) =~= b.slots.map_values(
            |s: SlotModel| s.probe,
        ).push(probes.last()));
        assert(probes =~= probes.drop_last().push(probes.last()));
    }
}

/// Setting the same targets again changes nothing: no task starts, none is
/// aborted, and every result stays.
pub proof fn law_same_targets_keep_everything(slots: Seq<SlotModel>, next_task: int)
    ensures
        ({
            let m = retargeted(slots, slots.map_values(|s: SlotModel| s.probe), next_task);
            &&& m.slots == slots
            &&& m.started == Seq::<SlotModel>::empty()
            &&& m.gone == Seq::<SlotModel>::empty()
        }),
{
    let probes = slots.map_values(|s: SlotModel| s.probe);
    lemma_same_targets(slots, next_task, slots.len());
    assert(probes.take(slots.len() as int) =~= probes);
    assert(slots.take(slots.len() as int) =~= slots);
}

proof fn lemma_same_targets(slots: Seq<SlotModel>, next_task: int, n: nat)
    requires
        n <= slots.len(),
    ensures
        ({
            let probes = slots.map_values(|s: SlotModel| s.probe);
            let m = retargeted(slots, probes.take(n as int), next_task);
            &&& m.slots == slots.take(n as int)
            &&& m.started.len() == 0
            &&& m.gone == slots.skip(n as int)
        }),
    decreases n,
{
    let probes = slots.map_values(|s: SlotModel| s.probe);
    if n == 0 {
        assert(slots.skip(0) =~= slots);
        assert(slots.take(0) =~= Seq::<SlotModel>::empty());
    } else {
        lemma_same_targets(slots, next_task, (n - 1) as nat);
        let b = retargeted(slots, probes.take(n - 1), next_task);
        assert(probes.take(n as int).drop_last() =~= probes.take(n - 1));
        assert(probes.take(n as int).last() == slots[n - 1].probe);
        assert(b.gone[0] == slots[n - 1]);
        assert(first_with(b.gone, slots[n - 1].probe) == 0);
        assert(slots.take(n - 1).push(slots[n - 1]) =~= slots.take(n as int));
        assert(slots.skip(n - 1).remove(0) =~= slots.skip(n as int));
    }
}

/// Every slot from before is kept once or gone once, unchanged; every other
/// slot is fresh: pending, without samples.
pub proof fn law_slots_are_kept_or_gone(
    slots: Seq<SlotModel>,
    probes: Seq<ProbeModel>,
    next_task: int,
)
    ensures
        ({
            let m = retargeted(slots, probes, next_task);
            &&& m.kept.to_multiset().add(m.gone.to_multiset()) == slots.to_multiset()
            &&& m.kept.to_multiset().add(m.started.to_multiset()) == m.slots.to_multiset()
            &&& forall|i: int|
                0 <= i < m.started.len() ==> (#[trigger] m.started[i]) == fresh_slot(
                    next_task + i,
                    m.started[i].probe,
                )
        }),
    decreases probes.len(),
{
    broadcast use vstd::seq_lib::group_to_multiset_ensures;

    let m = retargeted(slots, probes, next_task);
    let none = Seq::<SlotModel>::empty().to_multiset();
    assert(none =~= vstd::multiset::Multiset::empty());
    if probes.len() == 0 {
        assert(none.add(slots.to_multiset()) =~= slots.to_multiset());
        assert(none.add(none) =~= none);
    } else {
        let b = retargeted(slots, probes.drop_last(), next_task);
        law_slots_are_kept_or_gone(slots, probes.drop_last(), next_task);
        lemma_first_with(b.gone, probes.last());
        let at = first_with(b.gone, probes.last());
        if at < b.gone.len() {
            let s = b.gone[at];
            assert(b.gone.contains(s));
            assert(m.kept.to_multiset().add(m.gone.to_multiset()) =~= slots.to_multiset());
            assert(m.kept.to_multiset().add(m.started.to_multiset()) =~= m.slots.to_multiset());
        } else {
            assert(m.kept.to_multiset().add(m.started.to_multiset()) =~= m.slots.to_multiset());
        }
    }
}

/// The slots that probe `p`, in their order.
pub open spec fn slots_of(slots: Seq<SlotModel>, p: ProbeModel) -> Seq<SlotModel> {
    slots.filter(|s: SlotModel| s.probe == p)
}

/// How often `p` is wanted.
pub open spec fn wanted(probes: Seq<ProbeModel>, p: ProbeModel) -> nat {
    probes.filter(|q: ProbeModel| q == p).len()
}

proof fn lemma_slots_of_push(slots: Seq<SlotModel>, s: SlotModel, p: ProbeModel)
    ensures
        slots_of(slots.push(s), p) == if s.probe == p {
            slots_of(slots, p).push(s)
        } else {
            slots_of(slots, p)
        },
{
    reveal(Seq::filter);
    assert(slots.push(s).drop_last() =~= slots);
}

proof fn lemma_slots_of_none(slots: Seq<SlotModel>, p: ProbeModel)
    requires
        forall|i: int| 0 <= i < slots.len() ==> (#[trigger] slots[i]).probe != p,
    ensures
        slots_of(slots, p) == Seq::<SlotModel>::empty(),
    decreases slots.len(),
{
    reveal(Seq::filter);
    if slots.len() > 0 {
        assert(slots.last() == slots[slots.len() - 1]);
        assert forall|i: int| 0 <= i < slots.drop_last().len() implies (
        #[trigger] slots.drop_last()[i]).probe != p by {
            assert(slots.drop_last()[i] == slots[i]);
        }
        lemma_slots_of_none(slots.drop_last(), p);
    }
}

/// Taking out the first slot that probes `q` takes the first of the slots of
/// `q`, and none of another probe's.
proof fn lemma_slots_of_remove(slots: Seq<SlotModel>, q: ProbeModel, p: ProbeModel)
    requires
        first_with(slots, q) < slots.len(),
    ensures
        p == q ==> slots_of(slots, p) == seq![slots[first_with(slots, q)]] + slots_of(
            slots.remove(first_with(slots, q)),
            p,
        ),
        p != q ==> slots_of(slots, p) == slots_of(slots.remove(first_with(slots, q)), p),
{
    lemma_first_with(slots, q);
    let at = first_with(slots, q);
    let f = |s: SlotModel| s.probe == p;
    let head = slots.take(at);
    let mid = Seq::<SlotModel>::empty().push(slots[at]);
    let tail = slots.skip(at + 1);
    assert(slots =~= head + (mid + tail));
    assert(slots.remove(at) =~= head + tail);
    Seq::filter_distributes_over_add(head, mid + tail, f);
    Seq::filter_distributes_over_add(mid, tail, f);
    Seq::filter_distributes_over_add(head, tail, f);
    lemma_slots_of_none(Seq::<SlotModel>::empty(), p);
    lemma_slots_of_push(Seq::<SlotModel>::empty(), slots[at], p);
    if p == q {
        assert forall|i: int| 0 <= i < head.len() implies (#[trigger] head[i]).probe != p by {
            assert(head[i] == slots[i]);
        }
        lemma_slots_of_none(head, p);
        assert(slots_of(slots, p) =~= seq![slots[at]] + slots_of(slots.remove(at), p));
    } else {
        assert(slots_of(slots, p) =~= slots_of(slots.remove(at), p));
    }
}

/// Of a host that is wanted several times, in one way of probing it, the first
/// occurrences keep the slots from before in their order, with their results
/// and tasks, as many as there are of both. The other occurrences are fresh,
/// and the slots from before that are too many are gone.
pub proof fn law_repeated_hosts_keep_their_slots(
    slots: Seq<SlotModel>,
    probes: Seq<ProbeModel>,
    next_task: int,
    p: ProbeModel,
)
    ensures
        ({
            let m = retargeted(slots, probes, next_task);
            let old_slots = slots_of(slots, p);
            let n = if old_slots.len() <= wanted(probes, p) {
                old_slots.len() as int
            } else {
                wanted(probes, p) as int
            };
            &&& slots_of(m.slots, p) == old_slots.take(n) + slots_of(m.started, p)
            &&& slots_of(m.slots, p).len() == wanted(probes, p)
            &&& slots_of(m.kept, p) == old_slots.take(n)
            &&& slots_of(m.gone, p) == old_slots.skip(n)
            &&& forall|i: int|
                0 <= i < m.started.len() ==> (#[trigger] m.started[i]) == fresh_slot(
                    next_task + i,
                    m.started[i].probe,
                )
        }),
    decreases probes.len(),
{
    let m = retargeted(slots, probes, next_task);
    let old_slots = slots_of(slots, p);
    law_slots_are_kept_or_gone(slots, probes, next_task);
    reveal(Seq::filter);
    if probes.len() == 0 {
        lemma_slots_of_none(Seq::<SlotModel>::empty(), p);
        assert(old_slots.take(0) =~= Seq::<SlotModel>::empty());
        assert(old_slots.skip(0) =~= old_slots);
        assert(slots_of(m.slots, p) =~= old_slots.take(0) + slots_of(m.started, p));
    } else {
        let q = probes.last();
        let b = retargeted(slots, probes.drop_last(), next_task);
        law_repeated_hosts_keep_their_slots(slots, probes.drop_last(), next_task, p);
        let k: int = if old_slots.len() <= wanted(probes.drop_last(), p) {
            old_slots.len() as int
        } else {
            wanted(probes.drop_last(), p) as int
        };
        lemma_first_with(b.gone, q);
        let at = first_with(b.gone, q);
        if at < b.gone.len() {
            lemma_slots_of_remove(b.gone, q, p);
            lemma_slots_of_push(b.slots, b.gone[at], p);
            lemma_slots_of_push(b.kept, b.gone[at], p);
            if p == q {
                assert(slots_of(b.gone, p)[0] == b.gone[at]);
                assert(slots_of(b.gone, p).len() > 0);
                assert(k < old_slots.len());
                assert(slots_of(b.started, p).len() == 0);
                assert(old_slots.take(k + 1) =~= old_slots.take(k).push(b.gone[at]));
                assert(slots_of(m.gone, p) =~= slots_of(b.gone, p).skip(1));
                assert(slots_of(m.gone, p) =~= old_slots.skip(k + 1));
                assert(slots_of(m.slots, p) =~= old_slots.take(k + 1) + slots_of(m.started, p));
            }
        } else {
            let new = fresh_slot(next_task + b.started.len(), q);
            lemma_slots_of_push(b.slots, new, p);
            lemma_slots_of_push(b.started, new, p);
            if p == q {
                lemma_slots_of_none(b.gone, p);
                assert(k == old_slots.len());
                assert(slots_of(m.slots, p) =~= old_slots.take(k) + slots_of(m.started, p));
            }
        }
    }
}

/// No task starts for a host while another task for that host is aborted.
pub proof fn law_no_task_is_replaced(
    slots: Seq<SlotModel>,
    probes: Seq<ProbeModel>,
    next_task: int,
)
    ensures
        ({
            let m = retargeted(slots, probes, next_task);
            forall|i: int, j: int|
                0 <= i < m.started.len() && 0 <= j < m.gone.len() ==> (
                #[trigger] m.started[i]).probe != (#[trigger] m.gone[j]).probe
        }),
    decreases probes.len(),
{
    if probes.len() > 0 {
        let m = retargeted(slots, probes, next_task);
        let b = retargeted(slots, probes.drop_last(), next_task);
        law_no_task_is_replaced(slots, probes.drop_last(), next_task);
        lemma_first_with(b.gone, probes.last());
        let at = first_with(b.gone, probes.last());
        if at < b.gone.len() {
            assert forall|j: int| 0 <= j < m.gone.len() implies #[trigger] m.gone[j]
                == b.gone[if j < at {
                j
            } else {
                j + 1
            }] by {}
        }
    }
}

/// Whether the samples stand in the order in which they came.
pub open spec fn in_time_order(samples: Seq<SampleModel>) -> bool {
    forall|i: int, j: int|
        0 <= i <= j < samples.len() ==> (#[trigger] samples[i]).at <= (#[trigger] samples[j]).at
}

/// Of samples in time order, those that are kept are exactly those within the
/// retention window, still in order.
pub proof fn law_retained_are_recent(samples: Seq<SampleModel>, now: u64)
    requires
        in_time_order(samples),
    ensures
        retained(samples, now) == samples.filter(|s: SampleModel| !is_expired(s, now)),
        in_time_order(retained(samples, now)),
    decreases samples.len(),
{
    let keep = |s: SampleModel| !is_expired(s, now);
    if samples.len() > 0 && is_expired(samples[0], now) {
        let rest = samples.drop_first();
        assert forall|i: int, j: int| 0 <= i <= j < rest.len() implies (#[trigger] rest[i]).at <= (
        #[trigger] rest[j]).at by {
            assert(rest[i] == samples[i + 1] && rest[j] == samples[j + 1]);
        }
        law_retained_are_recent(rest, now);
        assert(samples =~= seq![samples[0]] + rest);
        Seq::filter_distributes_over_add(seq![samples[0]], rest, keep);
        assert(seq![samples[0]].filter(keep) =~= Seq::<SampleModel>::empty()) by {
            reveal_with_fuel(Seq::filter, 2);
            assert(seq![samples[0]].drop_last() =~= Seq::<SampleModel>::empty());
            assert(!keep(seq![samples[0]].last()));
        }
        assert(Seq::<SampleModel>::empty() + rest.filter(keep) =~= rest.filter(keep));
    } else {
        assert forall|i: int| 0 <= i < samples.len() implies keep(#[trigger] samples[i]) by {
            assert(samples[0].at <= samples[i].at);
        }
        lemma_filter_all(samples, keep);
    }
}

proof fn lemma_filter_all(samples: Seq<SampleModel>, keep: spec_fn(SampleModel) -> bool)
    requires
        forall|i: int| 0 <= i < samples.len() ==> keep(#[trigger] samples[i]),
    ensures
        samples.filter(keep) == samples,
    decreases samples.len(),
{
    reveal(Seq::filter);
    if samples.len() > 0 {
        lemma_filter_all(samples.drop_last(), keep);
        assert(keep(samples.last()));
        assert(samples =~= samples.drop_last().push(samples.last()));
    }
}

/// A history in time order stays so with each later result, and holds that
/// result last.
pub proof fn law_record_keeps_time_order(slot: SlotModel, at: u64, result: ResultModel)
    requires
        in_time_order(slot.samples),
        slot.samples.len() > 0 ==> slot.samples.last().at <= at,
    ensures
        in_time_order(slot_after(slot, at, result).samples),
        slot_after(slot, at, result).samples.len() > 0,
        slot_after(slot, at, result).samples.last() == (SampleModel { at, result }),
{
    let s = SampleModel { at, result };
    let all = slot.samples.push(s);
    assert forall|i: int, j: int| 0 <= i <= j < all.len() implies (#[trigger] all[i]).at <= (
    #[trigger] all[j]).at by {
        if i < slot.samples.len() && j == slot.samples.len() {
            assert(slot.samples[i].at <= slot.samples.last().at);
        }
    }
    law_retained_are_recent(all, at);
    lemma_retained_keeps_last(all, at);
}

proof fn lemma_retained_keeps_last(samples: Seq<SampleModel>, now: u64)
    requires
        samples.len() > 0,
        !is_expired(samples.last(), now),
    ensures
        retained(samples, now).len() > 0,
        retained(samples, now).last() == samples.last(),
    decreases samples.len(),
{
    if is_expired(samples[0], now) {
        lemma_retained_keeps_last(samples.drop_first(), now);
    }
}

/// `rand::random`, for an identifier: any number. It is drawn anew at each
/// call, so nothing is said of it. It panics only where the operating system
/// has no source of random numbers.
#[verifier::external_body]
fn random_identifier() -> (r: u16)
{
    rand::random()
}

/// One echo request.
#[derive(Debug)]
pub struct EchoRequest {
    pub ident: u16,
    pub seq: u16,
    pub payload: Vec<u8>,
    pub timeout_ns: u64,
}

/// The loop that probes one host.
#[derive(Debug)]
pub struct TargetLoop {
    seq: u16,
}

impl View for TargetLoop {
    type V = u16;

    /// The sequence number of the next request.
    closed spec fn view(&self) -> u16 {
        self.seq
    }
}

/// `len` zero bytes.
fn zeros(len: usize) -> (r: Vec<u8>)
    ensures
        r@ == Seq::new(len as nat, |i: int| 0u8),
{
    let mut r: Vec<u8> = Vec::new();
    while r.len() < len
        invariant
            r@ == Seq::new(r@.len(), |i: int| 0u8),
            r@.len() <= len,
        decreases len - r.len(),
    {
        r.push(0);
        assert(r@ =~= Seq::new(r@.len(), |i: int| 0u8));
    }
    r
}

/// The request with a given identifier and sequence number.
pub fn request_with(ident: u16, seq: u16) -> (r: EchoRequest)
    ensures
        r.ident == ident,
        r.seq == seq,
        r.payload@ == Seq::new(PAYLOAD_LEN as nat, |i: int| 0u8),
        r.payload@.len() == 32,
        r.timeout_ns == PING_TIMEOUT,
        r.timeout_ns == 10_000_000_000,
{
    EchoRequest { ident, seq, payload: zeros(PAYLOAD_LEN), timeout_ns: PING_TIMEOUT }
}

impl TargetLoop {
    pub fn new() -> (r: Self)
        ensures
            r@ == 0,
    {
        TargetLoop { seq: 0 }
    }

    /// The next request. Sequence numbers count up from 0 and wrap around; the
    /// identifier is random.
    pub fn next_request(&mut self) -> (r: EchoRequest)
        ensures
            r.seq == old(self)@,
            r.payload@ == Seq::new(PAYLOAD_LEN as nat, |i: int| 0u8),
            r.payload@.len() == 32,
            r.timeout_ns == PING_TIMEOUT,
            r.timeout_ns == 10_000_000_000,
            final(self)@ == if old(self)@ == u16::MAX {
                0
            } else {
                old(self)@ + 1
            },
    {
        let seq: u16 = self.seq;
        self.seq = seq.wrapping_add(1);
        request_with(random_identifier(), seq)
    }
}

/// How long a loop rests after a probe that took `elapsed` nanoseconds: what
/// is left of the interval `want`. `None` if the next probe is due.
pub fn rest_after(elapsed: u64, want: u64) -> (r: Option<u64>)
    ensures
        r == if elapsed < want {
            Some((want - elapsed) as u64)
        } else {
            None
        },
{
    if elapsed < want {
        Some(want - elapsed)
    } else {
        None
    }
}

/// An IP address.
#[derive(Clone, Copy, Debug, PartialEq, Eq, Structural)]
pub enum Address {
    V4(u32),
    V6(u128),
}

/// The address of a host: the one that it spells, or else the first that the
/// name lookup found.
pub fn resolve(literal: Option<Address>, found: &Result<Vec<Address>, String>) -> (r: Result<
    Address,
    String,
>)
    ensures
        match (literal, *found) {
            (Some(a), _) => r == Ok::<Address, String>(a),
            (None, Ok(list)) => if list@.len() > 0 {
                r == Ok::<Address, String>(list@[0])
            } else {
                r is Err && r->Err_0@ == "no address"@
            },
            (None, Err(e)) => r is Err && r->Err_0@ == e@,
        },
{
    if let Some(a) = literal {
        return Ok(a);
    }
    match found {
        Ok(list) => if list.len() > 0 {
            Ok(list[0])
        } else {
            Err("no address".to_string())
        },
        Err(e) => Err(e.clone()),
    }
}

/// Why there is no socket for one of the address families.
#[derive(Debug)]
pub struct Clients {
    pub v4_error: Option<String>,
    pub v6_error: Option<String>,
}

/// Why an address cannot be probed.
pub open spec fn client_error(addr: Address, clients: Clients) -> Option<String> {
    match addr {
        Address::V4(_) => clients.v4_error,
        Address::V6(_) => clients.v6_error,
    }
}

/// The address that a probe goes to; where the host has none, or there is no
/// socket for its address family, the error that the probe ends with.
pub fn ping_once(resolved: Result<Address, String>, clients: &Clients) -> (r: Result<
    Address,
    PingResult,
>)
    ensures
        match resolved {
            Err(e) => r is Err && r->Err_0@ == ResultModel::Error(e@),
            Ok(addr) => match client_error(addr, *clients) {
                Some(e) => r is Err && r->Err_0@ == ResultModel::Error(e@),
                None => r == Ok::<Address, PingResult>(addr),
            },
        },
{
    let addr = match resolved {
        Ok(a) => a,
        Err(e) => return Err(PingResult::Error(e)),
    };
    let error = match addr {
        Address::V4(_) => &clients.v4_error,
        Address::V6(_) => &clients.v6_error,
    };
    match error {
        Some(e) => Err(PingResult::Error(e.clone())),
        None => Ok(addr),
    }
}

/// What became of one probe; times are in nanoseconds.
#[derive(Debug)]
pub enum Outcome {
    /// The reply came, or the connection opened.
    Answered(u64),
    /// The host refused the connection.
    Refused(u64),
    TimedOut,
    Failed(String),
}

/// The result of a probe. A host that refuses a connection has answered.
pub fn probe_result(outcome: Outcome) -> (r: PingResult)
    ensures
        r@ == match outcome {
            Outcome::Answered(ns) => ResultModel::Reply(ns),
            Outcome::Refused(ns) => ResultModel::Reply(ns),
            Outcome::TimedOut => ResultModel::Timeout,
            Outcome::Failed(e) => ResultModel::Error(e@),
        },
{
    match outcome {
        Outcome::Answered(ns) => PingResult::Reply(ns),
        Outcome::Refused(ns) => PingResult::Reply(ns),
        Outcome::TimedOut => PingResult::Timeout,
        Outcome::Failed(e) => PingResult::Error(e),
    }
}

/// What a task brings is its slot's current result, whatever it is and whatever
/// the slot held before, and the newest of its samples. The samples from before
/// stay, but for the oldest ones: what is dropped is 300 seconds old, and what
/// is then the oldest is not. No other slot changes.
pub proof fn law_a_result_is_current_and_newest(
    slots: Seq<SlotModel>,
    task: u64,
    at: u64,
    result: ResultModel,
    i: int,
)
    requires
        0 <= i < slots.len(),
    ensures
        slots_after(slots, task, at, result).len() == slots.len(),
        ({
            let s = slots_after(slots, task, at, result)[i];
            let all = slots[i].samples.push(SampleModel { at, result });
            if slots[i].task != task {
                s == slots[i]
            } else {
                let n = all.len() - s.samples.len();
                &&& s.current == result
                &&& s.probe == slots[i].probe
                &&& s.task == task
                &&& s.samples.len() > 0
                &&& s.samples.last().at == at
                &&& s.samples.last().result == result
                &&& 0 <= n <= slots[i].samples.len()
                &&& s.samples == all.skip(n)
                &&& forall|j: int|
                    0 <= j < n ==> (#[trigger] all[j]).at <= at && at - all[j].at
                        >= 300_000_000_000
                &&& s.samples[0].at > at || at - s.samples[0].at < 300_000_000_000
            }
        }),
{
    let all = slots[i].samples.push(SampleModel { at, result });
    if slots[i].task == task {
        lemma_retained_is_a_suffix(all, at);
        let kept = retained(all, at);
        let n = all.len() - kept.len();
        assert(all.last() == all[all.len() - 1]);
        if n == all.len() {
            assert(is_expired(all[all.len() - 1], at));
        }
        assert(kept.last() == all.last());
    }
}

proof fn lemma_retained_is_a_suffix(samples: Seq<SampleModel>, now: u64)
    ensures
        ({
            let n = samples.len() - retained(samples, now).len();
            &&& 0 <= n <= samples.len()
            &&& retained(samples, now) == samples.skip(n)
            &&& forall|j: int| 0 <= j < n ==> is_expired(#[trigger] samples[j], now)
            &&& n < samples.len() ==> !is_expired(samples[n], now)
        }),
    decreases samples.len(),
{
    if samples.len() > 0 && is_expired(samples[0], now) {
        let t = samples.drop_first();
        lemma_retained_is_a_suffix(t, now);
        let n = samples.len() - retained(samples, now).len();
        assert(t.skip(n - 1) =~= samples.skip(n));
        assert forall|j: int| 0 <= j < n implies is_expired(#[trigger] samples[j], now) by {
            if j > 0 {
                assert(samples[j] == t[j - 1]);
            }
        }
    } else {
        assert(samples.skip(0) =~= samples);
    }
}

/// A snapshot tells, for each slot in order, its current result and all its
/// samples.
pub proof fn law_a_snapshot_tells_every_slot(slots: Seq<SlotModel>, i: int)
    requires
        0 <= i < slots.len(),
    ensures
        slots.map_values(|s: SlotModel| snapshot_of(s)).len() == slots.len(),
        slots.map_values(|s: SlotModel| snapshot_of(s))[i].current == slots[i].current,
        slots.map_values(|s: SlotModel| snapshot_of(s))[i].samples == slots[i].samples,
{
}

/// Every slot is one from before, with its results, or a new one, which is
/// pending and has no samples. The tasks to start have the next numbers, one
/// for each host that is wanted more often than before; and the tasks to abort
/// are those of the slots from before that are not there any more.
pub proof fn law_new_slots_start_pending(
    slots: Seq<SlotModel>,
    probes: Seq<ProbeModel>,
    next_task: int,
    i: int,
)
    requires
        0 <= next_task,
        next_task + probes.len() <= u64::MAX,
    ensures
        ({
            let m = retargeted(slots, probes, next_task);
            &&& m.slots.len() == probes.len()
            &&& m.started.len() <= probes.len()
            &&& m.slots.len() + m.gone.len() == slots.len() + m.started.len()
            &&& 0 <= i < probes.len() ==> m.slots[i].probe == probes[i] && (slots.contains(
                m.slots[i],
            ) || m.started.contains(m.slots[i]))
            &&& 0 <= i < m.started.len() ==> m.started[i].current is Pending
                && m.started[i].samples.len() == 0 && m.started[i].task == next_task + i
                && m.slots.contains(m.started[i])
            &&& 0 <= i < m.gone.len() ==> slots.contains(m.gone[i])
            &&& tasks_of(m.gone).len() == m.gone.len()
            &&& 0 <= i < m.gone.len() ==> tasks_of(m.gone)[i] == m.gone[i].task
        }),
    decreases probes.len(),
{
    let m = retargeted(slots, probes, next_task);
    if probes.len() == 0 {
        if 0 <= i < m.gone.len() {
            assert(slots[i] == m.gone[i]);
        }
    } else {
        let q = probes.last();
        let b = retargeted(slots, probes.drop_last(), next_task);
        lemma_first_with(b.gone, q);
        let at = first_with(b.gone, q);
        law_new_slots_start_pending(slots, probes.drop_last(), next_task, i);
        law_new_slots_start_pending(slots, probes.drop_last(), next_task, at);
        law_new_slots_start_pending(slots, probes.drop_last(), next_task, i + 1);
        if at < b.gone.len() {
            assert(m.slots.last() == b.gone[at]);
        } else {
            assert(m.started[m.started.len() - 1] == m.slots.last());
            assert(m.slots[m.slots.len() - 1] == m.slots.last());
        }
        if 0 <= i < probes.len() - 1 {
            assert(m.slots[i] == b.slots[i]);
            if b.started.contains(b.slots[i]) {
                let k = choose|k: int| 0 <= k < b.started.len() && b.started[k] == b.slots[i];
                assert(m.started[k] == b.started[k]);
            }
        }
        if 0 <= i < b.started.len() {
            assert(m.started[i] == b.started[i]);
            let k = choose|k: int| 0 <= k < b.slots.len() && b.slots[k] == b.started[i];
            assert(m.slots[k] == b.slots[k]);
        }
    }
}

/// Values are told without loss: of a result its kind, its latency or its
/// message; of a sample also its time; of a probe its host and its kind; and of
/// lists every element, in order.
pub proof fn law_values_are_told_in_full(
    samples: Seq<Sample>,
    probes: Seq<Probe>,
    targets: Seq<PingTarget>,
    snaps: Seq<HostSnapshot>,
    i: int,
)
    ensures
        samples_model(samples).len() == samples.len(),
        probes_model(probes).len() == probes.len(),
        hosts_of(targets).len() == targets.len(),
        snapshots_model(snaps).len() == snaps.len(),
        0 <= i < samples.len() ==> samples_model(samples)[i].at == samples[i].at
            && match samples[i].result {
            PingResult::Reply(ns) => samples_model(samples)[i].result == ResultModel::Reply(ns),
            PingResult::Timeout => samples_model(samples)[i].result is Timeout,
            PingResult::Error(e) => samples_model(samples)[i].result == ResultModel::Error(e@),
            PingResult::Pending => samples_model(samples)[i].result is Pending,
        },
        0 <= i < probes.len() ==> probes_model(probes)[i].host == probes[i].host@ && probes_model(
            probes,
        )[i].kind == probes[i].kind,
        0 <= i < targets.len() ==> hosts_of(targets)[i] == targets[i].host@,
        0 <= i < snaps.len() ==> snapshots_model(snaps)[i].samples == samples_model(
            snaps[i].samples@,
        ) && match snaps[i].current {
            PingResult::Reply(ns) => snapshots_model(snaps)[i].current == ResultModel::Reply(ns),
            PingResult::Timeout => snapshots_model(snaps)[i].current is Timeout,
            PingResult::Error(e) => snapshots_model(snaps)[i].current == ResultModel::Error(e@),
            PingResult::Pending => snapshots_model(snaps)[i].current is Pending,
        },
{
}

/// Each address family has its own socket: an error of the other's does not
/// keep an address from being probed.
pub proof fn law_each_family_has_its_socket(v4: u32, v6: u128, clients: Clients)
    ensures
        client_error(Address::V4(v4), clients) == clients.v4_error,
        client_error(Address::V6(v6), clients) == clients.v6_error,
{
}

} // verus!
