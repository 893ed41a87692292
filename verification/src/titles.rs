//! What the rows of the menu say: latencies, sparklines, tooltips and address
//! chips.

use vstd::prelude::*;
use crate::address::{ip_kind, strip_zone, without_zone, ChipKind};
use crate::double::{
    law_double_is_near, law_double_is_the_nearest_of_its_digits, nearest_double, percent, to_double,
    whole_percent, UNIT,
};
use crate::menu::{
    aggregate_best, best_result, currents, entries_model, entries_of, ip_entries, pick_router_probe,
    probes_for, router_probe, EntryModel, IpEntry,
};
use crate::netinfo::{NetInfo, NetModel};
use crate::numeral::{
    dec, decimal, decimal_tenths, half_even, half_up, law_rounding_is_nearest, lemma_rounds_below,
    round_half_even, round_half_up, tenths_text,
};
use crate::ping::{
    hosts_of, snapshot_of, snapshots_model, HostSnapshot, PingResult, PingTarget, ProbeKind,
    ProbeModel, ResultModel, SampleModel, SlotModel, SnapshotModel,
};
use crate::sparkline::{
    best_model, best_of, bucketize, row_model, rows_model, BucketInfo, Tolerance, NS_PER_MS,
};
use crate::text::{copy_text, text_of, texts_of};

verus! {

/// A latency in milliseconds, a double-precision number: numerator and
/// denominator.
pub open spec fn ms_of(ns: u64) -> (int, int) {
    nearest_double(ns as int, NS_PER_MS as int)
}

/// A latency in milliseconds with one decimal place.
pub open spec fn ms_text(ns: u64) -> Seq<char> {
    tenths_text(half_even(10 * ms_of(ns).0, ms_of(ns).1) as nat)
}

fn format_ms(ns: u64) -> (r: String)
    ensures
        r@ == ms_text(ns),
{
    let ms = to_double(ns as u128, NS_PER_MS as u128);
    proof {
        lemma_rounds_below(10 * ms.0 as int, ms.1 as int);
    }
    decimal_tenths(round_half_even(10 * ms.0, ms.1) as u64)
}

/// A result as a row shows it: the latency in whole milliseconds, or what went
/// wrong.
pub open spec fn result_text(r: ResultModel) -> Seq<char> {
    match r {
        ResultModel::Reply(ns) => dec(half_up(ms_of(ns).0, ms_of(ns).1) as nat) + "ms"@,
        ResultModel::Timeout => "timeout"@,
        ResultModel::Error(e) => e,
        ResultModel::Pending => "..."@,
    }
}

/// A result as a row shows it.
pub fn format_result(result: &PingResult) -> (r: String)
    ensures
        r@ == result_text(result@),
{
    match result {
        PingResult::Reply(ns) => {
            let ms = to_double(*ns as u128, NS_PER_MS as u128);
            proof {
                lemma_rounds_below(ms.0 as int, ms.1 as int);
            }
            let mut s = decimal(round_half_up(ms.0, ms.1) as u64);
            s.append("ms");
            s
        },
        PingResult::Timeout => "timeout".to_string(),
        PingResult::Error(e) => e.clone(),
        PingResult::Pending => "...".to_string(),
    }
}

/// The aggregate as the status bar's tooltip shows it.
pub open spec fn hint_text(r: ResultModel) -> Seq<char> {
    "Internet: "@ + match r {
        ResultModel::Reply(ns) => ms_text(ns) + " ms"@,
        ResultModel::Timeout => "timeout"@,
        ResultModel::Error(e) => e,
        ResultModel::Pending => "\u{2026}"@,
    }
}

/// The aggregate as the status bar's tooltip shows it.
pub fn format_hint(result: &PingResult) -> (r: String)
    ensures
        r@ == hint_text(result@),
{
    let mut s = "Internet: ".to_string();
    match result {
        PingResult::Reply(ns) => {
            s.append(format_ms(*ns).as_str());
            s.append(" ms");
            assert("Internet: "@ + ms_text(*ns) + " ms"@ =~= "Internet: "@ + (ms_text(*ns)
                + " ms"@));
        },
        PingResult::Timeout => s.append("timeout"),
        PingResult::Error(e) => s.append(e.as_str()),
        PingResult::Pending => s.append("\u{2026}"),
    }
    s
}

/// A bucket as its tooltip shows it.
pub open spec fn tooltip_text(b: BucketInfo) -> Seq<char> {
    if b.samples == 0 {
        "no data"@
    } else {
        match b.max_ok_ns {
            Some(ns) => if b.failed > 0 {
                ms_text(ns) + " ms \u{b7} "@ + dec(
                    percent(b.failed as int, b.samples as int) as nat,
                ) + "% loss"@
            } else {
                ms_text(ns) + " ms"@
            },
            None => "all timeouts"@,
        }
    }
}

/// A bucket as its tooltip shows it: the worst latency, and the loss in whole
/// percent where there was any.
pub fn format_bucket_tooltip(b: &BucketInfo) -> (r: String)
    ensures
        r@ == tooltip_text(*b),
{
    if b.samples == 0 {
        return "no data".to_string();
    }
    match b.max_ok_ns {
        Some(ns) => {
            let mut s = format_ms(ns);
            if b.failed > 0 {
                let loss: u64 = whole_percent(b.failed, b.samples);
                s.append(" ms \u{b7} ");
                s.append(decimal(loss).as_str());
                s.append("% loss");
            } else {
                s.append(" ms");
            }
            s
        },
        None => "all timeouts".to_string(),
    }
}

/// The tooltips of a sparkline's slots.
pub fn tooltips(buckets: &[BucketInfo]) -> (r: Vec<String>)
    ensures
        texts_of(r@) == buckets@.map_values(|b: BucketInfo| tooltip_text(b)),
{
    let ghost want = buckets@.map_values(|b: BucketInfo| tooltip_text(b));
    let mut r: Vec<String> = Vec::new();
    assert(texts_of(r@) =~= want.take(0));
    while r.len() < buckets.len()
        invariant
            r@.len() <= buckets@.len(),
            want == buckets@.map_values(|b: BucketInfo| tooltip_text(b)),
            texts_of(r@) == want.take(r@.len() as int),
        decreases buckets.len() - r.len(),
    {
        let s = format_bucket_tooltip(&buckets[r.len()]);
        let ghost before = r@;
        r.push(s);
        assert(texts_of(r@) =~= texts_of(before).push(s@));
        assert(texts_of(r@) =~= want.take(r@.len() as int));
    }
    assert(want.take(r@.len() as int) =~= want);
    r
}

/// How many slots the status bar shows.
pub const STATUS_CELLS: usize = 4;

/// The slots that the status bar shows: the most recent ones, the newest
/// rightmost. Where there are too few, empty slots stand on the left.
pub open spec fn status_model(buckets: Seq<BucketInfo>) -> Seq<BucketInfo> {
    let tail = if buckets.len() <= STATUS_CELLS {
        buckets
    } else {
        buckets.skip(buckets.len() - STATUS_CELLS)
    };
    Seq::new((STATUS_CELLS - tail.len()) as nat, |i: int| BucketInfo::nothing()) + tail
}

/// The slots that the status bar shows.
pub fn status_cells(buckets: &[BucketInfo]) -> (r: Vec<BucketInfo>)
    ensures
        r@ == status_model(buckets@),
{
    let start: usize = buckets.len().saturating_sub(STATUS_CELLS);
    let missing: usize = STATUS_CELLS.saturating_sub(buckets.len());
    let ghost gap = Seq::new(missing as nat, |i: int| BucketInfo::nothing());
    let mut r: Vec<BucketInfo> = Vec::new();
    while r.len() < missing
        invariant
            gap == Seq::new(missing as nat, |i: int| BucketInfo::nothing()),
            r@.len() <= missing,
            r@ =~= gap.take(r@.len() as int),
        decreases missing - r.len(),
    {
        r.push(BucketInfo::empty());
    }
    assert(r@ =~= gap);
    let mut i: usize = start;
    while i < buckets.len()
        invariant
            start <= i <= buckets@.len(),
            r@ =~= gap + buckets@.subrange(start as int, i as int),
        decreases buckets.len() - i,
    {
        r.push(buckets[i]);
        i += 1;
    }
    assert(r@ =~= status_model(buckets@));
    r
}

/// An address button: the address to copy, and the text to show.
#[derive(Debug)]
pub struct Chip {
    pub title: String,
    pub shown: String,
}

/// The value of an optional address button.
pub open spec fn chip_of(c: Option<Chip>) -> Option<(Seq<char>, Seq<char>)> {
    match c {
        Some(c) => Some((c.title@, c.shown@)),
        None => None,
    }
}

/// The button for an address; without one there is none. A space at either end
/// gives the text room.
pub open spec fn chip_model(ip: Option<Seq<char>>) -> Option<(Seq<char>, Seq<char>)> {
    match ip {
        Some(s) if s.len() > 0 => Some((s, " "@ + s + " "@)),
        _ => None,
    }
}

/// The button for an address; `None` hides it.
pub fn set_chip(ip: &Option<String>) -> (r: Option<Chip>)
    ensures
        chip_of(r) == chip_model(text_of(*ip)),
{
    match ip {
        Some(s) => {
            if s.as_str().is_empty() {
                return None;
            }
            let mut shown = " ".to_string();
            shown.append(s.as_str());
            shown.append(" ");
            Some(Chip { title: s.clone(), shown })
        },
        None => None,
    }
}

/// What a name server row says before its sparkline.
#[derive(Debug)]
pub struct DnsLabel {
    pub label: String,
    pub kind: ChipKind,
    pub chip: Option<Chip>,
}

/// `ip: None` renders "DNS: unknown" without a chip; `Some(ip)` shows
/// "DNS" + a click-to-copy chip.
pub fn dns_label(ip: &Option<String>) -> (r: DnsLabel)
    ensures
        chip_of(r.chip) == chip_model(text_of(*ip)),
        match *ip {
            Some(s) => {
                &&& r.label@ == "DNS"@
                &&& r.kind == if s@.contains(':') {
                    ChipKind::V6
                } else {
                    ChipKind::V4
                }
            },
            None => r.label@ == "DNS: unknown"@ && r.kind == ChipKind::V4,
        },
{
    match ip {
        Some(s) => DnsLabel {
            label: "DNS".to_string(),
            kind: ip_kind(s.as_str()),
            chip: set_chip(ip),
        },
        None => DnsLabel {
            label: "DNS: unknown".to_string(),
            kind: ChipKind::V4,
            chip: None,
        },
    }
}

/// A row with a label, a sparkline and a value.
#[derive(Debug)]
pub struct Row {
    pub label: String,
    pub buckets: Vec<BucketInfo>,
    pub value: String,
}

/// The value of a `Row`.
pub struct RowModel {
    pub label: Seq<char>,
    pub buckets: Seq<BucketInfo>,
    pub value: Seq<char>,
}

impl View for Row {
    type V = RowModel;

    open spec fn view(&self) -> RowModel {
        RowModel { label: self.label@, buckets: self.buckets@, value: self.value@ }
    }
}

/// The row of a name server; `ip` is what its chip shows.
#[derive(Debug)]
pub struct DnsRow {
    pub ip: Option<String>,
    pub buckets: Vec<BucketInfo>,
    pub value: String,
}

/// The value of a `DnsRow`.
pub struct DnsRowModel {
    pub ip: Option<Seq<char>>,
    pub buckets: Seq<BucketInfo>,
    pub value: Seq<char>,
}

impl View for DnsRow {
    type V = DnsRowModel;

    open spec fn view(&self) -> DnsRowModel {
        DnsRowModel { ip: text_of(self.ip), buckets: self.buckets@, value: self.value@ }
    }
}

/// All that the menu and the status bar say.
#[derive(Debug)]
pub struct Titles {
    pub internet: Row,
    /// The status bar's slots.
    pub status: Vec<BucketInfo>,
    /// The status bar's tooltip.
    pub hint: String,
    pub router: Row,
    pub targets: Vec<Row>,
    pub dns: Vec<DnsRow>,
    pub vpn: Option<Row>,
    pub ips: Vec<IpEntry>,
}

/// The value of `Titles`.
pub struct TitlesModel {
    pub internet: RowModel,
    pub status: Seq<BucketInfo>,
    pub hint: Seq<char>,
    pub router: RowModel,
    pub targets: Seq<RowModel>,
    pub dns: Seq<DnsRowModel>,
    pub vpn: Option<RowModel>,
    pub ips: Seq<EntryModel>,
}

/// The values of a list of rows.
pub open spec fn rows_of(rows: Seq<Row>) -> Seq<RowModel> {
    rows.map_values(|r: Row| r@)
}

/// The values of a list of name server rows.
pub open spec fn dns_rows_of(rows: Seq<DnsRow>) -> Seq<DnsRowModel> {
    rows.map_values(|r: DnsRow| r@)
}

impl View for Titles {
    type V = TitlesModel;

    open spec fn view(&self) -> TitlesModel {
        TitlesModel {
            internet: self.internet@,
            status: self.status@,
            hint: self.hint@,
            router: self.router@,
            targets: rows_of(self.targets@),
            dns: dns_rows_of(self.dns@),
            vpn: match self.vpn {
                Some(r) => Some(r@),
                None => None,
            },
            ips: entries_of(self.ips@),
        }
    }
}

/// The snapshots of the targets: the first `n`, or none where there are fewer.
pub open spec fn target_snaps(snaps: Seq<SnapshotModel>, n: nat) -> Seq<SnapshotModel> {
    if n <= snaps.len() {
        snaps.take(n as int)
    } else {
        Seq::empty()
    }
}

/// The snapshot of the router, which stands behind those of the targets.
pub open spec fn router_snap(snaps: Seq<SnapshotModel>, n: nat, probed: bool) -> Option<
    SnapshotModel,
> {
    if probed && n < snaps.len() {
        Some(snaps[n as int])
    } else {
        None
    }
}

/// The snapshot of a name server; theirs stand behind all others.
pub open spec fn dns_snap(snaps: Seq<SnapshotModel>, n: nat, probed: bool, i: int) -> Option<
    SnapshotModel,
> {
    let at = n + if probed {
        1int
    } else {
        0int
    } + i;
    if at < snaps.len() {
        Some(snaps[at])
    } else {
        None
    }
}

/// The sparkline of a host; without a snapshot there is none.
pub open spec fn spark_of(snap: Option<SnapshotModel>, now: u64) -> Seq<BucketInfo> {
    match snap {
        Some(s) => row_model(s.samples, now),
        None => Seq::empty(),
    }
}

/// The latest result of a host; without a snapshot it is pending.
pub open spec fn current_of(snap: Option<SnapshotModel>) -> ResultModel {
    match snap {
        Some(s) => s.current,
        None => ResultModel::Pending,
    }
}

/// The sparklines of the targets.
pub open spec fn sparks(snaps: Seq<SnapshotModel>, now: u64) -> Seq<Seq<BucketInfo>> {
    snaps.map_values(|s: SnapshotModel| row_model(s.samples, now))
}

/// The element at `i`, if there is one.
pub open spec fn nth(snaps: Seq<SnapshotModel>, i: int) -> Option<SnapshotModel> {
    if 0 <= i < snaps.len() {
        Some(snaps[i])
    } else {
        None
    }
}

/// The target rows.
pub open spec fn target_rows(
    targets: Seq<Seq<char>>,
    snaps: Seq<SnapshotModel>,
    now: u64,
) -> Seq<RowModel> {
    Seq::new(
        targets.len(),
        |i: int|
            RowModel {
                label: targets[i],
                buckets: spark_of(nth(target_snaps(snaps, targets.len()), i), now),
                value: result_text(current_of(nth(target_snaps(snaps, targets.len()), i))),
            },
    )
}

/// The name server rows; without name servers, one row that says so. A zone id
/// is not shown.
pub open spec fn dns_row_models(
    dns_ips: Seq<Seq<char>>,
    snaps: Seq<SnapshotModel>,
    n: nat,
    probed: bool,
    now: u64,
) -> Seq<DnsRowModel> {
    if dns_ips.len() == 0 {
        seq![DnsRowModel { ip: None, buckets: Seq::empty(), value: Seq::empty() }]
    } else {
        Seq::new(
            dns_ips.len(),
            |i: int|
                DnsRowModel {
                    ip: Some(without_zone(dns_ips[i])),
                    buckets: spark_of(dns_snap(snaps, n, probed, i), now),
                    value: result_text(current_of(dns_snap(snaps, n, probed, i))),
                },
        )
    }
}

/// The router row; where no router is probed, or nothing is known of it yet, it
/// says "unknown".
pub open spec fn router_row(snap: Option<SnapshotModel>, now: u64) -> RowModel {
    match snap {
        Some(s) => RowModel {
            label: "Router"@,
            buckets: row_model(s.samples, now),
            value: result_text(s.current),
        },
        None => RowModel { label: "Router"@, buckets: Seq::empty(), value: "unknown"@ },
    }
}

/// The VPN row, while the VPN is up.
pub open spec fn vpn_row(interface: Option<Seq<char>>) -> Option<RowModel> {
    match interface {
        Some(i) => Some(
            RowModel {
                label: "VPN: active ("@ + i + ")"@,
                buckets: Seq::empty(),
                value: Seq::empty(),
            },
        ),
        None => None,
    }
}

/// The address rows, each label with a colon.
pub open spec fn ip_rows(entries: Seq<EntryModel>) -> Seq<EntryModel> {
    entries.map_values(|e: EntryModel| EntryModel { label: e.label + ":"@, ..e })
}

/// What the menu says. The snapshots stand in the order of the probes: the
/// targets, the router if it is probed, the name servers.
pub open spec fn titles_model(
    targets: Seq<Seq<char>>,
    snaps: Seq<SnapshotModel>,
    info: NetModel,
    public_v4: Option<Seq<char>>,
    public_v6: Option<Seq<char>>,
    now: u64,
    tolerance: Tolerance,
) -> TitlesModel {
    let mine = target_snaps(snaps, targets.len());
    let probed = router_probe(info) is Some;
    let internet = best_model(sparks(mine, now), tolerance);
    let current = best_result(currents(mine));
    TitlesModel {
        internet: RowModel {
            label: "Internet"@,
            buckets: internet,
            value: result_text(current),
        },
        status: status_model(internet),
        hint: hint_text(current),
        router: router_row(router_snap(snaps, targets.len(), probed), now),
        targets: target_rows(targets, snaps, now),
        dns: dns_row_models(info.dns_ips, snaps, targets.len(), probed, now),
        vpn: vpn_row(info.vpn_interface),
        ips: ip_rows(entries_model(info, public_v4, public_v6)),
    }
}

/// The sparkline and the value of a host.
fn host_cells(snap: Option<&HostSnapshot>, now: u64) -> (r: (Vec<BucketInfo>, String))
    requires
        snap is Some ==> snap->0.samples@.len() <= u32::MAX,
    ensures
        ({
            let model = match snap {
                Some(s) => Some(s@),
                None => None,
            };
            &&& r.0@ == spark_of(model, now)
            &&& r.1@ == result_text(current_of(model))
        }),
{
    match snap {
        Some(s) => (bucketize(s.samples.as_slice(), now), format_result(&s.current)),
        None => (Vec::new(), format_result(&PingResult::Pending)),
    }
}

/// Whether every snapshot's history can be counted.
pub open spec fn countable(snaps: Seq<HostSnapshot>) -> bool {
    forall|i: int| 0 <= i < snaps.len() ==> (#[trigger] snaps[i]).samples@.len() <= u32::MAX
}

/// The target rows.
fn make_target_rows(targets: &[PingTarget], mine: &[HostSnapshot], now: u64) -> (r: Vec<Row>)
    requires
        countable(mine@),
    ensures
        rows_of(r@) == Seq::new(
            targets@.len(),
            |i: int|
                RowModel {
                    label: hosts_of(targets@)[i],
                    buckets: spark_of(nth(snapshots_model(mine@), i), now),
                    value: result_text(current_of(nth(snapshots_model(mine@), i))),
                },
        ),
{
    let ghost want = Seq::new(
        targets@.len(),
        |i: int|
            RowModel {
                label: hosts_of(targets@)[i],
                buckets: spark_of(nth(snapshots_model(mine@), i), now),
                value: result_text(current_of(nth(snapshots_model(mine@), i))),
            },
    );
    let mut r: Vec<Row> = Vec::new();
    assert(rows_of(r@) =~= want.take(0));
    while r.len() < targets.len()
        invariant
            r@.len() <= targets@.len(),
            countable(mine@),
            want.len() == targets@.len(),
            forall|i: int|
                0 <= i < want.len() ==> #[trigger] want[i] == (RowModel {
                    label: hosts_of(targets@)[i],
                    buckets: spark_of(nth(snapshots_model(mine@), i), now),
                    value: result_text(current_of(nth(snapshots_model(mine@), i))),
                }),
            rows_of(r@) == want.take(r@.len() as int),
        decreases targets.len() - r.len(),
    {
        let i: usize = r.len();
        let snap: Option<&HostSnapshot> = if i < mine.len() {
            Some(&mine[i])
        } else {
            None
        };
        let (buckets, value) = host_cells(snap, now);
        let row = Row { label: targets[i].host.clone(), buckets, value };
        let ghost before = r@;
        r.push(row);
        assert(row@ == want[i as int]);
        assert(rows_of(r@) =~= rows_of(before).push(row@));
        assert(rows_of(r@) =~= want.take(r@.len() as int));
    }
    assert(want.take(r@.len() as int) =~= want);
    r
}

/// The name server rows.
fn make_dns_rows(
    dns_ips: &Vec<String>,
    snapshot: &[HostSnapshot],
    n: usize,
    probed: bool,
    now: u64,
) -> (r: Vec<DnsRow>)
    requires
        countable(snapshot@),
    ensures
        dns_rows_of(r@) == dns_row_models(
            texts_of(dns_ips@),
            snapshots_model(snapshot@),
            n as nat,
            probed,
            now,
        ),
{
    let ghost snaps = snapshots_model(snapshot@);
    let ghost ips = texts_of(dns_ips@);
    let ghost want = dns_row_models(ips, snaps, n as nat, probed, now);
    let mut r: Vec<DnsRow> = Vec::new();
    if dns_ips.len() == 0 {
        let row = DnsRow { ip: None, buckets: Vec::new(), value: String::new() };
        r.push(row);
        assert(row@.buckets =~= Seq::<BucketInfo>::empty());
        assert(dns_rows_of(r@) =~= want);
        return r;
    }
    assert(dns_rows_of(r@) =~= want.take(0));
    // The first name server's snapshot; past the end, there is none.
    let from: usize = if n >= snapshot.len() {
        snapshot.len()
    } else if probed {
        n + 1
    } else {
        n
    };
    while r.len() < dns_ips.len()
        invariant
            r@.len() <= dns_ips@.len(),
            0 < dns_ips@.len(),
            countable(snapshot@),
            snaps == snapshots_model(snapshot@),
            ips == texts_of(dns_ips@),
            want == dns_row_models(ips, snaps, n as nat, probed, now),
            from <= snaps.len(),
            from < snaps.len() ==> from == n + if probed {
                1int
            } else {
                0int
            },
            from == snaps.len() ==> n + if probed {
                1int
            } else {
                0int
            } >= snaps.len(),
            dns_rows_of(r@) == want.take(r@.len() as int),
        decreases dns_ips.len() - r.len(),
    {
        let i: usize = r.len();
        let snap: Option<&HostSnapshot> = if i < snapshot.len() - from {
            Some(&snapshot[from + i])
        } else {
            None
        };
        let (buckets, value) = host_cells(snap, now);
        let row = DnsRow { ip: Some(strip_zone(dns_ips[i].as_str())), buckets, value };
        let ghost before = r@;
        r.push(row);
        assert(ips[i as int] == dns_ips@[i as int]@);
        assert(match snap {
            Some(s) => dns_snap(snaps, n as nat, probed, i as int) == Some(s@),
            None => dns_snap(snaps, n as nat, probed, i as int) is None,
        });
        assert(row@ == want[i as int]);
        assert(dns_rows_of(r@) =~= dns_rows_of(before).push(row@));
        assert(dns_rows_of(r@) =~= want.take(r@.len() as int));
    }
    assert(want.take(r@.len() as int) =~= want);
    r
}

/// The address rows.
fn make_ip_rows(info: &NetInfo, public: &(Option<String>, Option<String>)) -> (r: Vec<IpEntry>)
    ensures
        entries_of(r@) == ip_rows(entries_model(info@, text_of(public.0), text_of(public.1))),
{
    let entries = ip_entries(info, public);
    let ghost model = entries_of(entries@);
    let ghost want = ip_rows(model);
    let mut r: Vec<IpEntry> = Vec::new();
    assert(entries_of(r@) =~= want.take(0));
    while r.len() < entries.len()
        invariant
            r@.len() <= entries@.len(),
            model == entries_of(entries@),
            want == ip_rows(model),
            entries_of(r@) == want.take(r@.len() as int),
        decreases entries.len() - r.len(),
    {
        let i: usize = r.len();
        let e = &entries[i];
        let mut label = e.label.clone();
        label.append(":");
        let row = IpEntry { label, v4: copy_text(&e.v4), v6: copy_text(&e.v6) };
        let ghost before = r@;
        r.push(row);
        assert(model[i as int] == e@);
        assert(row@ == want[i as int]);
        assert(entries_of(r@) =~= entries_of(before).push(row@));
        assert(entries_of(r@) =~= want.take(r@.len() as int));
    }
    assert(want.take(r@.len() as int) =~= want);
    r
}

/// The sparklines of the targets.
fn make_sparks(mine: &[HostSnapshot], now: u64) -> (r: Vec<Vec<BucketInfo>>)
    requires
        countable(mine@),
    ensures
        rows_model(r@) == sparks(snapshots_model(mine@), now),
{
    let ghost want = sparks(snapshots_model(mine@), now);
    let mut r: Vec<Vec<BucketInfo>> = Vec::new();
    assert(rows_model(r@) =~= want.take(0));
    while r.len() < mine.len()
        invariant
            r@.len() <= mine@.len(),
            countable(mine@),
            want == sparks(snapshots_model(mine@), now),
            rows_model(r@) == want.take(r@.len() as int),
        decreases mine.len() - r.len(),
    {
        let i: usize = r.len();
        let row = bucketize(mine[i].samples.as_slice(), now);
        let ghost before = r@;
        r.push(row);
        assert(want[i as int] == row@);
        assert(rows_model(r@) =~= rows_model(before).push(row@));
        assert(rows_model(r@) =~= want.take(r@.len() as int));
    }
    assert(want.take(r@.len() as int) =~= want);
    r
}

/// What the menu and the status bar say, from the targets, the snapshot of
/// their probes, the network and the public addresses.
pub fn update_titles(
    targets: &[PingTarget],
    snapshot: &[HostSnapshot],
    info: &NetInfo,
    public: &(Option<String>, Option<String>),
    now: u64,
    tolerance: &Tolerance,
) -> (r: Titles)
    requires
        tolerance.wf(),
        countable(snapshot@),
    ensures
        r@ == titles_model(
            hosts_of(targets@),
            snapshots_model(snapshot@),
            info@,
            text_of(public.0),
            text_of(public.1),
            now,
            *tolerance,
        ),
{
    let ghost snaps = snapshots_model(snapshot@);
    let n: usize = targets.len();
    let mine: &[HostSnapshot] = if n <= snapshot.len() {
        &snapshot[0..n]
    } else {
        &snapshot[0..0]
    };
    assert(snapshots_model(mine@) =~= target_snaps(snaps, n as nat));
    assert forall|i: int| 0 <= i < mine@.len() implies (#[trigger] mine@[i]).samples@.len()
        <= u32::MAX by {
        assert(mine@[i] == snapshot@[i]);
    }
    let rows = make_sparks(mine, now);
    let internet = best_of(rows.as_slice(), tolerance);
    let current = aggregate_best(mine);
    let probed = pick_router_probe(info).is_some();
    let router = if probed && n < snapshot.len() {
        let s = &snapshot[n];
        assert(snaps[n as int] == s@);
        Row {
            label: "Router".to_string(),
            buckets: bucketize(s.samples.as_slice(), now),
            value: format_result(&s.current),
        }
    } else {
        Row { label: "Router".to_string(), buckets: Vec::new(), value: "unknown".to_string() }
    };
    assert(router@.buckets =~= router_row(router_snap(snaps, n as nat, probed), now).buckets);
    let vpn = match &info.vpn_interface {
        Some(i) => {
            let mut label = "VPN: active (".to_string();
            label.append(i.as_str());
            label.append(")");
            let row = Row { label, buckets: Vec::new(), value: String::new() };
            assert(row@.buckets =~= Seq::<BucketInfo>::empty());
            Some(row)
        },
        None => None,
    };
    let status = status_cells(internet.as_slice());
    let r = Titles {
        hint: format_hint(&current),
        internet: Row {
            label: "Internet".to_string(),
            buckets: internet,
            value: format_result(&current),
        },
        status,
        router,
        targets: make_target_rows(targets, mine, now),
        dns: make_dns_rows(&info.dns_ips, snapshot, n, probed, now),
        vpn,
        ips: make_ip_rows(info, public),
    };
    assert(rows_of(r.targets@) =~= target_rows(hosts_of(targets@), snaps, now));
    r
}

/// Every row shows the probe of its own host. Once the hosts to probe are set,
/// the row of a target shows the slot that probes that target, the router row
/// the slot that probes the router, and the row of a name server the slot that
/// probes that name server.
pub proof fn law_rows_show_their_own_host(
    slots: Seq<SlotModel>,
    targets: Seq<Seq<char>>,
    info: NetModel,
)
    requires
        slots.map_values(|s: SlotModel| s.probe) == probes_for(targets, info),
    ensures
        ({
            let snaps = slots.map_values(|s: SlotModel| snapshot_of(s));
            let n = targets.len();
            let probed = router_probe(info) is Some;
            let from = n + if probed {
                1int
            } else {
                0int
            };
            &&& forall|i: int|
                0 <= i < n ==> nth(target_snaps(snaps, n), i) == Some(
                    snapshot_of(#[trigger] slots[i]),
                ) && slots[i].probe == (ProbeModel { host: targets[i], kind: ProbeKind::Echo })
            &&& probed ==> router_snap(snaps, n, probed) == Some(snapshot_of(slots[n as int]))
                && Some(slots[n as int].probe) == router_probe(info)
            &&& forall|i: int|
                0 <= i < info.dns_ips.len() ==> #[trigger] dns_snap(snaps, n, probed, i) == Some(
                    snapshot_of(slots[from + i]),
                ) && slots[from + i].probe == (ProbeModel {
                    host: info.dns_ips[i],
                    kind: ProbeKind::Echo,
                })
        }),
{
    let snaps = slots.map_values(|s: SlotModel| snapshot_of(s));
    let probes = slots.map_values(|s: SlotModel| s.probe);
    let n = targets.len();
    let probed = router_probe(info) is Some;
    let from = n + if probed {
        1int
    } else {
        0int
    };
    assert(probes.len() == from + info.dns_ips.len());
    assert forall|i: int| 0 <= i < n implies nth(target_snaps(snaps, n), i) == Some(
        snapshot_of(#[trigger] slots[i]),
    ) && slots[i].probe == (ProbeModel { host: targets[i], kind: ProbeKind::Echo }) by {
        assert(probes[i] == slots[i].probe);
    }
    if probed {
        assert(probes[n as int] == slots[n as int].probe);
    }
    assert forall|i: int| 0 <= i < info.dns_ips.len() implies #[trigger] dns_snap(
        snaps,
        n,
        probed,
        i,
    ) == Some(snapshot_of(slots[from + i])) && slots[from + i].probe == (ProbeModel {
        host: info.dns_ips[i],
        kind: ProbeKind::Echo,
    }) by {
        assert(probes[from + i] == slots[from + i].probe);
    }
}

/// A latency times `k`, rounded to a whole number `r`, is off by no more than a
/// half, and by what double-precision numbers cannot tell.
proof fn lemma_rounded_ms(ns: u64, k: int, r: int)
    requires
        0 < k <= 10,
        ({
            let (m, p) = ms_of(ns);
            -p <= 2 * (r * p - k * m) <= p
        }),
    ensures
        -(1_000_000 * UNIT + k * ns) <= 2 * (UNIT * (r * 1_000_000 - k * ns)) <= 1_000_000 * UNIT
            + k * ns,
{
    let (m, p) = ms_of(ns);
    let n = ns as int;
    law_double_is_the_nearest_of_its_digits(n, NS_PER_MS as int);
    if ns == 0 {
        assert(m == 0 && p == 1);
        assert(r == 0);
    } else {
        law_double_is_near(n, NS_PER_MS as int);
        let unit = UNIT as int;
        let x = m * 1_000_000 - n * p;
        let y = r * p - k * m;
        let off = r * 1_000_000 - k * n;
        assert(off * p == 1_000_000 * y + k * x) by (nonlinear_arith)
            requires
                off == r * 1_000_000 - k * n,
                y == r * p - k * m,
                x == m * 1_000_000 - n * p,
        ;
        assert(unit * (off * p) == 1_000_000 * (unit * y) + k * (unit * x)) by (nonlinear_arith)
            requires
                off * p == 1_000_000 * y + k * x,
        ;
        assert(-(unit * p) <= 2 * (unit * y) <= unit * p) by (nonlinear_arith)
            requires
                -p <= 2 * y <= p,
                0 < unit,
        ;
        let np = n * p;
        assert(-(k * np) <= 2 * (k * (unit * x)) <= k * np) by (nonlinear_arith)
            requires
                -np <= 2 * (unit * x) <= np,
                0 < k,
        ;
        let limit = 1_000_000 * unit + k * n;
        assert(1_000_000 * (unit * p) + k * np == limit * p) by (nonlinear_arith)
            requires
                limit == 1_000_000 * unit + k * n,
                np == n * p,
        ;
        assert(-(limit * p) <= 2 * (unit * (off * p)) <= limit * p);
        assert(-limit <= 2 * (unit * off) <= limit) by (nonlinear_arith)
            requires
                -(limit * p) <= 2 * (unit * (off * p)) <= limit * p,
                0 < p,
        {
            assert(2 * (unit * (off * p)) == (2 * (unit * off)) * p);
        }
    }
}

/// A latency is shown as the number of milliseconds that is nearest to it: with
/// one decimal in the hint and the tooltips, whole in the rows. Past 100 days it
/// may be off by as much as double-precision numbers cannot tell.
pub proof fn law_latencies_are_shown_to_the_nearest(ns: u64)
    ensures
        exists|t: nat| #[trigger]
            ms_text(ns) == tenths_text(t) && (ns < 9_000_000_000_000_000 ==> -50_000 <= t * 100_000
                - ns <= 50_000) && -(1_000_000 * UNIT + 10 * ns) <= 2 * (UNIT * (t * 1_000_000 - 10
                * ns)) <= 1_000_000 * UNIT + 10 * ns,
        exists|w: nat| #[trigger]
            result_text(ResultModel::Reply(ns)) == dec(w) + "ms"@ && (ns < 9_000_000_000_000_000
                ==> -500_000 <= w * 1_000_000 - ns <= 500_000) && -(1_000_000 * UNIT + 1 * ns) <= 2
                * (UNIT * (w * 1_000_000 - 1 * ns)) <= 1_000_000 * UNIT + 1 * ns,
{
    let (m, p) = ms_of(ns);
    law_double_is_the_nearest_of_its_digits(ns as int, NS_PER_MS as int);
    if ns > 0 {
        law_double_is_near(ns as int, NS_PER_MS as int);
    }
    law_rounding_is_nearest(10 * m, p);
    law_rounding_is_nearest(m, p);
    lemma_rounds_below(10 * m, p);
    lemma_rounds_below(m, p);
    let t = half_even(10 * m, p);
    let w = half_up(m, p);
    lemma_rounded_ms(ns, 10, t);
    lemma_rounded_ms(ns, 1, w);
    if ns < 9_000_000_000_000_000 {
        let unit = UNIT as int;
        let a = t * 1_000_000 - 10 * ns;
        assert(-1_000_020 < 2 * a < 1_000_020) by (nonlinear_arith)
            requires
                -(1_000_000 * unit + 10 * ns) <= 2 * (unit * a) <= 1_000_000 * unit + 10 * ns,
                0 <= ns < 9_000_000_000_000_000,
                unit == 4_503_599_627_370_496,
        ;
        assert(a == 10 * (t * 100_000 - ns));
        let b = w * 1_000_000 - ns;
        assert(-1_000_002 < 2 * b < 1_000_002) by (nonlinear_arith)
            requires
                -(1_000_000 * unit + ns) <= 2 * (unit * b) <= 1_000_000 * unit + ns,
                0 <= ns < 9_000_000_000_000_000,
                unit == 4_503_599_627_370_496,
        ;
    }
    assert(ms_text(ns) == tenths_text(t as nat));
    assert(result_text(ResultModel::Reply(ns)) == dec(w as nat) + "ms"@);
}

/// What rows, hint and tooltips say of each kind of result.
pub proof fn law_each_result_has_its_words(e: Seq<char>, ns: u64, b: BucketInfo)
    ensures
        result_text(ResultModel::Timeout) == "timeout"@,
        result_text(ResultModel::Error(e)) == e,
        result_text(ResultModel::Pending) == "..."@,
        hint_text(ResultModel::Reply(ns)) == "Internet: "@ + (ms_text(ns) + " ms"@),
        hint_text(ResultModel::Timeout) == "Internet: "@ + "timeout"@,
        hint_text(ResultModel::Error(e)) == "Internet: "@ + e,
        hint_text(ResultModel::Pending) == "Internet: "@ + "\u{2026}"@,
        b.samples == 0 ==> tooltip_text(b) == "no data"@,
        b.samples > 0 && b.max_ok_ns is None ==> tooltip_text(b) == "all timeouts"@,
        b.samples > 0 && b.max_ok_ns is Some && b.failed == 0 ==> tooltip_text(b) == ms_text(
            b.max_ok_ns->0,
        ) + " ms"@,
        b.samples > 0 && b.max_ok_ns is Some && b.failed > 0 ==> tooltip_text(b) == ms_text(
            b.max_ok_ns->0,
        ) + " ms \u{b7} "@ + dec(percent(b.failed as int, b.samples as int) as nat) + "% loss"@,
{
}

/// The status bar shows four slots: from the right, the newest ones, and empty
/// slots where there are no more.
pub proof fn law_the_status_bar_shows_the_newest(buckets: Seq<BucketInfo>, k: int)
    requires
        0 <= k < 4,
    ensures
        status_model(buckets).len() == 4,
        k < buckets.len() ==> status_model(buckets)[3 - k] == buckets[buckets.len() - 1 - k],
        k >= buckets.len() ==> status_model(buckets)[3 - k] == (BucketInfo {
            samples: 0,
            failed: 0,
            max_ok_ns: None,
        }),
{
}

/// A chip copies the address and shows it with a space at either end; without
/// an address there is no chip.
pub proof fn law_a_chip_shows_its_address(ip: Seq<char>, c: Chip)
    ensures
        chip_model(None) is None,
        ip.len() == 0 ==> chip_model(Some(ip)) is None,
        ip.len() > 0 ==> chip_model(Some(ip)) == Some((ip, (seq![' '] + ip).push(' '))),
        chip_of(None) is None,
        chip_of(Some(c)) == Some((c.title@, c.shown@)),
{
    reveal_strlit(" ");
    assert(" "@ =~= seq![' ']);
    assert(" "@ + ip + " "@ =~= (seq![' '] + ip).push(' '));
}

/// The row of a target has its name, the sparkline of its own samples, and its
/// current result. The sparkline has 30 slots, and every sample that came back
/// or failed within the last 300 seconds is counted in the slot of its age.
/// Before there are snapshots of all targets, rows have no sparkline and are
/// pending.
pub proof fn law_a_target_row_shows_its_target(
    targets: Seq<Seq<char>>,
    snaps: Seq<SnapshotModel>,
    info: NetModel,
    public_v4: Option<Seq<char>>,
    public_v6: Option<Seq<char>>,
    now: u64,
    tolerance: Tolerance,
    i: int,
    j: int,
)
    requires
        0 <= i < targets.len(),
    ensures
        ({
            let t = titles_model(targets, snaps, info, public_v4, public_v6, now, tolerance);
            let row = t.targets[i];
            &&& t.targets.len() == targets.len()
            &&& row.label == targets[i]
            &&& targets.len() <= snaps.len() ==> {
                &&& row.value == result_text(snaps[i].current)
                &&& row.buckets == row_model(snaps[i].samples, now)
                &&& shows_history(row.buckets, snaps[i].samples, now, j)
            }
            &&& targets.len() > snaps.len() ==> row.value == "..."@ && row.buckets.len() == 0
        }),
{
    if targets.len() <= snaps.len() {
        assert(target_snaps(snaps, targets.len())[i] == snaps[i]);
        lemma_row_shows_history(snaps[i].samples, now, j);
    }
}

/// Whether a row has 30 slots and counts the sample `j` of a history in the slot
/// of its age: where it is not pending and less than 300 seconds old, the slot
/// has a sample; where it failed, the slot has a failure; and where it is a
/// reply, the slot has a latency at least as high.
pub open spec fn shows_history(
    row: Seq<BucketInfo>,
    samples: Seq<SampleModel>,
    now: u64,
    j: int,
) -> bool {
    &&& row.len() == 30
    &&& 0 <= j < samples.len() && samples.len() <= u32::MAX && !(samples[j].result is Pending) ==> {
        let age: int = if samples[j].at <= now {
            now - samples[j].at
        } else {
            0
        };
        let slot = row[29 - age / 10_000_000_000];
        age < 300_000_000_000 ==> {
            &&& slot.samples > 0
            &&& samples[j].result is Timeout || samples[j].result is Error ==> slot.failed > 0
            &&& samples[j].result is Reply ==> slot.max_ok_ns is Some && slot.max_ok_ns->0
                >= samples[j].result->Reply_0
        }
    }
}

proof fn lemma_row_shows_history(samples: Seq<SampleModel>, now: u64, j: int)
    ensures
        shows_history(row_model(samples, now), samples, now, j),
{
    if 0 <= j < samples.len() && samples.len() <= u32::MAX {
        let s = samples[j];
        let age: int = if s.at <= now {
            now - s.at
        } else {
            0
        };
        let k = age / 10_000_000_000;
        if age < 300_000_000_000 {
            assert(0 <= k < 30);
            crate::sparkline::law_every_result_counts_in_the_slot_of_its_age(samples, now, k);
            let settled = |s: SampleModel|
                !(s.result is Pending) && 10_000_000_000 * k <= (if s.at <= now {
                    now - s.at
                } else {
                    0
                }) < 10_000_000_000 * (k + 1);
            let failed = |s: SampleModel|
                (s.result is Timeout || s.result is Error) && 10_000_000_000 * k <= (if s.at <= now {
                    now - s.at
                } else {
                    0
                }) < 10_000_000_000 * (k + 1);
            if !(s.result is Pending) {
                assert(settled(s));
                samples.lemma_filter_contains(settled, j);
                assert(samples.filter(settled).len() > 0);
            }
            if s.result is Timeout || s.result is Error {
                assert(failed(s));
                samples.lemma_filter_contains(failed, j);
                assert(samples.filter(failed).len() > 0);
            }
        }
    }
}

/// The row of a name server has its address without a zone id, the sparkline of
/// its own samples, and its current result; without name servers one row says
/// nothing. The router's row stands for the snapshot behind those of the
/// targets, if it is probed.
pub proof fn law_dns_and_router_rows_show_their_hosts(
    targets: Seq<Seq<char>>,
    snaps: Seq<SnapshotModel>,
    info: NetModel,
    public_v4: Option<Seq<char>>,
    public_v6: Option<Seq<char>>,
    now: u64,
    tolerance: Tolerance,
    i: int,
    j: int,
)
    ensures
        ({
            let t = titles_model(targets, snaps, info, public_v4, public_v6, now, tolerance);
            let n = targets.len() as int;
            let from = n + if router_probe(info) is Some {
                1int
            } else {
                0int
            };
            &&& t.router.label == "Router"@
            &&& router_probe(info) is Some && n < snaps.len() ==> {
                &&& t.router.value == result_text(snaps[n].current)
                &&& t.router.buckets == row_model(snaps[n].samples, now)
                &&& shows_history(t.router.buckets, snaps[n].samples, now, j)
            }
            &&& router_probe(info) is None || n >= snaps.len() ==> t.router.value == "unknown"@
                && t.router.buckets.len() == 0
            &&& info.dns_ips.len() == 0 ==> t.dns.len() == 1 && t.dns[0].ip is None
                && t.dns[0].buckets.len() == 0 && t.dns[0].value.len() == 0
            &&& info.dns_ips.len() > 0 ==> t.dns.len() == info.dns_ips.len()
            &&& 0 <= i < info.dns_ips.len() ==> t.dns[i].ip == Some(without_zone(info.dns_ips[i]))
            &&& 0 <= i < info.dns_ips.len() && from + i < snaps.len() ==> {
                &&& t.dns[i].value == result_text(snaps[from + i].current)
                &&& t.dns[i].buckets == row_model(snaps[from + i].samples, now)
                &&& shows_history(t.dns[i].buckets, snaps[from + i].samples, now, j)
            }
            &&& 0 <= i < info.dns_ips.len() && from + i >= snaps.len() ==> t.dns[i].value == "..."@
                && t.dns[i].buckets.len() == 0
        }),
{
    let n = targets.len() as int;
    let from = n + if router_probe(info) is Some {
        1int
    } else {
        0int
    };
    if n < snaps.len() {
        lemma_row_shows_history(snaps[n].samples, now, j);
    }
    if 0 <= i && from + i < snaps.len() {
        lemma_row_shows_history(snaps[from + i].samples, now, j);
    }
}

/// The internet's row and the status bar go by the targets alone: the sparkline
/// is the best of theirs, slot by slot, and the value and the hint are the best
/// of their current results.
pub proof fn law_the_internet_is_the_best_of_the_targets(
    targets: Seq<Seq<char>>,
    snaps: Seq<SnapshotModel>,
    info: NetModel,
    public_v4: Option<Seq<char>>,
    public_v6: Option<Seq<char>>,
    now: u64,
    tolerance: Tolerance,
)
    requires
        targets.len() <= snaps.len(),
    ensures
        ({
            let t = titles_model(targets, snaps, info, public_v4, public_v6, now, tolerance);
            let rows = Seq::new(targets.len(), |i: int| row_model(snaps[i].samples, now));
            let results = Seq::new(targets.len(), |i: int| snaps[i].current);
            &&& t.internet.label == "Internet"@
            &&& t.internet.buckets == best_model(rows, tolerance)
            &&& t.internet.value == result_text(best_result(results))
            &&& t.hint == hint_text(best_result(results))
            &&& t.status == status_model(t.internet.buckets)
        }),
{
    let mine = target_snaps(snaps, targets.len());
    assert(sparks(mine, now) =~= Seq::new(
        targets.len(),
        |i: int| row_model(snaps[i].samples, now),
    ));
    assert(currents(mine) =~= Seq::new(targets.len(), |i: int| snaps[i].current));
}

/// Before there are snapshots of all targets, nothing is known of the internet.
pub proof fn law_the_internet_is_pending_at_first(
    targets: Seq<Seq<char>>,
    snaps: Seq<SnapshotModel>,
    info: NetModel,
    public_v4: Option<Seq<char>>,
    public_v6: Option<Seq<char>>,
    now: u64,
    tolerance: Tolerance,
)
    requires
        targets.len() > snaps.len(),
    ensures
        ({
            let t = titles_model(targets, snaps, info, public_v4, public_v6, now, tolerance);
            &&& t.internet.label == "Internet"@
            &&& t.internet.buckets.len() == 0
            &&& t.internet.value == "..."@
            &&& t.hint == "Internet: "@ + "\u{2026}"@
            &&& t.status == status_model(t.internet.buckets)
        }),
{
    let mine = target_snaps(snaps, targets.len());
    assert(currents(mine) =~= Seq::<ResultModel>::empty());
    crate::menu::law_aggregate_without_a_reply(currents(mine), 0);
    assert(sparks(mine, now).len() == 0);
}

/// The VPN has a row with the name of its interface while it is up; and there is
/// a row for each row of addresses, whose label ends in a colon.
pub proof fn law_vpn_and_addresses_have_their_rows(
    targets: Seq<Seq<char>>,
    snaps: Seq<SnapshotModel>,
    info: NetModel,
    public_v4: Option<Seq<char>>,
    public_v6: Option<Seq<char>>,
    now: u64,
    tolerance: Tolerance,
    i: int,
)
    ensures
        ({
            let t = titles_model(targets, snaps, info, public_v4, public_v6, now, tolerance);
            let entries = entries_model(info, public_v4, public_v6);
            &&& info.vpn_interface is None ==> t.vpn is None
            &&& info.vpn_interface is Some ==> t.vpn is Some && t.vpn->0.label == "VPN: active ("@
                + info.vpn_interface->0 + ")"@ && t.vpn->0.buckets.len() == 0
                && t.vpn->0.value.len() == 0
            &&& t.ips.len() == entries.len()
            &&& 0 <= i < entries.len() ==> t.ips[i].label == entries[i].label.push(':')
                && t.ips[i].v4 == entries[i].v4 && t.ips[i].v6 == entries[i].v6
        }),
{
    reveal_strlit(":");
    assert(":"@ =~= seq![':']);
    let entries = entries_model(info, public_v4, public_v6);
    if 0 <= i < entries.len() {
        assert(entries[i].label + ":"@ =~= entries[i].label.push(':'));
    }
}

/// Rows are told in full: of each its texts and its slots, and of a list every
/// row, in order.
pub proof fn law_rows_are_told_in_full(t: Titles, rows: Seq<Row>, dns: Seq<DnsRow>, i: int)
    ensures
        rows_of(rows).len() == rows.len(),
        0 <= i < rows.len() ==> rows_of(rows)[i].label == rows[i].label@ && rows_of(rows)[i].buckets
            == rows[i].buckets@ && rows_of(rows)[i].value == rows[i].value@,
        dns_rows_of(dns).len() == dns.len(),
        0 <= i < dns.len() ==> dns_rows_of(dns)[i].ip == text_of(dns[i].ip) && dns_rows_of(
            dns,
        )[i].buckets == dns[i].buckets@ && dns_rows_of(dns)[i].value == dns[i].value@,
        t@.internet.label == t.internet.label@,
        t@.internet.buckets == t.internet.buckets@,
        t@.internet.value == t.internet.value@,
        t@.router.label == t.router.label@,
        t@.router.buckets == t.router.buckets@,
        t@.router.value == t.router.value@,
        t@.status == t.status@,
        t@.hint == t.hint@,
        t@.targets == rows_of(t.targets@),
        t@.dns == dns_rows_of(t.dns@),
        t@.ips == entries_of(t.ips@),
        t@.vpn is Some <==> t.vpn is Some,
        t.vpn is Some ==> t@.vpn->0.label == t.vpn->0.label@ && t@.vpn->0.buckets
            == t.vpn->0.buckets@ && t@.vpn->0.value == t.vpn->0.value@,
{
}

} // verus!
