//! The menu: which hosts are probed, which rows there are, and what each row
//! says. Drawing it is left to the caller.

use vstd::prelude::*;
use vstd::utf8::encode_utf8;
use crate::address::{in_clat_block, is_clat_placeholder, strip_zone, without_zone};
use crate::netinfo::{NetInfo, NetModel};
use crate::ping::{
    hosts_of, probes_model, snapshots_model, HostSnapshot, PingResult, PingTarget, Probe,
    ProbeKind, ProbeModel, ResultModel, SnapshotModel,
};
use crate::settings::AppPrefs;
use crate::text::{chars_of, copy_text, string_of, text_of, trim, trimmed};

verus! {

/// The router to probe.
pub open spec fn router_probe(info: NetModel) -> Option<ProbeModel> {
    match (info.router_v6, info.router_v4) {
        (Some(v6), _) => Some(ProbeModel { host: v6, kind: ProbeKind::Echo }),
        (None, Some(v4)) if !in_clat_block(v4) => Some(
            ProbeModel { host: v4, kind: ProbeKind::Tcp },
        ),
        _ => None,
    }
}

/// The value of an optional probe.
pub open spec fn probe_of(p: Option<Probe>) -> Option<ProbeModel> {
    match p {
        Some(p) => Some(p@),
        None => None,
    }
}

/// Pick the best router address to probe:
/// 1. IPv6 router (ICMPv6 — link-local with zone id works directly, and
///    IPv6 routers generally answer echo since ND requires it).
/// 2. IPv4 router via TCP fallback — but skip the CLAT placeholder block,
///    which has no real host to talk to.
pub fn pick_router_probe(info: &NetInfo) -> (r: Option<Probe>)
    ensures
        probe_of(r) == router_probe(info@),
{
    if let Some(v6) = &info.router_v6 {
        return Some(Probe { host: v6.clone(), kind: ProbeKind::Echo });
    }
    if let Some(v4) = &info.router_v4 {
        if !is_clat_placeholder(v4.as_str()) {
            return Some(Probe { host: v4.clone(), kind: ProbeKind::Tcp });
        }
    }
    None
}

/// A row of addresses.
#[derive(Debug)]
pub struct IpEntry {
    pub label: String,
    pub v4: Option<String>,
    pub v6: Option<String>,
}

/// The value of an `IpEntry`.
pub struct EntryModel {
    pub label: Seq<char>,
    pub v4: Option<Seq<char>>,
    pub v6: Option<Seq<char>>,
}

impl View for IpEntry {
    type V = EntryModel;

    open spec fn view(&self) -> EntryModel {
        EntryModel { label: self.label@, v4: text_of(self.v4), v6: text_of(self.v6) }
    }
}

/// The values of a list of rows of addresses.
pub open spec fn entries_of(entries: Seq<IpEntry>) -> Seq<EntryModel> {
    entries.map_values(|e: IpEntry| e@)
}

/// The row of a label, if there is an address to show in it.
pub open spec fn entry_if_known(
    label: Seq<char>,
    v4: Option<Seq<char>>,
    v6: Option<Seq<char>>,
) -> Seq<EntryModel> {
    if v4 is Some || v6 is Some {
        seq![EntryModel { label, v4, v6 }]
    } else {
        Seq::empty()
    }
}

/// The rows of addresses, in order. A zone id of the router's address is not
/// shown.
pub open spec fn entries_model(
    info: NetModel,
    public_v4: Option<Seq<char>>,
    public_v6: Option<Seq<char>>,
) -> Seq<EntryModel> {
    entry_if_known("Local"@, info.local_v4, info.local_v6) + entry_if_known(
        "Router"@,
        info.router_v4,
        match info.router_v6 {
            Some(a) => Some(without_zone(a)),
            None => None,
        },
    ) + entry_if_known("Public"@, public_v4, public_v6)
}

fn push_if_known(
    rows: &mut Vec<IpEntry>,
    label: &str,
    v4: Option<String>,
    v6: Option<String>,
)
    ensures
        entries_of(final(rows)@) == entries_of(old(rows)@) + entry_if_known(
            label@,
            text_of(v4),
            text_of(v6),
        ),
{
    if v4.is_some() || v6.is_some() {
        let e = IpEntry { label: label.to_string(), v4, v6 };
        rows.push(e);
        assert(entries_of(rows@) =~= entries_of(old(rows)@) + seq![e@]);
    } else {
        assert(entries_of(rows@) =~= entries_of(old(rows)@) + Seq::<EntryModel>::empty());
    }
}

/// The set of IP-chip rows to display, in order. Each entry shows a label
/// plus one or two clickable address chips; entries with neither v4 nor v6
/// are omitted.
pub fn ip_entries(info: &NetInfo, public: &(Option<String>, Option<String>)) -> (r: Vec<IpEntry>)
    ensures
        entries_of(r@) == entries_model(info@, text_of(public.0), text_of(public.1)),
{
    let mut rows: Vec<IpEntry> = Vec::new();
    assert(entries_of(rows@) =~= Seq::<EntryModel>::empty());
    push_if_known(&mut rows, "Local", copy_text(&info.local_v4), copy_text(&info.local_v6));
    let router_v6 = match &info.router_v6 {
        Some(a) => Some(strip_zone(a.as_str())),
        None => None,
    };
    push_if_known(&mut rows, "Router", copy_text(&info.router_v4), router_v6);
    push_if_known(&mut rows, "Public", copy_text(&public.0), copy_text(&public.1));
    assert(entries_of(rows@) =~= entries_model(info@, text_of(public.0), text_of(public.1)));
    rows
}

/// An echo probe of each host.
pub open spec fn echo_probes(hosts: Seq<Seq<char>>) -> Seq<ProbeModel> {
    hosts.map_values(|h: Seq<char>| ProbeModel { host: h, kind: ProbeKind::Echo })
}

/// The probes: the targets, then the router if there is one to probe, then the
/// name servers.
pub open spec fn probes_for(targets: Seq<Seq<char>>, info: NetModel) -> Seq<ProbeModel> {
    echo_probes(targets) + match router_probe(info) {
        Some(p) => seq![p],
        None => Seq::empty(),
    } + echo_probes(info.dns_ips)
}

/// The hosts to probe, and how.
pub fn host_list(targets: &[PingTarget], info: &NetInfo) -> (r: Vec<Probe>)
    ensures
        probes_model(r@) == probes_for(hosts_of(targets@), info@),
{
    let ghost want_targets = echo_probes(hosts_of(targets@));
    let mut probes: Vec<Probe> = Vec::new();
    let mut i: usize = 0;
    assert(probes_model(probes@) =~= want_targets.take(0));
    while i < targets.len()
        invariant
            i <= targets@.len(),
            want_targets == echo_probes(hosts_of(targets@)),
            probes_model(probes@) == want_targets.take(i as int),
        decreases targets.len() - i,
    {
        let p = Probe { host: targets[i].host.clone(), kind: ProbeKind::Echo };
        let ghost before = probes@;
        probes.push(p);
        assert(want_targets[i as int] == p@);
        assert(probes_model(probes@) =~= probes_model(before).push(p@));
        assert(probes_model(probes@) =~= want_targets.take(i as int + 1));
        i += 1;
    }
    assert(want_targets.take(i as int) =~= want_targets);
    let ghost want_router = match router_probe(info@) {
        Some(p) => seq![p],
        None => Seq::<ProbeModel>::empty(),
    };
    if let Some(p) = pick_router_probe(info) {
        probes.push(p);
    }
    assert(probes_model(probes@) =~= want_targets + want_router);
    let ghost want_dns = echo_probes(info@.dns_ips);
    let ghost head = probes_model(probes@);
    let mut j: usize = 0;
    assert(probes_model(probes@) =~= head + want_dns.take(0));
    while j < info.dns_ips.len()
        invariant
            j <= info.dns_ips@.len(),
            want_dns == echo_probes(info@.dns_ips),
            probes_model(probes@) == head + want_dns.take(j as int),
        decreases info.dns_ips.len() - j,
    {
        let p = Probe { host: info.dns_ips[j].clone(), kind: ProbeKind::Echo };
        let ghost before = probes@;
        probes.push(p);
        assert(want_dns[j as int] == p@);
        assert(probes_model(probes@) =~= probes_model(before).push(p@));
        assert(probes_model(probes@) =~= head + want_dns.take(j as int + 1));
        j += 1;
    }
    assert(want_dns.take(j as int) =~= want_dns);
    probes
}

/// The lowest latency among the results; `None` without a reply.
pub open spec fn lowest(results: Seq<ResultModel>) -> Option<u64>
    decreases results.len(),
{
    if results.len() == 0 {
        None
    } else {
        let before = lowest(results.drop_last());
        match results.last() {
            ResultModel::Reply(ns) => match before {
                Some(p) if p <= ns => Some(p),
                _ => Some(ns),
            },
            _ => before,
        }
    }
}

/// The latest results of the snapshots.
pub open spec fn currents(snaps: Seq<SnapshotModel>) -> Seq<ResultModel> {
    snaps.map_values(|s: SnapshotModel| s.current)
}

/// The best of the results: the fastest reply; without one, pending if any is,
/// or else timeout if any is, or else an error.
pub open spec fn best_result(results: Seq<ResultModel>) -> ResultModel {
    match lowest(results) {
        Some(ns) => ResultModel::Reply(ns),
        None => if results.len() == 0 || results.contains(ResultModel::Pending) {
            ResultModel::Pending
        } else if results.contains(ResultModel::Timeout) {
            ResultModel::Timeout
        } else {
            ResultModel::Error("all targets failed"@)
        },
    }
}

/// Best-of-N across snapshots' current results. If any target is Ok, return
/// the minimum-latency Ok. Otherwise return Pending if any is Pending, else
/// Timeout/Error.
pub fn aggregate_best(snaps: &[HostSnapshot]) -> (r: PingResult)
    ensures
        r@ == best_result(currents(snapshots_model(snaps@))),
{
    let ghost all = currents(snapshots_model(snaps@));
    if snaps.len() == 0 {
        return PingResult::Pending;
    }
    let mut best: Option<u64> = None;
    let mut pending = false;
    let mut timeout = false;
    let mut i: usize = 0;
    while i < snaps.len()
        invariant
            i <= snaps@.len(),
            all == currents(snapshots_model(snaps@)),
            best == lowest(all.take(i as int)),
            pending ==> all.contains(ResultModel::Pending),
            timeout ==> all.contains(ResultModel::Timeout),
            !pending ==> forall|j: int| 0 <= j < i ==> !(#[trigger] all[j] is Pending),
            !timeout ==> forall|j: int| 0 <= j < i ==> !(#[trigger] all[j] is Timeout),
        decreases snaps.len() - i,
    {
        assert(all.take(i as int + 1).drop_last() =~= all.take(i as int));
        assert(all[i as int] == snaps@[i as int]@.current);
        match &snaps[i].current {
            PingResult::Reply(ns) => {
                best = Some(
                    match best {
                        Some(p) => if p <= *ns {
                            p
                        } else {
                            *ns
                        },
                        None => *ns,
                    },
                );
            },
            PingResult::Timeout => {
                assert(all[i as int] == ResultModel::Timeout);
                timeout = true;
            },
            PingResult::Error(_) => {},
            PingResult::Pending => {
                assert(all[i as int] == ResultModel::Pending);
                pending = true;
            },
        }
        i += 1;
    }
    assert(all.take(all.len() as int) =~= all);
    if let Some(ns) = best {
        return PingResult::Reply(ns);
    }
    if pending {
        return PingResult::Pending;
    }
    if timeout {
        return PingResult::Timeout;
    }
    PingResult::Error("all targets failed".to_string())
}

/// The aggregate is a reply exactly when some target replied, and no target
/// was faster.
pub proof fn law_aggregate_is_the_fastest(results: Seq<ResultModel>)
    ensures
        best_result(results) is Reply <==> exists|i: int|
            0 <= i < results.len() && #[trigger] results[i] is Reply,
        forall|i: int|
            0 <= i < results.len() && #[trigger] results[i] is Reply ==> best_result(
                results,
            )->Reply_0 <= results[i]->Reply_0,
        best_result(results) is Reply ==> results.contains(best_result(results)),
{
    lemma_lowest(results);
}

proof fn lemma_lowest(results: Seq<ResultModel>)
    ensures
        lowest(results) is Some ==> results.contains(ResultModel::Reply(lowest(results)->0)),
        forall|i: int|
            0 <= i < results.len() && #[trigger] results[i] is Reply ==> lowest(results) is Some
                && lowest(results)->0 <= results[i]->Reply_0,
    decreases results.len(),
{
    if results.len() > 0 {
        let before = results.drop_last();
        lemma_lowest(before);
        assert forall|i: int|
            0 <= i < results.len() && #[trigger] results[i] is Reply implies lowest(results) is Some
            && lowest(results)->0 <= results[i]->Reply_0 by {
            if i < before.len() {
                assert(before[i] == results[i]);
            }
        }
        if lowest(results) is Some {
            if lowest(results) == lowest(before) {
                let i = choose|i: int|
                    0 <= i < before.len() && before[i] == ResultModel::Reply(lowest(before)->0);
                assert(results[i] == before[i]);
            } else {
                assert(results[results.len() - 1] == results.last());
            }
        }
    }
}

/// Where the public IPv4 address is asked for. The name has only an A record.
pub const PUBLIC_V4_URL: &'static str = "https://api.ipify.org";

/// Where the public IPv6 address is asked for. The name has only an AAAA
/// record.
pub const PUBLIC_V6_URL: &'static str = "https://api6.ipify.org";

/// The longest answer, in bytes, that is taken for an address.
pub const PUBLIC_IP_MAX: usize = 64;

/// The public address that an answer gives; `None` if the answer is empty or
/// too long to be one.
pub fn public_ip(body: &str) -> (r: Option<String>)
    ensures
        text_of(r) == {
            let t = trimmed(body@);
            if t.len() == 0 || encode_utf8(t).len() > PUBLIC_IP_MAX {
                None
            } else {
                Some(t)
            }
        },
{
    let chars = chars_of(body);
    let t = string_of(trim(chars.as_slice()));
    if t.as_str().is_empty() || t.as_str().as_bytes().len() > PUBLIC_IP_MAX {
        None
    } else {
        Some(t)
    }
}

/// Whether two optional strings have the same text.
fn same_text(a: &Option<String>, b: &Option<String>) -> (r: bool)
    ensures
        r == (text_of(*a) == text_of(*b)),
{
    match (a, b) {
        (Some(x), Some(y)) => *x == *y,
        (None, None) => true,
        _ => false,
    }
}

/// Whether the local network is another one: an address, the router or the VPN
/// changed.
pub open spec fn is_other_network(prev: NetModel, new: NetModel) -> bool {
    ||| prev.local_v4 != new.local_v4
    ||| prev.local_v6 != new.local_v6
    ||| prev.router_v4 != new.router_v4
    ||| prev.router_v6 != new.router_v6
    ||| prev.vpn_interface != new.vpn_interface
}

/// How many rows of each kind the menu has.
#[derive(Clone, Copy, Debug, PartialEq, Eq, Structural)]
pub struct RowCounts {
    pub targets: usize,
    pub dns: usize,
    pub ips: usize,
}

/// The number of name server rows: one even if no server is known.
pub open spec fn dns_rows(info: NetModel) -> int {
    if info.dns_ips.len() == 0 {
        1
    } else {
        info.dns_ips.len() as int
    }
}

/// Whether the menu needs other rows than it has.
pub open spec fn is_other_structure(
    rows: RowCounts,
    prev: NetModel,
    new: NetModel,
    target_count: int,
    entries: Seq<EntryModel>,
) -> bool {
    ||| rows.ips != entries.len()
    ||| rows.dns != dns_rows(new)
    ||| rows.targets != target_count
    ||| router_probe(prev) is Some != router_probe(new) is Some
    ||| prev.vpn_interface is Some != new.vpn_interface is Some
}

/// What one tick of the user interface asks for.
#[derive(Debug)]
pub struct Tick {
    /// The hosts to probe from now on.
    pub hosts: Vec<Probe>,
    /// Whether the menu is to be built anew.
    pub rebuild: bool,
}

/// Whether the public address is to be asked for again: whenever the local
/// network state changes (the first look at it counts).
pub fn network_changed(prev: &NetInfo, new: &NetInfo) -> (r: bool)
    ensures
        r == is_other_network(prev@, new@),
{
    !same_text(&prev.local_v4, &new.local_v4) || !same_text(&prev.local_v6, &new.local_v6)
        || !same_text(&prev.router_v4, &new.router_v4) || !same_text(
        &prev.router_v6,
        &new.router_v6,
    ) || !same_text(&prev.vpn_interface, &new.vpn_interface)
}

/// One UI tick: which hosts to probe, and whether the menu is to be rebuilt —
/// if its structure changed, and only while it is closed.
pub fn tick(
    prev: &NetInfo,
    new: &NetInfo,
    public: &(Option<String>, Option<String>),
    targets: &[PingTarget],
    rows: &RowCounts,
    menu_open: bool,
) -> (r: Tick)
    ensures
        probes_model(r.hosts@) == probes_for(hosts_of(targets@), new@),
        r.rebuild == (!menu_open && is_other_structure(
            *rows,
            prev@,
            new@,
            targets@.len() as int,
            entries_model(new@, text_of(public.0), text_of(public.1)),
        )),
{
    let entries = ip_entries(new, public);
    let want_dns: usize = if new.dns_ips.len() == 0 {
        1
    } else {
        new.dns_ips.len()
    };
    let changed = rows.ips != entries.len() || rows.dns != want_dns || rows.targets
        != targets.len() || pick_router_probe(prev).is_some() != pick_router_probe(new).is_some()
        || prev.vpn_interface.is_some() != new.vpn_interface.is_some();
    Tick { hosts: host_list(targets, new), rebuild: changed && !menu_open }
}

/// An item of the menu; rows of one kind are counted from 0.
#[derive(Clone, Copy, Debug, PartialEq, Eq, Structural)]
pub enum MenuEntry {
    Internet,
    Router,
    Separator,
    Target(usize),
    Dns(usize),
    Vpn,
    Ip(usize),
    Settings,
    Quit,
}

/// The target rows.
pub open spec fn target_items(n: nat) -> Seq<MenuEntry> {
    Seq::new(n, |i: int| MenuEntry::Target(i as usize))
}

/// The name server rows.
pub open spec fn dns_items(n: nat) -> Seq<MenuEntry> {
    Seq::new(n, |i: int| MenuEntry::Dns(i as usize))
}

/// The address rows.
pub open spec fn ip_items(n: nat) -> Seq<MenuEntry> {
    Seq::new(n, |i: int| MenuEntry::Ip(i as usize))
}

/// The menu from top to bottom: connectivity, targets, name servers, network
/// (the VPN only while it is up), settings, quit.
pub open spec fn menu_items(target_count: nat, dns_count: nat, vpn: bool, ip_count: nat) -> Seq<
    MenuEntry,
> {
    seq![MenuEntry::Internet, MenuEntry::Router, MenuEntry::Separator] + target_items(target_count)
        + seq![MenuEntry::Separator] + dns_items(dns_count) + seq![MenuEntry::Separator] + if vpn {
        seq![MenuEntry::Vpn]
    } else {
        Seq::<MenuEntry>::empty()
    } + ip_items(ip_count) + seq![
        MenuEntry::Separator,
        MenuEntry::Settings,
        MenuEntry::Separator,
        MenuEntry::Quit,
    ]
}

/// The items of the menu, and how many rows of each kind there are.
pub fn rebuild_menu_structure(
    targets: &[PingTarget],
    info: &NetInfo,
    public: &(Option<String>, Option<String>),
) -> (r: (Vec<MenuEntry>, RowCounts))
    ensures
        r.1.targets == targets@.len(),
        r.1.dns == dns_rows(info@),
        r.1.ips == entries_model(info@, text_of(public.0), text_of(public.1)).len(),
        r.0@ == menu_items(
            r.1.targets as nat,
            r.1.dns as nat,
            info.vpn_interface is Some,
            r.1.ips as nat,
        ),
{
    let entries = ip_entries(info, public);
    let counts = RowCounts {
        targets: targets.len(),
        dns: if info.dns_ips.len() == 0 {
            1
        } else {
            info.dns_ips.len()
        },
        ips: entries.len(),
    };
    let mut items: Vec<MenuEntry> = Vec::new();
    items.push(MenuEntry::Internet);
    items.push(MenuEntry::Router);
    items.push(MenuEntry::Separator);
    let ghost head = items@;
    assert(head =~= seq![MenuEntry::Internet, MenuEntry::Router, MenuEntry::Separator]);
    let mut i: usize = 0;
    while i < counts.targets
        invariant
            i <= counts.targets,
            items@ =~= head + target_items(i as nat),
        decreases counts.targets - i,
    {
        items.push(MenuEntry::Target(i));
        i += 1;
    }
    items.push(MenuEntry::Separator);
    let ghost head = items@;
    let mut i: usize = 0;
    while i < counts.dns
        invariant
            i <= counts.dns,
            items@ =~= head + dns_items(i as nat),
        decreases counts.dns - i,
    {
        items.push(MenuEntry::Dns(i));
        i += 1;
    }
    items.push(MenuEntry::Separator);
    if info.vpn_interface.is_some() {
        items.push(MenuEntry::Vpn);
    }
    let ghost head = items@;
    let mut i: usize = 0;
    while i < counts.ips
        invariant
            i <= counts.ips,
            items@ =~= head + ip_items(i as nat),
        decreases counts.ips - i,
    {
        items.push(MenuEntry::Ip(i));
        i += 1;
    }
    items.push(MenuEntry::Separator);
    items.push(MenuEntry::Settings);
    items.push(MenuEntry::Separator);
    items.push(MenuEntry::Quit);
    assert(items@ =~= menu_items(
        counts.targets as nat,
        counts.dns as nat,
        info.vpn_interface is Some,
        counts.ips as nat,
    ));
    (items, counts)
}

/// A menu that was just built is left alone: with the same network, targets
/// and addresses, the next tick asks for no other.
pub proof fn law_a_built_menu_stays(
    rows: RowCounts,
    info: NetModel,
    target_count: int,
    entries: Seq<EntryModel>,
)
    requires
        rows.targets == target_count,
        rows.dns == dns_rows(info),
        rows.ips == entries.len(),
    ensures
        !is_other_structure(rows, info, info, target_count, entries),
        !is_other_network(info, info),
{
}

/// How often the probes run and the menu is refreshed, in nanoseconds: fast
/// while the menu is open, slow otherwise.
#[derive(Clone, Copy, Debug, PartialEq, Eq, Structural)]
pub struct Cadence {
    pub slow_ns: i64,
    pub fast_ns: i64,
    pub menu_open: bool,
}

impl Cadence {
    /// The interval that holds now.
    pub open spec fn now(self) -> i64 {
        if self.menu_open {
            self.fast_ns
        } else {
            self.slow_ns
        }
    }

    /// The menu starts out closed.
    pub fn new(prefs: &AppPrefs) -> (r: Self)
        ensures
            r.slow_ns == prefs.slow_ns,
            r.fast_ns == prefs.fast_ns,
            !r.menu_open,
    {
        Cadence { slow_ns: prefs.slow_ns, fast_ns: prefs.fast_ns, menu_open: false }
    }

    /// The interval that holds now.
    pub fn interval(&self) -> (r: i64)
        ensures
            r == self.now(),
    {
        if self.menu_open {
            self.fast_ns
        } else {
            self.slow_ns
        }
    }

    /// The menu opens; the interval from now on.
    pub fn menu_will_open(&mut self) -> (r: i64)
        ensures
            *final(self) == (Cadence { menu_open: true, ..*old(self) }),
            r == final(self).now(),
    {
        self.menu_open = true;
        self.interval()
    }

    /// The menu has closed; the interval from now on.
    pub fn menu_did_close(&mut self) -> (r: i64)
        ensures
            *final(self) == (Cadence { menu_open: false, ..*old(self) }),
            r == final(self).now(),
    {
        self.menu_open = false;
        self.interval()
    }

    /// Other preferences hold; the interval from now on.
    pub fn apply_prefs(&mut self, prefs: &AppPrefs) -> (r: i64)
        ensures
            *final(self) == (Cadence {
                slow_ns: prefs.slow_ns,
                fast_ns: prefs.fast_ns,
                ..*old(self)
            }),
            r == final(self).now(),
    {
        self.slow_ns = prefs.slow_ns;
        self.fast_ns = prefs.fast_ns;
        self.interval()
    }
}

/// The router is probed over IPv6 by echo where it has such an address; else
/// over IPv4 by TCP, unless the address is one of the block 192.0.0.0/29, which
/// is no real host. Without an address it is not probed.
pub proof fn law_the_router_is_probed_over_ipv6_first(info: NetModel)
    ensures
        info.router_v6 is Some ==> router_probe(info) == Some(
            ProbeModel { host: info.router_v6->0, kind: ProbeKind::Echo },
        ),
        info.router_v6 is None && info.router_v4 is Some && !in_clat_block(info.router_v4->0)
            ==> router_probe(info) == Some(
            ProbeModel { host: info.router_v4->0, kind: ProbeKind::Tcp },
        ),
        info.router_v6 is None && info.router_v4 is Some && in_clat_block(info.router_v4->0)
            ==> router_probe(info) is None,
        info.router_v6 is None && info.router_v4 is None ==> router_probe(info) is None,
{
}

/// Every target and every name server is probed by echo, in order, the targets
/// first and the name servers last; between them stands the router, if it is
/// probed. Nothing else is probed.
pub proof fn law_every_host_is_probed_in_its_place(
    targets: Seq<Seq<char>>,
    info: NetModel,
    i: int,
)
    ensures
        ({
            let probes = probes_for(targets, info);
            let from = targets.len() as int + if router_probe(info) is Some {
                1int
            } else {
                0int
            };
            &&& probes.len() == from + info.dns_ips.len()
            &&& 0 <= i < targets.len() ==> probes[i].host == targets[i] && probes[i].kind
                == ProbeKind::Echo
            &&& router_probe(info) is Some ==> probes[targets.len() as int] == router_probe(info)->0
            &&& 0 <= i < info.dns_ips.len() ==> probes[from + i].host == info.dns_ips[i]
                && probes[from + i].kind == ProbeKind::Echo
        }),
{
}

/// An address is listed exactly where it is known: the local ones, then the
/// router's, its IPv6 address without a zone id, then the public ones. A row
/// stands there if either of its addresses is known.
pub proof fn law_known_addresses_are_listed_in_order(
    info: NetModel,
    public_v4: Option<Seq<char>>,
    public_v6: Option<Seq<char>>,
)
    ensures
        ({
            let rows = entries_model(info, public_v4, public_v6);
            let local: int = if info.local_v4 is Some || info.local_v6 is Some {
                1
            } else {
                0
            };
            let router: int = if info.router_v4 is Some || info.router_v6 is Some {
                1
            } else {
                0
            };
            let public: int = if public_v4 is Some || public_v6 is Some {
                1
            } else {
                0
            };
            &&& rows.len() == local + router + public
            &&& local == 1 ==> rows[0].label == "Local"@ && rows[0].v4 == info.local_v4
                && rows[0].v6 == info.local_v6
            &&& router == 1 ==> rows[local].label == "Router"@ && rows[local].v4 == info.router_v4
            &&& router == 1 && info.router_v6 is None ==> rows[local].v6 is None
            &&& router == 1 && info.router_v6 is Some ==> rows[local].v6 == Some(
                without_zone(info.router_v6->0),
            )
            &&& public == 1 ==> rows[local + router].label == "Public"@ && rows[local + router].v4
                == public_v4 && rows[local + router].v6 == public_v6
        }),
{
}

/// Without a reply the aggregate is pending if a result is, or if there is none
/// at all; otherwise timed out if one did; otherwise it says that all failed.
pub proof fn law_aggregate_without_a_reply(results: Seq<ResultModel>, i: int)
    requires
        forall|j: int| 0 <= j < results.len() ==> !(#[trigger] results[j] is Reply),
    ensures
        results.len() == 0 ==> best_result(results) is Pending,
        0 <= i < results.len() && results[i] is Pending ==> best_result(results) is Pending,
        (forall|j: int| 0 <= j < results.len() ==> !(#[trigger] results[j] is Pending)) && 0 <= i
            < results.len() && results[i] is Timeout ==> best_result(results) is Timeout,
        results.len() > 0 && (forall|j: int|
            0 <= j < results.len() ==> #[trigger] results[j] is Error) ==> best_result(results)
            == ResultModel::Error("all targets failed"@),
{
    lemma_lowest(results);
    if lowest(results) is Some {
        let k = choose|k: int|
            0 <= k < results.len() && results[k] == ResultModel::Reply(lowest(results)->0);
        assert(results[k] is Reply);
    }
    if 0 <= i < results.len() {
        assert(results.contains(results[i]));
    }
}

/// The results of the snapshots are the current ones, each in its place.
pub proof fn law_the_current_results_count(snaps: Seq<SnapshotModel>, i: int)
    ensures
        currents(snaps).len() == snaps.len(),
        0 <= i < snaps.len() ==> currents(snaps)[i] == snaps[i].current,
{
}

/// The network is the same exactly when no address of this machine or of the
/// router and no VPN changed; the name servers do not count.
pub proof fn law_the_network_is_its_addresses(prev: NetModel, new: NetModel)
    ensures
        !is_other_network(prev, new) <==> prev.local_v4 == new.local_v4 && prev.local_v6
            == new.local_v6 && prev.router_v4 == new.router_v4 && prev.router_v6 == new.router_v6
            && prev.vpn_interface == new.vpn_interface,
        is_other_network(prev, new) == is_other_network(new, prev),
{
}

/// The menu keeps its structure exactly when it has a row for each address, one
/// for each name server or a single one where there is none, and one for each
/// target, and neither the router nor the VPN came or went.
pub proof fn law_the_structure_is_its_rows(
    rows: RowCounts,
    prev: NetModel,
    new: NetModel,
    target_count: int,
    entries: Seq<EntryModel>,
)
    ensures
        !is_other_structure(rows, prev, new, target_count, entries) <==> rows.ips == entries.len()
            && (rows.dns == new.dns_ips.len() || (new.dns_ips.len() == 0 && rows.dns == 1)) && (
        rows.dns > 0) && rows.targets == target_count && (router_probe(prev) is Some) == (
        router_probe(new) is Some) && (prev.vpn_interface is Some) == (new.vpn_interface is Some),
        dns_rows(new) >= 1,
        new.dns_ips.len() > 0 ==> dns_rows(new) == new.dns_ips.len(),
        new.dns_ips.len() == 0 ==> dns_rows(new) == 1,
{
}

/// The menu shows, from top to bottom: the internet, the router; all targets;
/// all name servers; the VPN while it is up, and all addresses; the settings;
/// and how to quit. A separator stands before each part but the first.
pub proof fn law_the_menu_has_every_row_in_order(t: nat, d: nat, vpn: bool, a: nat, i: int)
    requires
        t <= usize::MAX,
        d <= usize::MAX,
        a <= usize::MAX,
    ensures
        ({
            let m = menu_items(t, d, vpn, a);
            let v: int = if vpn {
                1
            } else {
                0
            };
            &&& m.len() == t + d + v + a + 9
            &&& m[0] is Internet && m[1] is Router && m[2] is Separator
            &&& 0 <= i < t ==> m[3 + i] is Target && m[3 + i]->Target_0 == i
            &&& m[3 + t as int] is Separator
            &&& 0 <= i < d ==> m[4 + t + i] is Dns && m[4 + t + i]->Dns_0 == i
            &&& m[4 + t as int + d] is Separator
            &&& vpn ==> m[5 + t as int + d] is Vpn
            &&& 0 <= i < a ==> m[5 + t + d + v + i] is Ip && m[5 + t + d + v + i]->Ip_0 == i
            &&& m[5 + t + d + v + a] is Separator && m[6 + t + d + v + a] is Settings
            &&& m[7 + t + d + v + a] is Separator && m[8 + t + d + v + a] is Quit
        }),
{
}

/// Rows of addresses are told in full; so are optional probes.
pub proof fn law_entries_are_told_in_full(entries: Seq<IpEntry>, p: Probe, i: int)
    ensures
        entries_of(entries).len() == entries.len(),
        0 <= i < entries.len() ==> entries_of(entries)[i].label == entries[i].label@ && entries_of(
            entries,
        )[i].v4 == text_of(entries[i].v4) && entries_of(entries)[i].v6 == text_of(entries[i].v6),
        probe_of(None) is None,
        probe_of(Some(p)) == Some(ProbeModel { host: p.host@, kind: p.kind }),
{
}

/// While the menu is open the fast interval holds, otherwise the slow one.
pub proof fn law_the_open_menu_is_fast(c: Cadence)
    ensures
        c.menu_open ==> c.now() == c.fast_ns,
        !c.menu_open ==> c.now() == c.slow_ns,
{
}

/// The public addresses are asked of a host that has only an IPv4 address, and
/// of one that has only an IPv6 address.
pub proof fn law_the_public_addresses_are_asked_apart()
    ensures
        PUBLIC_V4_URL@ == "https://api.ipify.org"@,
        PUBLIC_V6_URL@ == "https://api6.ipify.org"@,
        PUBLIC_IP_MAX == 64,
{
}

} // verus!
