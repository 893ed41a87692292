//! What the system's tools say of the network: the default route, the local
//! address and the name servers. The tools themselves are run elsewhere.

use vstd::prelude::*;
use vstd::utf8::{decode_utf8, valid_utf8};
use crate::text::{
    chars_of, contains_text, copy_text, copy_texts, find, first_at, has_prefix, lines, lines_of,
    string_of, strip_prefix, text_of, texts_of, trim, trimmed,
};

verus! {

/// What is known of the network.
#[derive(Debug)]
pub struct NetInfo {
    pub local_v4: Option<String>,
    pub local_v6: Option<String>,
    pub router_v4: Option<String>,
    /// May carry a zone id, as in "fe80::1%en0".
    pub router_v6: Option<String>,
    pub vpn_interface: Option<String>,
    pub dns_ips: Vec<String>,
}

/// The value of a `NetInfo`.
pub struct NetModel {
    pub local_v4: Option<Seq<char>>,
    pub local_v6: Option<Seq<char>>,
    pub router_v4: Option<Seq<char>>,
    pub router_v6: Option<Seq<char>>,
    pub vpn_interface: Option<Seq<char>>,
    pub dns_ips: Seq<Seq<char>>,
}

impl View for NetInfo {
    type V = NetModel;

    open spec fn view(&self) -> NetModel {
        NetModel {
            local_v4: text_of(self.local_v4),
            local_v6: text_of(self.local_v6),
            router_v4: text_of(self.router_v4),
            router_v6: text_of(self.router_v6),
            vpn_interface: text_of(self.vpn_interface),
            dns_ips: texts_of(self.dns_ips@),
        }
    }
}

/// Nothing is known of the network.
pub open spec fn nothing_known() -> NetModel {
    NetModel {
        local_v4: None,
        local_v6: None,
        router_v4: None,
        router_v6: None,
        vpn_interface: None,
        dns_ips: Seq::empty(),
    }
}

impl Default for NetInfo {
    fn default() -> (r: Self)
        ensures
            r@ == nothing_known(),
    {
        let r = NetInfo {
            local_v4: None,
            local_v6: None,
            router_v4: None,
            router_v6: None,
            vpn_interface: None,
            dns_ips: Vec::new(),
        };
        assert(texts_of(r.dns_ips@) =~= Seq::<Seq<char>>::empty());
        r
    }
}

impl Clone for NetInfo {
    fn clone(&self) -> (r: Self)
        ensures
            r@ == self@,
    {
        NetInfo {
            local_v4: copy_text(&self.local_v4),
            local_v6: copy_text(&self.local_v6),
            router_v4: copy_text(&self.router_v4),
            router_v6: copy_text(&self.router_v6),
            vpn_interface: copy_text(&self.vpn_interface),
            dns_ips: copy_texts(&self.dns_ips),
        }
    }
}

/// What a tool left behind: whether it succeeded, and what it printed.
#[derive(Debug)]
pub struct CommandOutput {
    pub success: bool,
    pub stdout: Vec<u8>,
}

/// What `String::from_utf8_lossy` reads out of `bytes`.
pub uninterp spec fn lossy_text(bytes: Seq<u8>) -> Seq<char>;

/// `String::from_utf8_lossy`: the text of `bytes`. Of valid UTF-8 it is what
/// the bytes encode; of other bytes nothing is said but that the same bytes
/// give the same text.
#[verifier::external_body]
fn utf8_lossy(bytes: &[u8]) -> (r: String)
    ensures
        r@ == lossy_text(bytes@),
        valid_utf8(bytes@) ==> r@ == decode_utf8(bytes@),
{
    String::from_utf8_lossy(bytes).into_owned()
}

/// What a tool printed; `None` if it did not run or did not succeed.
pub open spec fn printed(output: Option<CommandOutput>) -> Option<Seq<char>> {
    match output {
        Some(o) if o.success => Some(lossy_text(o.stdout@)),
        _ => None,
    }
}

/// Valid UTF-8 was read as what it encodes.
pub open spec fn read_as_encoded(output: Option<CommandOutput>) -> bool {
    match output {
        Some(o) => o.success && valid_utf8(o.stdout@) ==> lossy_text(o.stdout@) == decode_utf8(
            o.stdout@,
        ),
        None => true,
    }
}

/// What a tool printed.
fn printed_text(output: &Option<CommandOutput>) -> (r: Option<String>)
    ensures
        text_of(r) == printed(*output),
        read_as_encoded(*output),
{
    match output {
        Some(o) => if o.success {
            Some(utf8_lossy(o.stdout.as_slice()))
        } else {
            None
        },
        None => None,
    }
}

/// The value that the last line beginning with `key` gives.
pub open spec fn last_field(lines: Seq<Seq<char>>, key: Seq<char>) -> Option<Seq<char>>
    decreases lines.len(),
{
    if lines.len() == 0 {
        None
    } else {
        let line = trimmed(lines.last());
        if has_prefix(line, key) {
            Some(trimmed(line.skip(key.len() as int)))
        } else {
            last_field(lines.drop_last(), key)
        }
    }
}

/// The interface and the gateway of the default route, as `route -n get
/// default` prints them.
pub fn parse_default_route(text: &str) -> (r: (Option<String>, Option<String>))
    ensures
        text_of(r.0) == last_field(lines_of(text@), "interface:"@),
        text_of(r.1) == last_field(lines_of(text@), "gateway:"@),
{
    let chars = chars_of(text);
    let all = lines(chars.as_slice());
    let ghost model = lines_of(text@);
    let mut gateway: Option<String> = None;
    let mut interface: Option<String> = None;
    let mut i: usize = 0;
    while i < all.len()
        invariant
            i <= all@.len() == model.len(),
            forall|j: int| 0 <= j < model.len() ==> (#[trigger] all@[j])@ == model[j],
            text_of(interface) == last_field(model.take(i as int), "interface:"@),
            text_of(gateway) == last_field(model.take(i as int), "gateway:"@),
        decreases all.len() - i,
    {
        assert(model.take(i as int + 1).drop_last() =~= model.take(i as int));
        assert(model.take(i as int + 1).last() == all@[i as int]@);
        let line = trim(all[i]);
        proof {
            reveal_strlit("gateway:");
            reveal_strlit("interface:");
            if has_prefix(line@, "gateway:"@) && has_prefix(line@, "interface:"@) {
                assert(line@.take(8)[0] == 'g');
                assert(line@.take(10)[0] == 'i');
            }
        }
        if let Some(rest) = strip_prefix(line, "gateway:") {
            gateway = Some(string_of(trim(rest)));
        } else if let Some(rest) = strip_prefix(line, "interface:") {
            interface = Some(string_of(trim(rest)));
        }
        i += 1;
    }
    assert(model.take(model.len() as int) =~= model);
    (interface, gateway)
}

/// The interface and the gateway of the default route; neither if the tool
/// failed.
pub fn default_route(output: &Option<CommandOutput>) -> (r: (Option<String>, Option<String>))
    ensures
        match printed(*output) {
            Some(text) => {
                &&& text_of(r.0) == last_field(lines_of(text), "interface:"@)
                &&& text_of(r.1) == last_field(lines_of(text), "gateway:"@)
            },
            None => r.0 is None && r.1 is None,
        },
        read_as_encoded(*output),
{
    match printed_text(output) {
        Some(text) => parse_default_route(text.as_str()),
        None => (None, None),
    }
}

/// The text without white space at its ends; `None` if nothing is left.
pub open spec fn trimmed_or_none(text: Seq<char>) -> Option<Seq<char>> {
    if trimmed(text).len() == 0 {
        None
    } else {
        Some(trimmed(text))
    }
}

/// The address that `ipconfig getifaddr` prints.
pub fn parse_local_ip(text: &str) -> (r: Option<String>)
    ensures
        text_of(r) == trimmed_or_none(text@),
{
    let chars = chars_of(text);
    let ip = trim(chars.as_slice());
    if ip.len() == 0 {
        None
    } else {
        Some(string_of(ip))
    }
}

/// The local address; `None` if the tool failed or printed nothing.
pub fn local_ip_for(output: &Option<CommandOutput>) -> (r: Option<String>)
    ensures
        text_of(r) == match printed(*output) {
            Some(text) => trimmed_or_none(text),
            None => None,
        },
        read_as_encoded(*output),
{
    match printed_text(output) {
        Some(text) => parse_local_ip(text.as_str()),
        None => None,
    }
}

/// Whether a line opens the section of a resolver.
pub open spec fn is_header(line: Seq<char>) -> bool {
    has_prefix(trimmed(line), "resolver #"@)
}

/// Whether the text up to here ends inside the section of the first resolver.
pub open spec fn in_primary(lines: Seq<Seq<char>>) -> bool
    decreases lines.len(),
{
    if lines.len() == 0 {
        false
    } else if is_header(lines.last()) {
        trimmed(trimmed(lines.last()).skip("resolver #"@.len() as int)) == "1"@
    } else {
        in_primary(lines.drop_last())
    }
}

/// The name server that a line names: what follows the colon behind
/// "nameserver[".
pub open spec fn server_of(line: Seq<char>) -> Option<Seq<char>> {
    let l = trimmed(line);
    let rest = l.skip("nameserver["@.len() as int);
    let colon = first_at(rest, ':');
    if has_prefix(l, "nameserver["@) && colon < rest.len() {
        trimmed_or_none(rest.skip(colon + 1))
    } else {
        None
    }
}

/// The name servers of the first resolver, in order, each once.
pub open spec fn servers_of(lines: Seq<Seq<char>>) -> Seq<Seq<char>>
    decreases lines.len(),
{
    if lines.len() == 0 {
        Seq::empty()
    } else {
        let line = lines.last();
        let before = servers_of(lines.drop_last());
        match server_of(line) {
            Some(ip) if !is_header(line) && in_primary(lines.drop_last()) && !before.contains(
                ip,
            ) => before.push(ip),
            _ => before,
        }
    }
}

/// The name servers that `scutil --dns` prints.
pub fn parse_dns_servers(text: &str) -> (r: Vec<String>)
    ensures
        texts_of(r@) == servers_of(lines_of(text@)),
{
    let chars = chars_of(text);
    let all = lines(chars.as_slice());
    let ghost model = lines_of(text@);
    let first = "1".to_string();
    let mut servers: Vec<String> = Vec::new();
    let mut in_primary_resolver = false;
    let mut i: usize = 0;
    assert(texts_of(servers@) =~= servers_of(model.take(0)));
    while i < all.len()
        invariant
            i <= all@.len() == model.len(),
            first@ == "1"@,
            forall|j: int| 0 <= j < model.len() ==> (#[trigger] all@[j])@ == model[j],
            in_primary_resolver == in_primary(model.take(i as int)),
            texts_of(servers@) == servers_of(model.take(i as int)),
        decreases all.len() - i,
    {
        assert(model.take(i as int + 1).drop_last() =~= model.take(i as int));
        assert(model.take(i as int + 1).last() == all@[i as int]@);
        let line = trim(all[i]);
        if let Some(rest) = strip_prefix(line, "resolver #") {
            let number = string_of(trim(rest));
            in_primary_resolver = number == first;
        } else if in_primary_resolver {
            if let Some(rest) = strip_prefix(line, "nameserver[") {
                let colon = find(rest, ':');
                if colon < rest.len() {
                    let ip = string_of(trim(&rest[colon + 1..rest.len()]));
                    assert(rest@.subrange(colon as int + 1, rest@.len() as int) =~= rest@.skip(
                        colon as int + 1,
                    ));
                    if !ip.as_str().is_empty() && !contains_text(&servers, &ip) {
                        let ghost before = servers@;
                        servers.push(ip);
                        assert(texts_of(servers@) =~= texts_of(before).push(ip@));
                    }
                }
            }
        }
        i += 1;
    }
    assert(model.take(model.len() as int) =~= model);
    servers
}

/// The name servers; none if the tool failed.
pub fn dns_servers(output: &Option<CommandOutput>) -> (r: Vec<String>)
    ensures
        texts_of(r@) == match printed(*output) {
            Some(text) => servers_of(lines_of(text)),
            None => Seq::<Seq<char>>::empty(),
        },
        read_as_encoded(*output),
{
    match printed_text(output) {
        Some(text) => parse_dns_servers(text.as_str()),
        None => {
            let r: Vec<String> = Vec::new();
            assert(texts_of(r@) =~= Seq::<Seq<char>>::empty());
            r
        },
    }
}

/// The network as the printed texts tell it.
pub open spec fn collected(
    route: Option<Seq<char>>,
    ifaddr: Option<Seq<char>>,
    dns: Option<Seq<char>>,
) -> NetModel {
    NetModel {
        // Without an interface there is no local address to ask for.
        local_v4: match (route, ifaddr) {
            (Some(r), Some(a)) if last_field(lines_of(r), "interface:"@) is Some => {
                trimmed_or_none(a)
            },
            _ => None,
        },
        router_v4: match route {
            Some(r) => last_field(lines_of(r), "gateway:"@),
            None => None,
        },
        dns_ips: match dns {
            Some(d) => servers_of(lines_of(d)),
            None => Seq::empty(),
        },
        ..nothing_known()
    }
}

/// Put together what the tools printed: `route -n get default`, then
/// `ipconfig getifaddr` for its interface, and `scutil --dns`.
pub fn collect(
    route: &Option<CommandOutput>,
    ifaddr: &Option<CommandOutput>,
    dns: &Option<CommandOutput>,
) -> (r: NetInfo)
    ensures
        r@ == collected(printed(*route), printed(*ifaddr), printed(*dns)),
        read_as_encoded(*route),
        last_field(lines_of(printed(*route)->0), "interface:"@) is Some && printed(*route) is Some
            ==> read_as_encoded(*ifaddr),
        read_as_encoded(*dns),
{
    let (interface, router_v4) = default_route(route);
    let local_v4 = match interface {
        Some(_) => local_ip_for(ifaddr),
        None => None,
    };
    NetInfo {
        local_v4,
        local_v6: None,
        router_v4,
        router_v6: None,
        vpn_interface: None,
        dns_ips: dns_servers(dns),
    }
}

/// No name server is named twice, and none is empty or has white space at its
/// ends.
pub proof fn law_servers_are_distinct(lines: Seq<Seq<char>>)
    ensures
        servers_of(lines).no_duplicates(),
        forall|i: int|
            0 <= i < servers_of(lines).len() ==> (#[trigger] servers_of(lines)[i]).len() > 0
                && trimmed(servers_of(lines)[i]) == servers_of(lines)[i],
    decreases lines.len(),
{
    if lines.len() > 0 {
        law_servers_are_distinct(lines.drop_last());
        let l = trimmed(lines.last());
        let rest = l.skip("nameserver["@.len() as int);
        crate::text::law_trimmed_has_bare_ends(rest.skip(first_at(rest, ':') + 1));
    }
}

/// Text outside the section of the first resolver names no server: without its
/// header there is none.
pub proof fn law_only_the_first_resolver_counts(lines: Seq<Seq<char>>)
    requires
        forall|i: int| 0 <= i < lines.len() ==> !in_primary(#[trigger] lines.take(i)),
    ensures
        servers_of(lines) == Seq::<Seq<char>>::empty(),
    decreases lines.len(),
{
    if lines.len() > 0 {
        let before = lines.drop_last();
        assert forall|i: int| 0 <= i < before.len() implies !in_primary(
            #[trigger] before.take(i),
        ) by {
            assert(before.take(i) =~= lines.take(i));
        }
        law_only_the_first_resolver_counts(before);
        assert(lines.take(lines.len() - 1) =~= before);
    }
}

/// Every line counts, wherever it stands: of the lines that, trimmed, begin with
/// the key, the last gives the field, which is what follows the key, trimmed.
/// There is no field only where no line begins with the key.
pub proof fn law_the_last_line_with_the_key_gives_the_field(
    lines: Seq<Seq<char>>,
    key: Seq<char>,
    i: int,
)
    ensures
        0 <= i < lines.len() && has_prefix(trimmed(lines[i]), key) && (forall|j: int|
            i < j < lines.len() ==> !has_prefix(trimmed(#[trigger] lines[j]), key)) ==> last_field(
            lines,
            key,
        ) == Some(trimmed(trimmed(lines[i]).skip(key.len() as int))),
        last_field(lines, key) is None <==> forall|j: int|
            0 <= j < lines.len() ==> !has_prefix(trimmed(#[trigger] lines[j]), key),
    decreases lines.len(),
{
    if lines.len() > 0 {
        let before = lines.drop_last();
        law_the_last_line_with_the_key_gives_the_field(before, key, i);
        assert(lines.last() == lines[lines.len() - 1]);
        assert(forall|j: int| 0 <= j < before.len() ==> #[trigger] before[j] == lines[j]);
        if last_field(lines, key) is None {
            assert forall|j: int| 0 <= j < lines.len() implies !has_prefix(
                trimmed(#[trigger] lines[j]),
                key,
            ) by {
                if j < before.len() {
                    assert(!has_prefix(trimmed(before[j]), key));
                }
            }
        }
        if last_field(before, key) is Some && !has_prefix(trimmed(lines.last()), key) {
            let j = choose|j: int|
                0 <= j < before.len() && has_prefix(trimmed(#[trigger] before[j]), key);
            assert(has_prefix(trimmed(lines[j]), key));
        }
    }
}

/// The section of the first resolver is entered at a header that names number 1
/// and left at the next header. Before the first header there is no section.
pub proof fn law_the_last_header_names_the_section(lines: Seq<Seq<char>>, i: int)
    ensures
        0 <= i < lines.len() && has_prefix(trimmed(lines[i]), "resolver #"@) && (forall|j: int|
            i < j < lines.len() ==> !has_prefix(trimmed(#[trigger] lines[j]), "resolver #"@)) ==> (
        in_primary(lines) <==> trimmed(trimmed(lines[i]).skip(10)) == seq!['1']),
        (forall|j: int|
            0 <= j < lines.len() ==> !has_prefix(trimmed(#[trigger] lines[j]), "resolver #"@))
            ==> !in_primary(lines),
    decreases lines.len(),
{
    reveal_strlit("resolver #");
    reveal_strlit("1");
    assert("1"@ =~= seq!['1']);
    if lines.len() > 0 {
        let before = lines.drop_last();
        law_the_last_header_names_the_section(before, i);
        assert(lines.last() == lines[lines.len() - 1]);
        assert(forall|j: int| 0 <= j < before.len() ==> #[trigger] before[j] == lines[j]);
    }
}

/// A line names a server by what follows the first colon behind "nameserver[",
/// trimmed, unless that is empty. A line without that word or without a colon
/// names none.
pub proof fn law_a_server_follows_the_colon(line: Seq<char>, index: Seq<char>, value: Seq<char>)
    requires
        !index.contains(':'),
    ensures
        trimmed(line) == "nameserver["@ + (index.push(':') + value) ==> server_of(line) == if trimmed(
            value,
        ).len() == 0 {
            None
        } else {
            Some(trimmed(value))
        },
        trimmed(line) == "nameserver["@ + index ==> server_of(line) is None,
        !has_prefix(trimmed(line), "nameserver["@) ==> server_of(line) is None,
{
    let word = "nameserver["@;
    assert forall|i: int| 0 <= i < index.len() implies index[i] != ':' by {
        if index[i] == ':' {
            assert(index.contains(':'));
        }
    }
    let rest = index.push(':') + value;
    crate::text::law_the_first_occurrence_is_found(index, ':', value);
    crate::text::law_a_prefix_is_followed_by_the_rest(word, word, rest);
    crate::text::law_a_prefix_is_followed_by_the_rest(word, word, index);
    assert(rest.skip(index.len() as int + 1) =~= value);
}

/// The servers are those that some line of the first resolver's section names,
/// each once. Further lines add servers behind those from before.
pub proof fn law_servers_are_those_of_the_section(
    lines: Seq<Seq<char>>,
    more: Seq<Seq<char>>,
    ip: Seq<char>,
)
    ensures
        servers_of(lines).contains(ip) <==> exists|i: int|
            0 <= i < lines.len() && server_of(#[trigger] lines[i]) == Some(ip) && !has_prefix(
                trimmed(lines[i]),
                "resolver #"@,
            ) && in_primary(lines.take(i)),
        servers_of(lines).no_duplicates(),
        servers_of(lines).len() <= servers_of(lines + more).len(),
        servers_of(lines + more).take(servers_of(lines).len() as int) == servers_of(lines),
    decreases lines.len() + more.len(), more.len(),
{
    law_servers_are_distinct(lines);
    if more.len() > 0 {
        law_servers_are_those_of_the_section(lines, more.drop_last(), ip);
        assert((lines + more).drop_last() =~= lines + more.drop_last());
        let n = servers_of(lines).len() as int;
        let s = servers_of(lines + more.drop_last());
        let t = servers_of(lines + more);
        assert(t.take(n) =~= s.take(n));
    } else {
        assert(lines + more =~= lines);
        assert(servers_of(lines).take(servers_of(lines).len() as int) =~= servers_of(lines));
        if lines.len() > 0 {
            let before = lines.drop_last();
            let last = lines.len() - 1;
            law_servers_are_those_of_the_section(before, more, ip);
            assert(lines.last() == lines[last]);
            assert(lines.take(last) =~= before);
            assert forall|i: int| 0 <= i < last implies #[trigger] lines[i] == before[i]
                && lines.take(i) == before.take(i) by {
                assert(lines.take(i) =~= before.take(i));
            }
            let old_servers = servers_of(before);
            let servers = servers_of(lines);
            if servers.contains(ip) && !old_servers.contains(ip) {
                let k = choose|k: int| 0 <= k < servers.len() && servers[k] == ip;
                if k < old_servers.len() {
                    assert(old_servers[k] == ip);
                }
                assert(server_of(lines[last]) == Some(ip));
            }
            if old_servers.contains(ip) {
                let k = choose|k: int| 0 <= k < old_servers.len() && old_servers[k] == ip;
                assert(servers[k] == ip);
                let i = choose|i: int|
                    0 <= i < before.len() && server_of(#[trigger] before[i]) == Some(ip)
                        && !has_prefix(trimmed(before[i]), "resolver #"@) && in_primary(
                        before.take(i),
                    );
                assert(server_of(lines[i]) == Some(ip));
            }
            if exists|i: int|
                0 <= i < lines.len() && server_of(#[trigger] lines[i]) == Some(ip) && !has_prefix(
                    trimmed(lines[i]),
                    "resolver #"@,
                ) && in_primary(lines.take(i)) {
                let i = choose|i: int|
                    0 <= i < lines.len() && server_of(#[trigger] lines[i]) == Some(ip)
                        && !has_prefix(trimmed(lines[i]), "resolver #"@) && in_primary(
                        lines.take(i),
                    );
                if i < last {
                    assert(server_of(before[i]) == Some(ip));
                } else if !old_servers.contains(ip) {
                    assert(servers[servers.len() - 1] == ip);
                }
            }
        }
    }
}

/// A tool's text is taken exactly when the tool ran and succeeded.
pub proof fn law_only_a_tool_that_succeeded_tells(output: CommandOutput)
    ensures
        printed(None) is None,
        output.success ==> printed(Some(output)) == Some(lossy_text(output.stdout@)),
        !output.success ==> printed(Some(output)) is None,
{
}

/// Each part of the network is told by its own tool: the router by the route,
/// the local address by the interface's address where the route names an
/// interface, the name servers by the resolvers. What a silent tool would tell
/// is unknown, and so is what no tool tells.
pub proof fn law_each_tool_tells_its_part(
    route: Seq<char>,
    ifaddr: Seq<char>,
    dns: Seq<char>,
    a: Option<Seq<char>>,
    b: Option<Seq<char>>,
)
    ensures
        collected(Some(route), a, b).router_v4 == last_field(lines_of(route), "gateway:"@),
        collected(None, a, b).router_v4 is None,
        collected(None, a, b).local_v4 is None,
        collected(a, None, b).local_v4 is None,
        collected(Some(route), Some(ifaddr), b).local_v4 is Some <==> last_field(
            lines_of(route),
            "interface:"@,
        ) is Some && trimmed(ifaddr).len() > 0,
        collected(Some(route), Some(ifaddr), b).local_v4 is Some ==> collected(
            Some(route),
            Some(ifaddr),
            b,
        ).local_v4 == Some(trimmed(ifaddr)),
        collected(a, b, Some(dns)).dns_ips == servers_of(lines_of(dns)),
        collected(a, b, None).dns_ips.len() == 0,
        collected(a, b, a).local_v6 is None && collected(a, b, a).router_v6 is None,
        collected(a, b, a).vpn_interface is None,
        trimmed_or_none(ifaddr) == if trimmed(ifaddr).len() > 0 {
            Some(trimmed(ifaddr))
        } else {
            None
        },
{
}

/// What is known of the network is told in full.
pub proof fn law_the_network_is_told_in_full(info: NetInfo, i: int)
    ensures
        info@.local_v4 == text_of(info.local_v4),
        info@.local_v6 == text_of(info.local_v6),
        info@.router_v4 == text_of(info.router_v4),
        info@.router_v6 == text_of(info.router_v6),
        info@.vpn_interface == text_of(info.vpn_interface),
        info@.dns_ips.len() == info.dns_ips@.len(),
        0 <= i < info.dns_ips@.len() ==> info@.dns_ips[i] == info.dns_ips@[i]@,
        nothing_known().local_v4 is None && nothing_known().local_v6 is None,
        nothing_known().router_v4 is None && nothing_known().router_v6 is None,
        nothing_known().vpn_interface is None && nothing_known().dns_ips.len() == 0,
{
}

} // verus!
