//! Network interfaces: which are hardware, and which one traffic leaves by.

use vstd::prelude::*;

use crate::text::{
    after_first, all_blank, begins_with, chars_of, first_lines_are_cut_off, is_text, is_word,
    lemma_trim_keeps_prefix, lemma_trim_solid, lemma_words, lines, lines_of_two_parts, nth_word,
    occurs, opt_string_view, opt_view, parts_words, spaced, split_line, string_of, trim, trimmed,
    trimming_again_changes_nothing, views, words, words_read_back,
};

verus! {

/// The interfaces that have a device behind them: those for which the path
/// that `device_path` gives exists.
pub struct Devices {
    names: Vec<String>,
}

impl View for Devices {
    type V = Set<Seq<char>>;

    closed spec fn view(&self) -> Set<Seq<char>> {
        views(self.names@).to_set()
    }
}

impl Devices {
    /// No device at all.
    pub fn new() -> (r: Self)
        ensures
            r@ == Set::<Seq<char>>::empty(),
    {
        let r = Devices { names: Vec::new() };
        assert(views(r.names@) =~= Seq::<Seq<char>>::empty());
        assert(r@ =~= Set::<Seq<char>>::empty());
        r
    }

    /// Adds the interface `name`.
    pub fn insert(&mut self, name: String)
        ensures
            final(self)@ == old(self)@.insert(name@),
    {
        let ghost before = views(self.names@);
        self.names.push(name);
        proof {
            let after = views(self.names@);
            assert(after =~= before.push(name@));
            assert forall|n: Seq<char>| #[trigger]
                after.to_set().contains(n) == before.to_set().insert(name@).contains(n) by {
                if before.contains(n) {
                    let i = choose|i: int| 0 <= i < before.len() && before[i] == n;
                    assert(after[i] == n);
                }
                assert(after[after.len() - 1] == name@);
            }
            assert(after.to_set() =~= before.to_set().insert(name@));
        }
    }

    /// Whether the interface `name` has a device.
    pub fn contains(&self, name: &[char]) -> (r: bool)
        ensures
            r == self@.contains(name@),
    {
        let ghost all = views(self.names@);
        let mut i: usize = 0;
        while i < self.names.len()
            invariant
                i <= self.names@.len(),
                all == views(self.names@),
                forall|k: int| 0 <= k < i ==> #[trigger] all[k] != name@,
            decreases self.names@.len() - i,
        {
            if is_text(name, self.names[i].as_str()) {
                assert(all[i as int] == name@);
                assert(all.contains(name@));
                return true;
            }
            i = i + 1;
        }
        assert(!all.contains(name@));
        false
    }
}

/// A directory entry below `/sys/class/net`, with what its `operstate` file
/// holds, if that could be read.
pub struct NetEntry {
    pub name: String,
    pub operstate: Option<String>,
}

/// Whether the name is that of an interface without hardware of its own.
pub open spec fn virtual_name(n: Seq<char>) -> bool {
    ||| "lo"@.is_prefix_of(n)
    ||| "br-"@.is_prefix_of(n)
    ||| "docker"@.is_prefix_of(n)
    ||| "veth"@.is_prefix_of(n)
    ||| "virbr"@.is_prefix_of(n)
    ||| "tun"@.is_prefix_of(n)
    ||| "tap"@.is_prefix_of(n)
    ||| "wg"@.is_prefix_of(n)
    ||| "Cloudflare"@.is_prefix_of(n)
    ||| "warp"@.is_prefix_of(n)
}

/// Whether the name is one that wired and wireless hardware gets.
pub open spec fn hardware_name(n: Seq<char>) -> bool {
    ||| "en"@.is_prefix_of(n)
    ||| "wl"@.is_prefix_of(n)
    ||| "eth"@.is_prefix_of(n)
    ||| "wlan"@.is_prefix_of(n)
}

/// Whether the interface is hardware: its name is not that of a virtual one,
/// and it has a device or a name that hardware gets.
pub open spec fn physical(name: Seq<char>, devices: Set<Seq<char>>) -> bool {
    let n = trim(name);
    !virtual_name(n) && (devices.contains(n) || hardware_name(n))
}

/// Whether an interface that is not hardware may still be used for want of a
/// better one.
pub open spec fn usable(name: Seq<char>) -> bool {
    &&& !"lo"@.is_prefix_of(name)
    &&& !"docker"@.is_prefix_of(name)
    &&& !"br-"@.is_prefix_of(name)
}

/// The interface of a routing table line, if it is the line of a default
/// route: at least four fields, the second of which is the zero destination.
pub open spec fn route_interface(line: Seq<char>) -> Option<Seq<char>> {
    let fields = words(line);
    if fields.len() >= 4 && fields[1] == "00000000"@ {
        Some(fields[0])
    } else {
        None
    }
}

/// The interfaces of the default routes among these lines, in order.
pub open spec fn route_interfaces(ls: Seq<Seq<char>>) -> Seq<Seq<char>>
    decreases ls.len(),
{
    if ls.len() == 0 {
        Seq::empty()
    } else {
        match route_interface(ls[0]) {
            Some(n) => seq![n] + route_interfaces(ls.drop_first()),
            None => route_interfaces(ls.drop_first()),
        }
    }
}

/// The interfaces of the default routes of a routing table, whose first line
/// is a heading.
pub open spec fn default_routes(route: Option<Seq<char>>) -> Seq<Seq<char>> {
    match route {
        Some(text) => route_interfaces(after_first(lines(text))),
        None => Seq::empty(),
    }
}

/// Whether the entry's interface is up.
pub open spec fn is_up(entry: NetEntry) -> bool {
    match entry.operstate {
        Some(state) => trim(state@) == "up"@,
        None => false,
    }
}

/// The interfaces that are up, in order.
pub open spec fn up_interfaces(entries: Seq<NetEntry>) -> Seq<Seq<char>>
    decreases entries.len(),
{
    if entries.len() == 0 {
        Seq::empty()
    } else if is_up(entries[0]) {
        seq![entries[0].name@] + up_interfaces(entries.drop_first())
    } else {
        up_interfaces(entries.drop_first())
    }
}

/// The first of these interfaces that is hardware.
pub open spec fn first_physical(names: Seq<Seq<char>>, devices: Set<Seq<char>>) -> Option<Seq<char>>
    decreases names.len(),
{
    if names.len() == 0 {
        None
    } else if physical(names[0], devices) {
        Some(names[0])
    } else {
        first_physical(names.drop_first(), devices)
    }
}

/// The first of these interfaces that is usable.
pub open spec fn first_usable(names: Seq<Seq<char>>) -> Option<Seq<char>>
    decreases names.len(),
{
    if names.len() == 0 {
        None
    } else if usable(names[0]) {
        Some(names[0])
    } else {
        first_usable(names.drop_first())
    }
}

/// The interface that traffic leaves by: the first hardware interface with a
/// default route, else the first usable one with a default route, else the
/// first hardware interface that is up.
pub open spec fn default_interface(
    route: Option<Seq<char>>,
    entries: Seq<NetEntry>,
    devices: Set<Seq<char>>,
) -> Option<Seq<char>> {
    let routes = default_routes(route);
    match first_physical(routes, devices) {
        Some(n) => Some(n),
        None => match first_usable(routes) {
            Some(n) => Some(n),
            None => first_physical(up_interfaces(entries), devices),
        },
    }
}

/// The names, without the blanks around them, for which it matters whether
/// they have a device.
pub open spec fn probes(names: Seq<Seq<char>>) -> Seq<Seq<char>>
    decreases names.len(),
{
    if names.len() == 0 {
        Seq::empty()
    } else if virtual_name(trim(names[0])) {
        probes(names.drop_first())
    } else {
        seq![trim(names[0])] + probes(names.drop_first())
    }
}

proof fn lemma_same_physical(names: Seq<Seq<char>>, a: Set<Seq<char>>, b: Set<Seq<char>>)
    requires
        forall|n: Seq<char>| #[trigger]
            probes(names).contains(n) ==> (a.contains(n) <==> b.contains(n)),
    ensures
        first_physical(names, a) == first_physical(names, b),
    decreases names.len(),
{
    if names.len() > 0 {
        let rest = names.drop_first();
        let n = trim(names[0]);
        if !virtual_name(n) {
            assert(probes(names)[0] == n);
            assert(probes(names).contains(n));
        }
        assert forall|m: Seq<char>| #[trigger] probes(rest).contains(m) implies (a.contains(m)
            <==> b.contains(m)) by {
            let i = choose|i: int| 0 <= i < probes(rest).len() && probes(rest)[i] == m;
            if virtual_name(n) {
                assert(probes(names)[i] == m);
            } else {
                assert(probes(names)[i + 1] == m);
            }
            assert(probes(names).contains(m));
        }
        lemma_same_physical(rest, a, b);
    }
}

/// Devices are looked for under exactly the names, without the blanks around
/// them, that are not those of virtual interfaces.
pub proof fn all_but_virtual_names_are_probed(names: Seq<Seq<char>>, name: Seq<char>)
    ensures
        probes(names).contains(name) <==> !virtual_name(name) && exists|i: int|
            0 <= i < names.len() && trim(#[trigger] names[i]) == name,
    decreases names.len(),
{
    if names.len() > 0 {
        let rest = names.drop_first();
        let first = trim(names[0]);
        all_but_virtual_names_are_probed(rest, name);
        if probes(names).contains(name) {
            let i = choose|i: int| 0 <= i < probes(names).len() && probes(names)[i] == name;
            if virtual_name(first) {
                assert(probes(rest)[i] == name);
            } else if i > 0 {
                assert(probes(rest)[i - 1] == name);
            } else {
                assert(trim(names[0]) == name);
            }
            if probes(rest).contains(name) {
                let k = choose|k: int| 0 <= k < rest.len() && trim(#[trigger] rest[k]) == name;
                assert(trim(names[k + 1]) == name);
            }
        }
        if !virtual_name(name) && exists|i: int|
            0 <= i < names.len() && trim(#[trigger] names[i]) == name {
            let i = choose|i: int| 0 <= i < names.len() && trim(#[trigger] names[i]) == name;
            if i == 0 {
                assert(probes(names)[0] == name);
            } else {
                assert(trim(rest[i - 1]) == name);
                let k = choose|k: int| 0 <= k < probes(rest).len() && probes(rest)[k] == name;
                if virtual_name(first) {
                    assert(probes(names)[k] == name);
                } else {
                    assert(probes(names)[k + 1] == name);
                }
            }
        }
    }
}

/// Looking for the devices of the names that `default_interface_probes` lists
/// is enough: whatever is said of others, the same interface comes out.
pub proof fn probed_names_decide(
    route: Option<Seq<char>>,
    entries: Seq<NetEntry>,
    a: Set<Seq<char>>,
    b: Set<Seq<char>>,
)
    requires
        forall|n: Seq<char>| #[trigger]
            probes(default_routes(route)).contains(n) ==> (a.contains(n) <==> b.contains(n)),
        forall|n: Seq<char>| #[trigger]
            probes(up_interfaces(entries)).contains(n) ==> (a.contains(n) <==> b.contains(n)),
    ensures
        default_interface(route, entries, a) == default_interface(route, entries, b),
{
    lemma_same_physical(default_routes(route), a, b);
    lemma_same_physical(up_interfaces(entries), a, b);
}

proof fn lemma_route_interfaces_solid(ls: Seq<Seq<char>>)
    ensures
        forall|k: int|
            0 <= k < route_interfaces(ls).len() ==> trim(#[trigger] route_interfaces(ls)[k])
                == route_interfaces(ls)[k],
    decreases ls.len(),
{
    if ls.len() > 0 {
        lemma_route_interfaces_solid(ls.drop_first());
        let rest = route_interfaces(ls.drop_first());
        assert forall|k: int| 0 <= k < route_interfaces(ls).len() implies trim(
            #[trigger] route_interfaces(ls)[k],
        ) == route_interfaces(ls)[k] by {
            match route_interface(ls[0]) {
                Some(n) => {
                    if k == 0 {
                        lemma_words(ls[0]);
                        assert(n == words(ls[0])[0]);
                        lemma_trim_solid(n);
                    } else {
                        assert(route_interfaces(ls)[k] == rest[k - 1]);
                    }
                },
                None => {
                    assert(route_interfaces(ls)[k] == rest[k]);
                },
            }
        }
    }
}

proof fn lemma_first_physical(names: Seq<Seq<char>>, devices: Set<Seq<char>>)
    ensures
        match first_physical(names, devices) {
            Some(n) => names.contains(n) && physical(n, devices),
            None => forall|n: Seq<char>| #[trigger] names.contains(n) ==> !physical(n, devices),
        },
    decreases names.len(),
{
    if names.len() > 0 {
        let rest = names.drop_first();
        lemma_first_physical(rest, devices);
        assert(names.contains(names[0]));
        assert forall|n: Seq<char>| #[trigger] names.contains(n) implies n == names[0]
            || rest.contains(n) by {
            let i = choose|i: int| 0 <= i < names.len() && names[i] == n;
            if i > 0 {
                assert(rest[i - 1] == n);
            }
        }
        if let Some(n) = first_physical(rest, devices) {
            let i = choose|i: int| 0 <= i < rest.len() && rest[i] == n;
            assert(names[i + 1] == rest[i]);
            assert(names.contains(rest[i]));
        }
    }
}

proof fn lemma_first_usable(names: Seq<Seq<char>>)
    ensures
        match first_usable(names) {
            Some(n) => names.contains(n) && usable(n),
            None => forall|n: Seq<char>| #[trigger] names.contains(n) ==> !usable(n),
        },
    decreases names.len(),
{
    if names.len() > 0 {
        let rest = names.drop_first();
        lemma_first_usable(rest);
        assert(names.contains(names[0]));
        assert forall|n: Seq<char>| #[trigger] names.contains(n) implies n == names[0]
            || rest.contains(n) by {
            let i = choose|i: int| 0 <= i < names.len() && names[i] == n;
            if i > 0 {
                assert(rest[i - 1] == n);
            }
        }
        if let Some(n) = first_usable(rest) {
            let i = choose|i: int| 0 <= i < rest.len() && rest[i] == n;
            assert(names[i + 1] == rest[i]);
            assert(names.contains(rest[i]));
        }
    }
}

/// A name is usable if it is without the blanks around it.
proof fn lemma_usable_trimmed(name: Seq<char>)
    requires
        usable(trim(name)),
    ensures
        usable(name),
{
    reveal_strlit("lo");
    reveal_strlit("docker");
    reveal_strlit("br-");
    if "lo"@.is_prefix_of(name) {
        lemma_trim_keeps_prefix(name, "lo"@);
    }
    if "docker"@.is_prefix_of(name) {
        lemma_trim_keeps_prefix(name, "docker"@);
    }
    if "br-"@.is_prefix_of(name) {
        lemma_trim_keeps_prefix(name, "br-"@);
    }
}

/// The interface that comes out has a default route or is up, and it is never
/// the loopback interface, a container bridge or another bridge, with or
/// without the blanks around its name.
pub proof fn default_interface_is_usable(
    route: Option<Seq<char>>,
    entries: Seq<NetEntry>,
    devices: Set<Seq<char>>,
)
    ensures
        match default_interface(route, entries, devices) {
            Some(n) => {
                &&& usable(n)
                &&& usable(trim(n))
                &&& default_routes(route).contains(n) || up_interfaces(entries).contains(n)
            },
            None => true,
        },
{
    let routes = default_routes(route);
    lemma_first_physical(routes, devices);
    lemma_first_usable(routes);
    lemma_first_physical(up_interfaces(entries), devices);
    if first_physical(routes, devices) is None {
        if let Some(n) = first_usable(routes) {
            if let Some(text) = route {
                lemma_route_interfaces_solid(after_first(lines(text)));
            }
            let i = choose|i: int| 0 <= i < routes.len() && routes[i] == n;
            assert(trim(routes[i]) == routes[i]);
        }
    }
    if let Some(n) = default_interface(route, entries, devices) {
        lemma_usable_trimmed(n);
    }
}

/// Hardware comes first: where a default route leads over a hardware
/// interface, the interface that comes out is hardware and has such a route;
/// and where none does but some default route is usable, a usable one comes
/// out.
pub proof fn hardware_routes_come_first(
    route: Option<Seq<char>>,
    entries: Seq<NetEntry>,
    devices: Set<Seq<char>>,
    name: Seq<char>,
)
    requires
        default_routes(route).contains(name),
    ensures
        physical(name, devices) ==> match default_interface(route, entries, devices) {
            Some(n) => default_routes(route).contains(n) && physical(n, devices),
            None => false,
        },
        usable(name) ==> match default_interface(route, entries, devices) {
            Some(n) => default_routes(route).contains(n),
            None => false,
        },
{
    lemma_first_physical(default_routes(route), devices);
    lemma_first_usable(default_routes(route));
}

/// Interfaces whose names begin like those of the loopback interface, bridges,
/// containers, virtual machines and tunnels are never hardware, whatever
/// follows and whatever devices there are.
pub proof fn virtual_names_are_never_hardware(rest: Seq<char>, devices: Set<Seq<char>>)
    ensures
        !physical("lo"@ + rest, devices),
        !physical("br-"@ + rest, devices),
        !physical("docker"@ + rest, devices),
        !physical("veth"@ + rest, devices),
        !physical("virbr"@ + rest, devices),
        !physical("tun"@ + rest, devices),
        !physical("tap"@ + rest, devices),
        !physical("wg"@ + rest, devices),
        !physical("Cloudflare"@ + rest, devices),
        !physical("warp"@ + rest, devices),
{
    reveal_strlit("lo");
    reveal_strlit("br-");
    reveal_strlit("docker");
    reveal_strlit("veth");
    reveal_strlit("virbr");
    reveal_strlit("tun");
    reveal_strlit("tap");
    reveal_strlit("wg");
    reveal_strlit("Cloudflare");
    reveal_strlit("warp");
    lemma_virtual("lo"@, rest, devices);
    lemma_virtual("br-"@, rest, devices);
    lemma_virtual("docker"@, rest, devices);
    lemma_virtual("veth"@, rest, devices);
    lemma_virtual("virbr"@, rest, devices);
    lemma_virtual("tun"@, rest, devices);
    lemma_virtual("tap"@, rest, devices);
    lemma_virtual("wg"@, rest, devices);
    lemma_virtual("Cloudflare"@, rest, devices);
    lemma_virtual("warp"@, rest, devices);
}

proof fn lemma_virtual(prefix: Seq<char>, rest: Seq<char>, devices: Set<Seq<char>>)
    requires
        is_word(prefix),
        forall|n: Seq<char>| prefix.is_prefix_of(n) ==> #[trigger] virtual_name(n),
    ensures
        !physical(prefix + rest, devices),
{
    let name = prefix + rest;
    assert(prefix =~= name.subrange(0, prefix.len() as int));
    lemma_trim_keeps_prefix(name, prefix);
    assert(virtual_name(trim(name)));
}

/// Any other interface is hardware if it has a device or a name like those of
/// wired and wireless hardware, and only then.
pub proof fn devices_and_names_make_hardware(name: Seq<char>, devices: Set<Seq<char>>)
    requires
        !"lo"@.is_prefix_of(trim(name)),
        !"br-"@.is_prefix_of(trim(name)),
        !"docker"@.is_prefix_of(trim(name)),
        !"veth"@.is_prefix_of(trim(name)),
        !"virbr"@.is_prefix_of(trim(name)),
        !"tun"@.is_prefix_of(trim(name)),
        !"tap"@.is_prefix_of(trim(name)),
        !"wg"@.is_prefix_of(trim(name)),
        !"Cloudflare"@.is_prefix_of(trim(name)),
        !"warp"@.is_prefix_of(trim(name)),
    ensures
        devices.contains(trim(name)) ==> physical(name, devices),
        "en"@.is_prefix_of(trim(name)) ==> physical(name, devices),
        "wl"@.is_prefix_of(trim(name)) ==> physical(name, devices),
        "eth"@.is_prefix_of(trim(name)) ==> physical(name, devices),
        physical(name, devices) ==> devices.contains(trim(name)) || "en"@.is_prefix_of(trim(name))
            || "wl"@.is_prefix_of(trim(name)) || "eth"@.is_prefix_of(trim(name)),
{
    reveal_strlit("wl");
    reveal_strlit("wlan");
    let n = trim(name);
    if "wlan"@.is_prefix_of(n) {
        assert(n.subrange(0, 4)[0] == n[0] && n.subrange(0, 4)[1] == n[1]);
        assert("wl"@ =~= n.subrange(0, 2));
    }
}

/// Names that begin like those of the loopback interface, containers and
/// bridges are not usable; all others are.
pub proof fn usable_names_are_all_others(name: Seq<char>, rest: Seq<char>)
    ensures
        !usable("lo"@ + rest),
        !usable("docker"@ + rest),
        !usable("br-"@ + rest),
        usable(name) || "lo"@.is_prefix_of(name) || "docker"@.is_prefix_of(name)
            || "br-"@.is_prefix_of(name),
{
    assert("lo"@ =~= ("lo"@ + rest).subrange(0, "lo"@.len() as int));
    assert("docker"@ =~= ("docker"@ + rest).subrange(0, "docker"@.len() as int));
    assert("br-"@ =~= ("br-"@ + rest).subrange(0, "br-"@.len() as int));
}

/// The first choice comes out: the first hardware interface with a default
/// route; where there is none, the first usable interface with a default route;
/// where there is none either, the first hardware interface that is up; and
/// where there is not even that, none.
pub proof fn first_choices_come_out(
    route: Option<Seq<char>>,
    entries: Seq<NetEntry>,
    devices: Set<Seq<char>>,
    i: int,
)
    ensures
        ({
            let routes = default_routes(route);
            let up = up_interfaces(entries);
            let r = default_interface(route, entries, devices);
            let no_hardware = forall|k: int|
                0 <= k < routes.len() ==> !physical(#[trigger] routes[k], devices);
            let no_usable = forall|k: int| 0 <= k < routes.len() ==> !usable(#[trigger] routes[k]);
            &&& 0 <= i < routes.len() && physical(routes[i], devices) && (forall|k: int|
                0 <= k < i ==> !physical(#[trigger] routes[k], devices)) ==> r == Some(routes[i])
            &&& no_hardware && 0 <= i < routes.len() && usable(routes[i]) && (forall|k: int|
                0 <= k < i ==> !usable(#[trigger] routes[k])) ==> r == Some(routes[i])
            &&& no_hardware && no_usable && 0 <= i < up.len() && physical(up[i], devices) && (
            forall|k: int| 0 <= k < i ==> !physical(#[trigger] up[k], devices)) ==> r == Some(up[i])
            &&& no_hardware && no_usable && (forall|k: int|
                0 <= k < up.len() ==> !physical(#[trigger] up[k], devices)) ==> r is None
        }),
{
    let routes = default_routes(route);
    let up = up_interfaces(entries);
    lemma_first_physical(routes, devices);
    lemma_first_usable(routes);
    lemma_first_physical(up, devices);
    if 0 <= i < routes.len() && physical(routes[i], devices) && forall|k: int|
        0 <= k < i ==> !physical(#[trigger] routes[k], devices) {
        lemma_first_physical_at(routes, devices, i);
    }
    if 0 <= i < routes.len() && usable(routes[i]) && forall|k: int|
        0 <= k < i ==> !usable(#[trigger] routes[k]) {
        lemma_first_usable_at(routes, i);
    }
    if 0 <= i < up.len() && physical(up[i], devices) && forall|k: int|
        0 <= k < i ==> !physical(#[trigger] up[k], devices) {
        lemma_first_physical_at(up, devices, i);
    }
}

proof fn lemma_first_physical_at(names: Seq<Seq<char>>, devices: Set<Seq<char>>, i: int)
    requires
        0 <= i < names.len(),
        physical(names[i], devices),
        forall|k: int| 0 <= k < i ==> !physical(#[trigger] names[k], devices),
    ensures
        first_physical(names, devices) == Some(names[i]),
    decreases names.len(),
{
    if i > 0 {
        let rest = names.drop_first();
        assert(!physical(names[0], devices));
        assert(rest[i - 1] == names[i]);
        assert forall|k: int| 0 <= k < i - 1 implies !physical(#[trigger] rest[k], devices) by {
            assert(rest[k] == names[k + 1]);
        }
        lemma_first_physical_at(rest, devices, i - 1);
    }
}

proof fn lemma_first_usable_at(names: Seq<Seq<char>>, i: int)
    requires
        0 <= i < names.len(),
        usable(names[i]),
        forall|k: int| 0 <= k < i ==> !usable(#[trigger] names[k]),
    ensures
        first_usable(names) == Some(names[i]),
    decreases names.len(),
{
    if i > 0 {
        let rest = names.drop_first();
        assert(!usable(names[0]));
        assert(rest[i - 1] == names[i]);
        assert forall|k: int| 0 <= k < i - 1 implies !usable(#[trigger] rest[k]) by {
            assert(rest[k] == names[k + 1]);
        }
        lemma_first_usable_at(rest, i - 1);
    }
}

/// A line of at least four fields, the second of which is the zero destination,
/// is a default route by the interface in its first field, however many fields
/// follow; no other line is one.
pub proof fn zero_destinations_are_default_routes(
    gaps: Seq<Seq<char>>,
    fields: Seq<Seq<char>>,
    end: Seq<char>,
)
    requires
        parts_words(gaps, fields),
        all_blank(end),
    ensures
        fields.len() >= 4 && fields[1] == "00000000"@ ==> route_interface(
            spaced(gaps, fields) + end,
        ) == Some(fields[0]),
        fields.len() < 4 || fields[1] != "00000000"@ ==> route_interface(
            spaced(gaps, fields) + end,
        ) is None,
{
    words_read_back(gaps, fields, end);
}

/// Every line of a routing table but its first counts, in order: what stands in
/// the first line makes no difference, a table in two parts has the routes of
/// both, and one line behind the first has its own route. Without a table there
/// are none.
pub proof fn every_route_line_counts(
    heading: Seq<char>,
    top: Seq<char>,
    bottom: Seq<char>,
    line: Seq<char>,
)
    requires
        !occurs('\n', heading),
        !occurs('\n', line),
        line.len() > 0,
        top.len() > 0 ==> top.last() == '\n',
    ensures
        default_routes(Some(heading)).len() == 0,
        default_routes(Some(heading + seq!['\n'] + (top + bottom))) == default_routes(
            Some(seq!['\n'] + top),
        ) + default_routes(Some(seq!['\n'] + bottom)),
        default_routes(Some(seq!['\n'] + line)) == match route_interface(line) {
            Some(n) => seq![n],
            None => Seq::empty(),
        },
        default_routes(None).len() == 0,
{
    let none = Seq::<char>::empty();
    lemma_behind_heading(heading, top + bottom);
    lemma_behind_heading(none, top);
    lemma_behind_heading(none, bottom);
    lemma_behind_heading(none, line);
    assert(none + seq!['\n'] + top =~= seq!['\n'] + top);
    assert(none + seq!['\n'] + bottom =~= seq!['\n'] + bottom);
    assert(none + seq!['\n'] + line =~= seq!['\n'] + line);
    lines_of_two_parts(top, bottom);
    lemma_routes_of_both(lines(top), lines(bottom));
    first_lines_are_cut_off(line, none);
    first_lines_are_cut_off(heading, none);
    assert(lines(line).drop_first() =~= Seq::<Seq<char>>::empty());
    assert(route_interfaces(lines(line).drop_first()) =~= Seq::<Seq<char>>::empty());
    if heading.len() > 0 {
        assert(after_first(lines(heading)) =~= Seq::<Seq<char>>::empty());
    }
    if let Some(n) = route_interface(line) {
        assert(seq![n] + Seq::<Seq<char>>::empty() =~= seq![n]);
    }
}

proof fn lemma_behind_heading(heading: Seq<char>, rest: Seq<char>)
    requires
        !occurs('\n', heading),
    ensures
        default_routes(Some(heading + seq!['\n'] + rest)) == route_interfaces(lines(rest)),
{
    let text = heading + seq!['\n'] + rest;
    if heading.len() > 0 && heading.last() == '\r' {
        let h = heading.drop_last();
        assert forall|i: int| 0 <= i < h.len() implies #[trigger] h[i] != '\n' by {
            assert(h[i] == heading[i]);
            assert(!occurs('\n', heading));
        }
        first_lines_are_cut_off(h, rest);
        assert(text =~= h + seq!['\r', '\n'] + rest);
        assert(after_first(lines(text)) =~= lines(rest));
    } else {
        first_lines_are_cut_off(heading, rest);
        assert(after_first(lines(text)) =~= lines(rest));
    }
}

proof fn lemma_routes_of_both(a: Seq<Seq<char>>, b: Seq<Seq<char>>)
    ensures
        route_interfaces(a + b) == route_interfaces(a) + route_interfaces(b),
    decreases a.len(),
{
    if a.len() == 0 {
        assert(a + b =~= b);
        assert(route_interfaces(a) + route_interfaces(b) =~= route_interfaces(b));
    } else {
        let rest = a.drop_first();
        lemma_routes_of_both(rest, b);
        assert((a + b).drop_first() =~= rest + b);
        if let Some(n) = route_interface(a[0]) {
            assert(seq![n] + (route_interfaces(rest) + route_interfaces(b)) =~= (seq![n]
                + route_interfaces(rest)) + route_interfaces(b));
        }
    }
}

/// Every interface whose state is `up`, whatever blanks stand around that, is
/// listed, in order; no other is.
pub proof fn interfaces_that_are_up_are_listed(
    a: Seq<NetEntry>,
    b: Seq<NetEntry>,
    entry: NetEntry,
)
    ensures
        up_interfaces(a + b) == up_interfaces(a) + up_interfaces(b),
        entry.operstate is Some && trim(entry.operstate->0@) == "up"@ ==> up_interfaces(
            seq![entry],
        ) == seq![entry.name@],
        entry.operstate is None || trim(entry.operstate->0@) != "up"@ ==> up_interfaces(
            seq![entry],
        ).len() == 0,
    decreases a.len(),
{
    let one = seq![entry];
    assert(one.drop_first() =~= Seq::<NetEntry>::empty());
    assert(up_interfaces(one.drop_first()) =~= Seq::<Seq<char>>::empty());
    assert(seq![entry.name@] + Seq::<Seq<char>>::empty() =~= seq![entry.name@]);
    if a.len() == 0 {
        assert(a + b =~= b);
        assert(up_interfaces(a) + up_interfaces(b) =~= up_interfaces(b));
    } else {
        let rest = a.drop_first();
        interfaces_that_are_up_are_listed(rest, b, entry);
        assert((a + b).drop_first() =~= rest + b);
        assert(seq![a[0].name@] + (up_interfaces(rest) + up_interfaces(b)) =~= (seq![a[0].name@]
            + up_interfaces(rest)) + up_interfaces(b));
    }
}

/// Blanks around a name do not change whether the interface is hardware.
pub proof fn blanks_do_not_matter(name: Seq<char>, devices: Set<Seq<char>>)
    ensures
        physical(trim(name), devices) == physical(name, devices),
{
    trimming_again_changes_nothing(name);
}

/// Where the device of the interface `name` shows.
pub fn device_path(name: &str) -> (r: String)
    ensures
        r@ == "/sys/class/net/"@ + trim(name@) + "/device"@,
{
    let n = chars_of(name);
    let mut r = String::from_str("/sys/class/net/");
    let t = string_of(trimmed(n.as_slice()));
    r.append(t.as_str());
    r.append("/device");
    r
}

fn has_virtual_name(n: &[char]) -> (r: bool)
    ensures
        r == virtual_name(n@),
{
    begins_with(n, "lo") || begins_with(n, "br-") || begins_with(n, "docker") || begins_with(
        n,
        "veth",
    ) || begins_with(n, "virbr") || begins_with(n, "tun") || begins_with(n, "tap") || begins_with(
        n,
        "wg",
    ) || begins_with(n, "Cloudflare") || begins_with(n, "warp")
}

/// Whether an interface is hardware.
pub fn is_physical(name: &[char], devices: &Devices) -> (r: bool)
    ensures
        r == physical(name@, devices@),
{
    let n = trimmed(name);
    if has_virtual_name(n) {
        return false;
    }
    if devices.contains(n) {
        return true;
    }
    begins_with(n, "en") || begins_with(n, "wl") || begins_with(n, "eth") || begins_with(n, "wlan")
}

/// Whether the interface `name` is hardware.
pub fn is_physical_interface(name: &str, devices: &Devices) -> (r: bool)
    ensures
        r == physical(name@, devices@),
{
    let n = chars_of(name);
    is_physical(n.as_slice(), devices)
}

fn read_default_routes(route: Option<&str>) -> (r: Vec<String>)
    ensures
        views(r@) == default_routes(opt_view(route)),
{
    let mut r: Vec<String> = Vec::new();
    if let Some(content) = route {
        let text = chars_of(content);
        let mut rest = text.as_slice();
        if rest.len() > 0 {
            let (_, below) = split_line(rest);
            rest = below;
            assert(after_first(lines(content@)) =~= lines(rest@));
        } else {
            assert(after_first(lines(content@)) =~= lines(rest@));
        }
        assert(views(r@) =~= Seq::<Seq<char>>::empty());
        assert(views(r@) + route_interfaces(lines(rest@)) =~= route_interfaces(lines(rest@)));
        while rest.len() > 0
            invariant
                views(r@) + route_interfaces(lines(rest@)) == default_routes(opt_view(route)),
            decreases rest@.len(),
        {
            let (line, below) = split_line(rest);
            let ghost before = views(r@);
            assert(lines(rest@)[0] == line@);
            assert(lines(rest@).drop_first() =~= lines(below@));
            if nth_word(line, 3).is_some() {
                if let Some(dest) = nth_word(line, 1) {
                    if is_text(dest, "00000000") {
                        if let Some(iface) = nth_word(line, 0) {
                            r.push(string_of(iface));
                            assert(views(r@) =~= before.push(iface@));
                            assert(views(r@) + route_interfaces(lines(below@)) =~= before + (seq![
                                iface@,
                            ] + route_interfaces(lines(below@))));
                        }
                    }
                }
            }
            rest = below;
        }
        assert(views(r@) + route_interfaces(lines(rest@)) =~= views(r@));
    } else {
        assert(views(r@) =~= Seq::<Seq<char>>::empty());
    }
    r
}

fn read_up_interfaces(entries: &Vec<NetEntry>) -> (r: Vec<String>)
    ensures
        views(r@) == up_interfaces(entries@),
{
    let mut r: Vec<String> = Vec::new();
    let mut i: usize = 0;
    assert(views(r@) + up_interfaces(entries@.skip(0)) =~= up_interfaces(entries@)) by {
        assert(entries@.skip(0) =~= entries@);
    }
    while i < entries.len()
        invariant
            i <= entries@.len(),
            views(r@) + up_interfaces(entries@.skip(i as int)) == up_interfaces(entries@),
        decreases entries@.len() - i,
    {
        let ghost before = views(r@);
        let ghost rest = entries@.skip(i as int);
        assert(rest.drop_first() =~= entries@.skip(i + 1));
        assert(rest[0] == entries@[i as int]);
        let up = match &entries[i].operstate {
            Some(state) => {
                let s = chars_of(state.as_str());
                is_text(trimmed(s.as_slice()), "up")
            },
            None => false,
        };
        if up {
            r.push(entries[i].name.clone());
            assert(views(r@) =~= before.push(entries@[i as int].name@));
            assert(views(r@) + up_interfaces(entries@.skip(i + 1)) =~= before + (seq![
                entries@[i as int].name@,
            ] + up_interfaces(entries@.skip(i + 1))));
        }
        i = i + 1;
    }
    assert(entries@.skip(i as int) =~= Seq::<NetEntry>::empty());
    assert(views(r@) + up_interfaces(entries@.skip(i as int)) =~= views(r@));
    r
}

fn pick_physical(names: &Vec<String>, devices: &Devices) -> (r: Option<String>)
    ensures
        opt_string_view(r) == first_physical(views(names@), devices@),
{
    let ghost all = views(names@);
    let mut i: usize = 0;
    assert(all.skip(0) =~= all);
    while i < names.len()
        invariant
            i <= names@.len(),
            all == views(names@),
            first_physical(all.skip(i as int), devices@) == first_physical(all, devices@),
        decreases names@.len() - i,
    {
        assert(all.skip(i as int).drop_first() =~= all.skip(i + 1));
        assert(all.skip(i as int)[0] == names@[i as int]@);
        if is_physical_interface(names[i].as_str(), devices) {
            return Some(names[i].clone());
        }
        i = i + 1;
    }
    None
}

fn pick_usable(names: &Vec<String>) -> (r: Option<String>)
    ensures
        opt_string_view(r) == first_usable(views(names@)),
{
    let ghost all = views(names@);
    let mut i: usize = 0;
    assert(all.skip(0) =~= all);
    while i < names.len()
        invariant
            i <= names@.len(),
            all == views(names@),
            first_usable(all.skip(i as int)) == first_usable(all),
        decreases names@.len() - i,
    {
        assert(all.skip(i as int).drop_first() =~= all.skip(i + 1));
        assert(all.skip(i as int)[0] == names@[i as int]@);
        let n = chars_of(names[i].as_str());
        let s = n.as_slice();
        if !begins_with(s, "lo") && !begins_with(s, "docker") && !begins_with(s, "br-") {
            return Some(names[i].clone());
        }
        i = i + 1;
    }
    None
}

/// The interface that traffic leaves by. `route` is what `/proc/net/route`
/// holds, if it could be read; `entries` are those of `/sys/class/net`.
pub fn get_default_interface(
    route: Option<&str>,
    entries: &Vec<NetEntry>,
    devices: &Devices,
) -> (r: Option<String>)
    ensures
        opt_string_view(r) == default_interface(opt_view(route), entries@, devices@),
{
    let routes = read_default_routes(route);
    if let Some(n) = pick_physical(&routes, devices) {
        return Some(n);
    }
    if let Some(n) = pick_usable(&routes) {
        return Some(n);
    }
    let up = read_up_interfaces(entries);
    pick_physical(&up, devices)
}

/// The names among these for which a device has to be looked for.
pub fn names_to_probe(names: &Vec<String>) -> (r: Vec<String>)
    ensures
        views(r@) == probes(views(names@)),
{
    let ghost all = views(names@);
    let mut r: Vec<String> = Vec::new();
    let mut i: usize = 0;
    assert(all.skip(0) =~= all);
    assert(views(r@) + probes(all.skip(0)) =~= probes(all));
    while i < names.len()
        invariant
            i <= names@.len(),
            all == views(names@),
            views(r@) + probes(all.skip(i as int)) == probes(all),
        decreases names@.len() - i,
    {
        let ghost before = views(r@);
        assert(all.skip(i as int).drop_first() =~= all.skip(i + 1));
        assert(all.skip(i as int)[0] == names@[i as int]@);
        let n = chars_of(names[i].as_str());
        let t = trimmed(n.as_slice());
        if !has_virtual_name(t) {
            r.push(string_of(t));
            assert(views(r@) =~= before.push(t@));
            assert(views(r@) + probes(all.skip(i + 1)) =~= before + (seq![t@] + probes(
                all.skip(i + 1),
            )));
        }
        i = i + 1;
    }
    assert(views(r@) + probes(all.skip(i as int)) =~= views(r@));
    r
}

/// The names for which a device has to be looked for before
/// `get_default_interface` can be asked.
pub fn default_interface_probes(route: Option<&str>, entries: &Vec<NetEntry>) -> (r: Vec<String>)
    ensures
        views(r@) == probes(default_routes(opt_view(route))) + probes(up_interfaces(entries@)),
{
    let routes = read_default_routes(route);
    let up = read_up_interfaces(entries);
    let mut r = names_to_probe(&routes);
    let mut more = names_to_probe(&up);
    let ghost first = r@;
    let ghost second = more@;
    r.append(&mut more);
    assert(views(r@) =~= views(first) + views(second));
    r
}

} // verus!
