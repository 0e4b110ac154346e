//! The totals that vnStat reports.

use vstd::prelude::*;

use crate::clock::{clock_showed, current_day, is_calendar_day};
use crate::interface::{
    is_physical_interface, names_to_probe, physical, probes, virtual_name, Devices,
};
use crate::net_dev::counted;
use crate::text::{chars_of, is_text, opt_view, trim, views};

verus! {

/// A date in a vnStat report; monthly entries name no day.
#[derive(Clone, Copy, PartialEq, Eq, Debug)]
pub struct VnstatDate {
    pub year: i32,
    pub month: u32,
    pub day: Option<u32>,
}

/// The bytes received and sent on a date.
#[derive(Clone, Copy, PartialEq, Eq, Debug)]
pub struct VnstatTrafficItem {
    pub date: VnstatDate,
    pub rx: u64,
    pub tx: u64,
}

/// The traffic of an interface, by day.
#[derive(Debug)]
pub struct VnstatTrafficContainer {
    pub day: Option<Vec<VnstatTrafficItem>>,
}

/// An interface in a vnStat report.
#[derive(Debug)]
pub struct VnstatInterface {
    pub name: Option<String>,
    pub traffic: Option<VnstatTrafficContainer>,
}

/// A vnStat report.
#[derive(Debug)]
pub struct VnstatJson {
    pub interfaces: Option<Vec<VnstatInterface>>,
}

/// Whether the entry is that of this day.
pub open spec fn is_day(item: VnstatTrafficItem, year: int, month: int, day: int) -> bool {
    item.date.year == year && item.date.month == month && match item.date.day {
        Some(d) => d == day,
        None => false,
    }
}

/// The name of an interface; empty if it has none.
pub open spec fn interface_name(iface: VnstatInterface) -> Seq<char> {
    match iface.name {
        Some(n) => n@,
        None => Seq::empty(),
    }
}

/// The daily entries of an interface.
pub open spec fn daily_items(iface: VnstatInterface) -> Seq<VnstatTrafficItem> {
    match iface.traffic {
        Some(t) => match t.day {
            Some(items) => items@,
            None => Seq::empty(),
        },
        None => Seq::empty(),
    }
}

/// The bytes of the first entry of this day.
pub open spec fn first_of_day(
    items: Seq<VnstatTrafficItem>,
    year: int,
    month: int,
    day: int,
) -> Option<(u64, u64)>
    decreases items.len(),
{
    if items.len() == 0 {
        None
    } else if is_day(items[0], year, month, day) {
        Some((items[0].rx, items[0].tx))
    } else {
        first_of_day(items.drop_first(), year, month, day)
    }
}

/// The bytes of this day of the first interface that is counted and has an
/// entry for it; nothing where there is none.
pub open spec fn totals_of_day(
    ifaces: Seq<VnstatInterface>,
    target: Option<Seq<char>>,
    devices: Set<Seq<char>>,
    year: int,
    month: int,
    day: int,
) -> (u64, u64)
    decreases ifaces.len(),
{
    if ifaces.len() == 0 {
        (0, 0)
    } else {
        let first = first_of_day(daily_items(ifaces[0]), year, month, day);
        if counted(interface_name(ifaces[0]), target, devices) && first is Some {
            first->0
        } else {
            totals_of_day(ifaces.drop_first(), target, devices, year, month, day)
        }
    }
}

/// The interfaces of a report; none where the report could not be had.
pub open spec fn reported_interfaces(report: Option<&VnstatJson>) -> Seq<VnstatInterface> {
    match report {
        Some(r) => match r.interfaces {
            Some(v) => v@,
            None => Seq::empty(),
        },
        None => Seq::empty(),
    }
}

/// The names of the interfaces.
pub open spec fn interface_names(ifaces: Seq<VnstatInterface>) -> Seq<Seq<char>> {
    Seq::new(ifaces.len(), |i: int| interface_name(ifaces[i]))
}

/// What is reported for a day is what some counted interface has for that day,
/// or nothing.
pub proof fn totals_come_from_the_day(
    ifaces: Seq<VnstatInterface>,
    target: Option<Seq<char>>,
    devices: Set<Seq<char>>,
    year: int,
    month: int,
    day: int,
)
    ensures
        ({
            let r = totals_of_day(ifaces, target, devices, year, month, day);
            r == (0u64, 0u64) || exists|i: int, j: int|
                {
                    &&& 0 <= i < ifaces.len()
                    &&& counted(interface_name(ifaces[i]), target, devices)
                    &&& 0 <= j < daily_items(ifaces[i]).len()
                    &&& is_day(#[trigger] daily_items(ifaces[i])[j], year, month, day)
                    &&& r == (daily_items(ifaces[i])[j].rx, daily_items(ifaces[i])[j].tx)
                }
        }),
    decreases ifaces.len(),
{
    if ifaces.len() > 0 {
        let items = daily_items(ifaces[0]);
        let first = first_of_day(items, year, month, day);
        let rest = ifaces.drop_first();
        let r = totals_of_day(ifaces, target, devices, year, month, day);
        if counted(interface_name(ifaces[0]), target, devices) && first is Some {
            lemma_first_of_day(items, year, month, day);
            let j = choose|j: int|
                0 <= j < items.len() && is_day(#[trigger] items[j], year, month, day) && first
                    == Some((items[j].rx, items[j].tx));
            assert(is_day(daily_items(ifaces[0])[j], year, month, day));
        } else {
            totals_come_from_the_day(rest, target, devices, year, month, day);
            if r != (0u64, 0u64) {
                let (i, j) = choose|i: int, j: int|
                    {
                        &&& 0 <= i < rest.len()
                        &&& counted(interface_name(rest[i]), target, devices)
                        &&& 0 <= j < daily_items(rest[i]).len()
                        &&& is_day(#[trigger] daily_items(rest[i])[j], year, month, day)
                        &&& r == (daily_items(rest[i])[j].rx, daily_items(rest[i])[j].tx)
                    };
                assert(rest[i] == ifaces[i + 1]);
                assert(is_day(daily_items(ifaces[i + 1])[j], year, month, day));
            }
        }
    }
}

/// The first entry of the day counts: where an interface is counted and has an
/// entry that names the day, no entry before it names the day, and neither does
/// any of an interface before it that is counted, the bytes of that entry are
/// reported. An interface is counted if it is the target, or, where there is no
/// target, if it is hardware.
pub proof fn first_entries_of_the_day_count(
    ifaces: Seq<VnstatInterface>,
    target: Option<Seq<char>>,
    devices: Set<Seq<char>>,
    date: (i32, u32, u32),
    i: int,
    j: int,
)
    requires
        0 <= i < ifaces.len(),
        match target {
            Some(t) => interface_name(ifaces[i]) == t,
            None => physical(interface_name(ifaces[i]), devices),
        },
        ifaces[i].traffic is Some,
        ifaces[i].traffic->0.day is Some,
        0 <= j < ifaces[i].traffic->0.day->0@.len(),
        ifaces[i].traffic->0.day->0@[j].date == (VnstatDate {
            year: date.0,
            month: date.1,
            day: Some(date.2),
        }),
        forall|b: int|
            0 <= b < j ==> (#[trigger] ifaces[i].traffic->0.day->0@[b]).date != (VnstatDate {
                year: date.0,
                month: date.1,
                day: Some(date.2),
            }),
        forall|a: int, b: int|
            0 <= a < i && counted(interface_name(ifaces[a]), target, devices) && 0 <= b
                < daily_items(ifaces[a]).len() ==> (#[trigger] daily_items(ifaces[a])[b]).date != (
            VnstatDate { year: date.0, month: date.1, day: Some(date.2) }),
    ensures
        totals_of_day(ifaces, target, devices, date.0 as int, date.1 as int, date.2 as int) == (
            ifaces[i].traffic->0.day->0@[j].rx,
            ifaces[i].traffic->0.day->0@[j].tx,
        ),
    decreases ifaces.len(),
{
    let items = daily_items(ifaces[0]);
    if i == 0 {
        assert(items == ifaces[0].traffic->0.day->0@);
        lemma_first_entry(items, date, j);
    } else {
        let rest = ifaces.drop_first();
        if counted(interface_name(ifaces[0]), target, devices) {
            assert forall|b: int| 0 <= b < items.len() implies (#[trigger] items[b]).date != (
            VnstatDate { year: date.0, month: date.1, day: Some(date.2) }) by {
                assert(daily_items(ifaces[0])[b] == items[b]);
            }
            lemma_no_entry(items, date);
        }
        assert(rest[i - 1] == ifaces[i]);
        assert forall|a: int, b: int|
            0 <= a < i - 1 && counted(interface_name(rest[a]), target, devices) && 0 <= b
                < daily_items(rest[a]).len() implies (#[trigger] daily_items(rest[a])[b]).date != (
        VnstatDate { year: date.0, month: date.1, day: Some(date.2) }) by {
            assert(rest[a] == ifaces[a + 1]);
            assert(daily_items(ifaces[a + 1])[b] == daily_items(rest[a])[b]);
        }
        first_entries_of_the_day_count(rest, target, devices, date, i - 1, j);
    }
}

/// Where no interface that is counted has an entry that names the day, nothing
/// is reported for it.
pub proof fn days_without_an_entry_report_nothing(
    ifaces: Seq<VnstatInterface>,
    target: Option<Seq<char>>,
    devices: Set<Seq<char>>,
    date: (i32, u32, u32),
)
    requires
        forall|a: int, b: int|
            0 <= a < ifaces.len() && counted(interface_name(ifaces[a]), target, devices) && 0 <= b
                < daily_items(ifaces[a]).len() ==> (#[trigger] daily_items(ifaces[a])[b]).date != (
            VnstatDate { year: date.0, month: date.1, day: Some(date.2) }),
    ensures
        totals_of_day(ifaces, target, devices, date.0 as int, date.1 as int, date.2 as int) == (
            0u64,
            0u64,
        ),
    decreases ifaces.len(),
{
    if ifaces.len() > 0 {
        let items = daily_items(ifaces[0]);
        let rest = ifaces.drop_first();
        if counted(interface_name(ifaces[0]), target, devices) {
            assert forall|b: int| 0 <= b < items.len() implies (#[trigger] items[b]).date != (
            VnstatDate { year: date.0, month: date.1, day: Some(date.2) }) by {
                assert(daily_items(ifaces[0])[b] == items[b]);
            }
            lemma_no_entry(items, date);
        }
        assert forall|a: int, b: int|
            0 <= a < rest.len() && counted(interface_name(rest[a]), target, devices) && 0 <= b
                < daily_items(rest[a]).len() implies (#[trigger] daily_items(rest[a])[b]).date != (
        VnstatDate { year: date.0, month: date.1, day: Some(date.2) }) by {
            assert(rest[a] == ifaces[a + 1]);
            assert(daily_items(ifaces[a + 1])[b] == daily_items(rest[a])[b]);
        }
        days_without_an_entry_report_nothing(rest, target, devices, date);
    }
}

/// What is reported for the current day is what is reported for a day that
/// `current_day` gives, and so for one that the clock has shown.
pub proof fn totals_are_those_of_the_current_day(
    report: Option<&VnstatJson>,
    target: Option<&str>,
    devices: &Devices,
    r: (u64, u64),
)
    requires
        call_ensures(fetch_vnstat_today_totals, (report, target, devices), r),
    ensures
        exists|day: (i32, u32, u32)|
            {
                &&& #[trigger] call_ensures(current_day, (), day)
                &&& clock_showed(day.0 as int, day.1 as int, day.2 as int)
                &&& r == totals_of_day(
                    reported_interfaces(report),
                    opt_view(target),
                    devices@,
                    day.0 as int,
                    day.1 as int,
                    day.2 as int,
                )
            },
{
}

/// An interface without a name is reported under the empty name.
pub proof fn interfaces_go_by_their_names(iface: VnstatInterface)
    ensures
        iface.name is Some ==> interface_name(iface) == iface.name->0@,
        iface.name is None ==> interface_name(iface).len() == 0,
{
}

/// A report holds the interfaces that it lists, and none where it lists none or
/// could not be had.
pub proof fn reports_hold_what_they_list(report: Option<&VnstatJson>)
    ensures
        report is Some && report->0.interfaces is Some ==> reported_interfaces(report)
            == report->0.interfaces->0@,
        report is Some && report->0.interfaces is None ==> reported_interfaces(report).len() == 0,
        report is None ==> reported_interfaces(report).len() == 0,
{
}

proof fn lemma_first_entry(items: Seq<VnstatTrafficItem>, date: (i32, u32, u32), j: int)
    requires
        0 <= j < items.len(),
        items[j].date == (VnstatDate { year: date.0, month: date.1, day: Some(date.2) }),
        forall|b: int|
            0 <= b < j ==> (#[trigger] items[b]).date != (VnstatDate {
                year: date.0,
                month: date.1,
                day: Some(date.2),
            }),
    ensures
        first_of_day(items, date.0 as int, date.1 as int, date.2 as int) == Some(
            (items[j].rx, items[j].tx),
        ),
    decreases items.len(),
{
    if j > 0 {
        let rest = items.drop_first();
        assert(items[0].date != (VnstatDate { year: date.0, month: date.1, day: Some(date.2) }));
        assert(rest[j - 1] == items[j]);
        assert forall|b: int| 0 <= b < j - 1 implies (#[trigger] rest[b]).date != (VnstatDate {
            year: date.0,
            month: date.1,
            day: Some(date.2),
        }) by {
            assert(rest[b] == items[b + 1]);
        }
        lemma_first_entry(rest, date, j - 1);
    }
}

proof fn lemma_no_entry(items: Seq<VnstatTrafficItem>, date: (i32, u32, u32))
    requires
        forall|b: int|
            0 <= b < items.len() ==> (#[trigger] items[b]).date != (VnstatDate {
                year: date.0,
                month: date.1,
                day: Some(date.2),
            }),
    ensures
        first_of_day(items, date.0 as int, date.1 as int, date.2 as int) is None,
    decreases items.len(),
{
    if items.len() > 0 {
        let rest = items.drop_first();
        assert(items[0].date != (VnstatDate { year: date.0, month: date.1, day: Some(date.2) }));
        assert forall|b: int| 0 <= b < rest.len() implies (#[trigger] rest[b]).date != (
        VnstatDate { year: date.0, month: date.1, day: Some(date.2) }) by {
            assert(rest[b] == items[b + 1]);
        }
        lemma_no_entry(rest, date);
    }
}

proof fn lemma_first_of_day(items: Seq<VnstatTrafficItem>, year: int, month: int, day: int)
    ensures
        match first_of_day(items, year, month, day) {
            Some(b) => exists|j: int|
                0 <= j < items.len() && is_day(#[trigger] items[j], year, month, day) && b == (
                    items[j].rx,
                    items[j].tx,
                ),
            None => true,
        },
    decreases items.len(),
{
    if items.len() > 0 && !is_day(items[0], year, month, day) {
        let rest = items.drop_first();
        lemma_first_of_day(rest, year, month, day);
        if let Some(b) = first_of_day(rest, year, month, day) {
            let j = choose|j: int|
                0 <= j < rest.len() && is_day(#[trigger] rest[j], year, month, day) && b == (
                    rest[j].rx,
                    rest[j].tx,
                );
            assert(items[j + 1] == rest[j]);
            assert(is_day(items[j + 1], year, month, day));
        }
    }
}

/// Looking for the devices of the names that `vnstat_probes` lists is enough:
/// whatever is said of others, the same totals come out.
pub proof fn probed_names_decide_totals(
    ifaces: Seq<VnstatInterface>,
    target: Option<Seq<char>>,
    a: Set<Seq<char>>,
    b: Set<Seq<char>>,
    year: int,
    month: int,
    day: int,
)
    requires
        forall|n: Seq<char>| #[trigger]
            probes(interface_names(ifaces)).contains(n) ==> (a.contains(n) <==> b.contains(n)),
    ensures
        totals_of_day(ifaces, target, a, year, month, day) == totals_of_day(
            ifaces,
            target,
            b,
            year,
            month,
            day,
        ),
    decreases ifaces.len(),
{
    if ifaces.len() > 0 {
        let names = interface_names(ifaces);
        let rest = names.drop_first();
        let n = trim(names[0]);
        assert(rest =~= interface_names(ifaces.drop_first()));
        if !virtual_name(n) {
            assert(probes(names)[0] == n);
            assert(probes(names).contains(n));
        }
        assert forall|m: Seq<char>| #[trigger]
            probes(interface_names(ifaces.drop_first())).contains(m) implies (a.contains(m)
            <==> b.contains(m)) by {
            let i = choose|i: int| 0 <= i < probes(rest).len() && probes(rest)[i] == m;
            if virtual_name(n) {
                assert(probes(names)[i] == m);
            } else {
                assert(probes(names)[i + 1] == m);
            }
            assert(probes(names).contains(m));
        }
        probed_names_decide_totals(ifaces.drop_first(), target, a, b, year, month, day);
    }
}

fn find_day(items: &Vec<VnstatTrafficItem>, day: (i32, u32, u32)) -> (r: Option<(u64, u64)>)
    ensures
        r == first_of_day(items@, day.0 as int, day.1 as int, day.2 as int),
{
    let mut i: usize = 0;
    assert(items@.skip(0) =~= items@);
    while i < items.len()
        invariant
            i <= items@.len(),
            first_of_day(items@.skip(i as int), day.0 as int, day.1 as int, day.2 as int)
                == first_of_day(items@, day.0 as int, day.1 as int, day.2 as int),
        decreases items@.len() - i,
    {
        assert(items@.skip(i as int).drop_first() =~= items@.skip(i + 1));
        assert(items@.skip(i as int)[0] == items@[i as int]);
        let d = &items[i];
        if d.date.year == day.0 && d.date.month == day.1 {
            if let Some(day_num) = d.date.day {
                if day_num == day.2 {
                    return Some((d.rx, d.tx));
                }
            }
        }
        i = i + 1;
    }
    None
}

/// The bytes that vnStat reports for a day: of the interface `target`, or of
/// the first hardware interface with an entry where there is no target.
pub fn vnstat_totals_of_day(
    report: Option<&VnstatJson>,
    target: Option<&str>,
    devices: &Devices,
    day: (i32, u32, u32),
) -> (r: (u64, u64))
    ensures
        r == totals_of_day(
            reported_interfaces(report),
            opt_view(target),
            devices@,
            day.0 as int,
            day.1 as int,
            day.2 as int,
        ),
{
    if let Some(json) = report {
        if let Some(ifaces) = &json.interfaces {
            let ghost t = opt_view(target);
            let ghost (y, m, d) = (day.0 as int, day.1 as int, day.2 as int);
            let mut i: usize = 0;
            assert(ifaces@.skip(0) =~= ifaces@);
            while i < ifaces.len()
                invariant
                    i <= ifaces@.len(),
                    t == opt_view(target),
                    (y, m, d) == (day.0 as int, day.1 as int, day.2 as int),
                    totals_of_day(ifaces@.skip(i as int), t, devices@, y, m, d) == totals_of_day(
                        ifaces@,
                        t,
                        devices@,
                        y,
                        m,
                        d,
                    ),
                    reported_interfaces(report) == ifaces@,
                decreases ifaces@.len() - i,
            {
                assert(ifaces@.skip(i as int).drop_first() =~= ifaces@.skip(i + 1));
                assert(ifaces@.skip(i as int)[0] == ifaces@[i as int]);
                let iface = &ifaces[i];
                let name: &str = match &iface.name {
                    Some(n) => n.as_str(),
                    None => {
                        proof {
                            reveal_strlit("");
                            assert(""@ =~= Seq::<char>::empty());
                        }
                        ""
                    },
                };
                let count = match target {
                    Some(t) => {
                        let n = chars_of(name);
                        is_text(n.as_slice(), t)
                    },
                    None => is_physical_interface(name, devices),
                };
                if count {
                    if let Some(traffic) = &iface.traffic {
                        if let Some(days) = &traffic.day {
                            if let Some(bytes) = find_day(days, day) {
                                return bytes;
                            }
                        }
                    }
                }
                i = i + 1;
            }
        }
    }
    (0, 0)
}

/// The bytes that vnStat reports for the current day. `report` is what
/// `vnstat --json` printed, if it could be run and its output read.
pub fn fetch_vnstat_today_totals(
    report: Option<&VnstatJson>,
    target: Option<&str>,
    devices: &Devices,
) -> (r: (u64, u64))
    ensures
        exists|year: int, month: int, day: int|
            is_calendar_day(year, month, day) && r == #[trigger] totals_of_day(
                reported_interfaces(report),
                opt_view(target),
                devices@,
                year,
                month,
                day,
            ),
        exists|day: (i32, u32, u32)| #[trigger]
            call_ensures(current_day, (), day) && r == totals_of_day(
                reported_interfaces(report),
                opt_view(target),
                devices@,
                day.0 as int,
                day.1 as int,
                day.2 as int,
            ),
{
    let day = current_day();
    vnstat_totals_of_day(report, target, devices, day)
}

/// The names for which a device has to be looked for before the totals can be
/// asked for.
pub fn vnstat_probes(report: Option<&VnstatJson>) -> (r: Vec<String>)
    ensures
        views(r@) == probes(interface_names(reported_interfaces(report))),
{
    let mut names: Vec<String> = Vec::new();
    if let Some(json) = report {
        if let Some(ifaces) = &json.interfaces {
            let mut i: usize = 0;
            while i < ifaces.len()
                invariant
                    i <= ifaces@.len(),
                    views(names@) =~= interface_names(ifaces@).take(i as int),
                decreases ifaces@.len() - i,
            {
                let ghost before = views(names@);
                let name = match &ifaces[i].name {
                    Some(n) => n.clone(),
                    None => String::new(),
                };
                assert(name@ == interface_names(ifaces@)[i as int]);
                names.push(name);
                assert(views(names@) =~= before.push(name@));
                i = i + 1;
            }
        }
    }
    assert(views(names@) =~= interface_names(reported_interfaces(report)));
    names_to_probe(&names)
}

} // verus!
