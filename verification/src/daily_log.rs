//! The traffic of one day: what the interface moved, and what is booked under
//! each application.

use vstd::prelude::*;

use crate::clock::same_date;
use crate::name_map::{
    ascending, lemma_pairs_map_names, lemma_sum_bounds, lemma_sum_empty, lemma_sum_insert,
    pairs_map, sum, text_order_is_strict, NameMap,
};
use crate::text::opt_view;

verus! {

/// The name under which traffic is booked that no application accounts for.
pub const BACKGROUND_APP: &'static str = "System & Background Traffic";

/// The interface that is shown where none is known.
pub const FALLBACK_INTERFACE: &'static str = "enp7s0";

/// How many bytes may remain unaccounted for without being booked.
pub const UNALLOCATED_LIMIT: u64 = 10240;

/// Bytes received and sent.
#[derive(Clone, Copy, PartialEq, Eq, Structural, Debug)]
pub struct AppNetUsage {
    pub rx: u64,
    pub tx: u64,
}

impl Default for AppNetUsage {
    fn default() -> (r: Self)
        ensures
            r == (AppNetUsage { rx: 0, tx: 0 }),
    {
        AppNetUsage { rx: 0, tx: 0 }
    }
}

/// The traffic of one day.
#[derive(Debug)]
pub struct DailyNetAppLog {
    pub date: String,
    pub total_rx: u64,
    pub total_tx: u64,
    pub speed_rx: u64,
    pub speed_tx: u64,
    pub interface: String,
    pub apps: NameMap<AppNetUsage>,
}

/// Bytes received and sent, as numbers without a limit.
#[verifier::ext_equal]
pub struct UsageView {
    pub rx: nat,
    pub tx: nat,
}

/// The traffic of one day, as numbers and texts.
#[verifier::ext_equal]
pub struct LogView {
    pub date: Seq<char>,
    pub total_rx: nat,
    pub total_tx: nat,
    pub speed_rx: nat,
    pub speed_tx: nat,
    pub interface: Seq<char>,
    pub apps: Map<Seq<char>, UsageView>,
}

/// The usage by application, as numbers without a limit.
pub open spec fn usages(m: Map<Seq<char>, AppNetUsage>) -> Map<Seq<char>, UsageView> {
    m.map_values(|u: AppNetUsage| UsageView { rx: u.rx as nat, tx: u.tx as nat })
}

impl View for DailyNetAppLog {
    type V = LogView;

    open spec fn view(&self) -> LogView {
        LogView {
            date: self.date@,
            total_rx: self.total_rx as nat,
            total_tx: self.total_tx as nat,
            speed_rx: self.speed_rx as nat,
            speed_tx: self.speed_tx as nat,
            interface: self.interface@,
            apps: usages(self.apps@),
        }
    }
}

/// What each application received.
pub open spec fn received(apps: Map<Seq<char>, UsageView>) -> Map<Seq<char>, nat> {
    apps.map_values(|u: UsageView| u.rx)
}

/// What each application sent.
pub open spec fn sent(apps: Map<Seq<char>, UsageView>) -> Map<Seq<char>, nat> {
    apps.map_values(|u: UsageView| u.tx)
}

/// What all applications received.
pub open spec fn tracked_rx(apps: Map<Seq<char>, UsageView>) -> nat {
    sum(received(apps))
}

/// What all applications sent.
pub open spec fn tracked_tx(apps: Map<Seq<char>, UsageView>) -> nat {
    sum(sent(apps))
}

/// The usage booked under a name; none if the name does not occur.
pub open spec fn usage_of(apps: Map<Seq<char>, UsageView>, name: Seq<char>) -> UsageView {
    if apps.contains_key(name) {
        apps[name]
    } else {
        UsageView { rx: 0, tx: 0 }
    }
}

/// The usage by application after more has been booked under a name.
pub open spec fn booked(
    apps: Map<Seq<char>, UsageView>,
    name: Seq<char>,
    rx: nat,
    tx: nat,
) -> Map<Seq<char>, UsageView> {
    let u = usage_of(apps, name);
    apps.insert(name, UsageView { rx: u.rx + rx, tx: u.tx + tx })
}

/// The interface that is shown.
pub open spec fn shown_interface(known: Option<Seq<char>>) -> Seq<char> {
    match known {
        Some(n) => n,
        None => FALLBACK_INTERFACE@,
    }
}

/// The log of a day on which nothing was booked yet.
pub open spec fn fresh_log(date: Seq<char>, known: Option<Seq<char>>) -> LogView {
    LogView {
        date,
        total_rx: 0,
        total_tx: 0,
        speed_rx: 0,
        speed_tx: 0,
        interface: shown_interface(known),
        apps: Map::empty(),
    }
}

/// The log of a day: the one that was stored, if there is one, else a fresh one.
pub open spec fn loaded(
    stored: Option<LogView>,
    date: Seq<char>,
    known: Option<Seq<char>>,
) -> LogView {
    match stored {
        Some(log) => log,
        None => fresh_log(date, known),
    }
}

/// A log that may be missing, as numbers and texts.
pub open spec fn opt_log(log: Option<DailyNetAppLog>) -> Option<LogView> {
    match log {
        Some(log) => Some(log@),
        None => None,
    }
}

/// The greatest of three numbers.
pub open spec fn greatest(a: nat, b: nat, c: nat) -> nat {
    if a >= b && a >= c {
        a
    } else if b >= c {
        b
    } else {
        c
    }
}

/// A log brought in line with the totals that vnStat reports for the day: each
/// total becomes the greatest of the log's own, vnStat's and what is booked;
/// where more than the limit is then not booked under any name, the rest is
/// booked as background traffic.
pub open spec fn reconciled(log: LogView, vnstat_rx: nat, vnstat_tx: nat) -> LogView {
    let rx = greatest(log.total_rx, vnstat_rx, tracked_rx(log.apps));
    let tx = greatest(log.total_tx, vnstat_tx, tracked_tx(log.apps));
    let open_rx = (rx - tracked_rx(log.apps)) as nat;
    let open_tx = (tx - tracked_tx(log.apps)) as nat;
    LogView {
        total_rx: rx,
        total_tx: tx,
        apps: if open_rx > UNALLOCATED_LIMIT || open_tx > UNALLOCATED_LIMIT {
            booked(log.apps, BACKGROUND_APP@, open_rx, open_tx)
        } else {
            log.apps
        },
        ..log
    }
}

/// A log as it is shown: with the speeds last measured, with an interface, and
/// brought in line with vnStat's totals where these are given.
pub open spec fn synced(
    log: LogView,
    speeds: (u64, u64),
    known: Option<Seq<char>>,
    vnstat: Option<(u64, u64)>,
) -> LogView {
    let shown = LogView {
        speed_rx: speeds.0 as nat,
        speed_tx: speeds.1 as nat,
        interface: if log.interface.len() == 0 {
            shown_interface(known)
        } else {
            log.interface
        },
        ..log
    };
    match vnstat {
        Some(v) => reconciled(shown, v.0 as nat, v.1 as nat),
        None => shown,
    }
}

/// Booking more under one name adds to what all applications moved.
pub proof fn booking_adds_up(
    apps: Map<Seq<char>, UsageView>,
    name: Seq<char>,
    rx: nat,
    tx: nat,
)
    requires
        apps.dom().finite(),
    ensures
        booked(apps, name, rx, tx).dom().finite(),
        tracked_rx(booked(apps, name, rx, tx)) == tracked_rx(apps) + rx,
        tracked_tx(booked(apps, name, rx, tx)) == tracked_tx(apps) + tx,
{
    let after = booked(apps, name, rx, tx);
    let u = usage_of(apps, name);
    assert(received(apps).dom() =~= apps.dom());
    assert(sent(apps).dom() =~= apps.dom());
    lemma_sum_insert(received(apps), name, u.rx + rx);
    lemma_sum_insert(sent(apps), name, u.tx + tx);
    assert(received(after) =~= received(apps).insert(name, u.rx + rx));
    assert(sent(after) =~= sent(apps).insert(name, u.tx + tx));
}

/// A log is seen as it is, in every field and under every name.
pub proof fn logs_are_seen_as_they_are(log: DailyNetAppLog, name: Seq<char>)
    ensures
        log@.date == log.date@,
        log@.total_rx == log.total_rx && log@.total_tx == log.total_tx,
        log@.speed_rx == log.speed_rx && log@.speed_tx == log.speed_tx,
        log@.interface == log.interface@,
        log@.apps.contains_key(name) == log.apps@.contains_key(name),
        log.apps@.contains_key(name) ==> log@.apps[name].rx == log.apps@[name].rx
            && log@.apps[name].tx == log.apps@[name].tx,
{
}

/// Booking adds to the one name what is booked, which begins at nothing where
/// the name is new, and leaves every other name as it is.
pub proof fn booking_adds_under_one_name(
    apps: Map<Seq<char>, UsageView>,
    name: Seq<char>,
    rx: nat,
    tx: nat,
    other: Seq<char>,
)
    ensures
        ({
            let r = booked(apps, name, rx, tx);
            &&& r.contains_key(name)
            &&& apps.contains_key(name) ==> r[name].rx == apps[name].rx + rx && r[name].tx
                == apps[name].tx + tx
            &&& !apps.contains_key(name) ==> r[name].rx == rx && r[name].tx == tx
            &&& other != name ==> r.contains_key(other) == apps.contains_key(other)
            &&& other != name && apps.contains_key(other) ==> r[other] == apps[other]
        }),
{
}

/// What all applications moved is nothing where there is none.
pub proof fn nothing_is_tracked_without_applications()
    ensures
        tracked_rx(Map::empty()) == 0,
        tracked_tx(Map::empty()) == 0,
{
    let none = Map::<Seq<char>, UsageView>::empty();
    assert(received(none).dom() =~= Set::<Seq<char>>::empty());
    assert(sent(none).dom() =~= Set::<Seq<char>>::empty());
    lemma_sum_empty(received(none));
    lemma_sum_empty(sent(none));
}

/// After a log was brought in line, each total is the least number that is not
/// below the log's own total, what vnStat reports and what was booked: it is
/// not below any of the three, and it is one of them. Nothing is counted twice.
pub proof fn reconciled_totals_are_the_least(log: LogView, vnstat_rx: nat, vnstat_tx: nat)
    ensures
        ({
            let r = reconciled(log, vnstat_rx, vnstat_tx);
            &&& r.total_rx >= log.total_rx
            &&& r.total_rx >= vnstat_rx
            &&& r.total_rx >= tracked_rx(log.apps)
            &&& r.total_rx == log.total_rx || r.total_rx == vnstat_rx || r.total_rx
                == tracked_rx(log.apps)
            &&& r.total_tx >= log.total_tx
            &&& r.total_tx >= vnstat_tx
            &&& r.total_tx >= tracked_tx(log.apps)
            &&& r.total_tx == log.total_tx || r.total_tx == vnstat_tx || r.total_tx
                == tracked_tx(log.apps)
        }),
{
}

/// What the totals exceed the booked traffic by is added to the background
/// traffic where it is more than ten kibibytes in either direction; else
/// nothing is booked.
pub proof fn what_is_left_over_becomes_background(log: LogView, vnstat_rx: nat, vnstat_tx: nat)
    ensures
        ({
            let r = reconciled(log, vnstat_rx, vnstat_tx);
            let name = "System & Background Traffic"@;
            if r.total_rx > tracked_rx(log.apps) + 10240 || r.total_tx > tracked_tx(log.apps)
                + 10240 {
                &&& r.apps.dom() == log.apps.dom().insert(name)
                &&& r.apps[name].rx + tracked_rx(log.apps) == r.total_rx + if log.apps.contains_key(
                    name,
                ) {
                    log.apps[name].rx
                } else {
                    0
                }
                &&& r.apps[name].tx + tracked_tx(log.apps) == r.total_tx + if log.apps.contains_key(
                    name,
                ) {
                    log.apps[name].tx
                } else {
                    0
                }
                &&& forall|k: Seq<char>|
                    k != name && #[trigger] log.apps.contains_key(k) ==> r.apps[k] == log.apps[k]
            } else {
                r.apps == log.apps
            }
        }),
{
    let r = reconciled(log, vnstat_rx, vnstat_tx);
    let name = "System & Background Traffic"@;
    reconciled_totals_are_the_least(log, vnstat_rx, vnstat_tx);
    if r.total_rx > tracked_rx(log.apps) + 10240 || r.total_tx > tracked_tx(log.apps) + 10240 {
        assert(r.apps.dom() =~= log.apps.dom().insert(name));
    }
}

/// A log is shown with the speeds that were measured, and with its own
/// interface; only where it has none, with the one that is known, or else with
/// a stand-in. Its day stays. Without totals from vnStat all else stays; with
/// them each total is the least number that is not below the log's own, vnStat's
/// and what is booked.
pub proof fn shown_logs_hold_what_was_measured(
    log: LogView,
    speeds: (u64, u64),
    known: Option<Seq<char>>,
    vnstat: Option<(u64, u64)>,
)
    ensures
        ({
            let r = synced(log, speeds, known, vnstat);
            &&& r.date == log.date
            &&& r.speed_rx == speeds.0 && r.speed_tx == speeds.1
            &&& log.interface.len() > 0 ==> r.interface == log.interface
            &&& log.interface.len() == 0 && known is Some ==> r.interface == known->0
            &&& log.interface.len() == 0 && known is None ==> r.interface == "enp7s0"@
            &&& vnstat is None ==> r.total_rx == log.total_rx && r.total_tx == log.total_tx
                && r.apps == log.apps
            &&& vnstat is Some ==> {
                let v = vnstat->0;
                &&& r.total_rx >= log.total_rx && r.total_rx >= v.0 && r.total_rx >= tracked_rx(
                    log.apps,
                )
                &&& r.total_rx == log.total_rx || r.total_rx == v.0 || r.total_rx == tracked_rx(
                    log.apps,
                )
                &&& r.total_tx >= log.total_tx && r.total_tx >= v.1 && r.total_tx >= tracked_tx(
                    log.apps,
                )
                &&& r.total_tx == log.total_tx || r.total_tx == v.1 || r.total_tx == tracked_tx(
                    log.apps,
                )
                &&& r.apps == reconciled(log, v.0 as nat, v.1 as nat).apps
            }
        }),
{
    if let Some(v) = vnstat {
        let shown = synced(log, speeds, known, None);
        reconciled_totals_are_the_least(shown, v.0 as nat, v.1 as nat);
    }
}

/// A day without a stored log begins with nothing, under the interface that is
/// known or a stand-in; a stored log is taken as it is.
pub proof fn days_begin_with_nothing(
    stored: Option<LogView>,
    date: Seq<char>,
    known: Option<Seq<char>>,
)
    ensures
        stored is Some ==> loaded(stored, date, known) == stored->0,
        stored is None ==> {
            let r = loaded(stored, date, known);
            &&& r.date == date
            &&& r.total_rx == 0 && r.total_tx == 0 && r.speed_rx == 0 && r.speed_tx == 0
            &&& known is Some ==> r.interface == known->0
            &&& known is None ==> r.interface == "enp7s0"@
            &&& r.apps == Map::<Seq<char>, UsageView>::empty()
        },
{
}

/// After a log was brought in line, its totals have not shrunk, they cover
/// what vnStat reports and what is booked, and what is not booked under any
/// name is within the limit both ways. Where anything was booked, nothing is
/// left over at all.
pub proof fn reconciled_totals_account_for_all(log: LogView, vnstat_rx: nat, vnstat_tx: nat)
    requires
        log.apps.dom().finite(),
    ensures
        ({
            let r = reconciled(log, vnstat_rx, vnstat_tx);
            &&& r.total_rx >= log.total_rx && r.total_rx >= vnstat_rx
            &&& r.total_tx >= log.total_tx && r.total_tx >= vnstat_tx
            &&& tracked_rx(r.apps) <= r.total_rx <= tracked_rx(r.apps) + UNALLOCATED_LIMIT
            &&& tracked_tx(r.apps) <= r.total_tx <= tracked_tx(r.apps) + UNALLOCATED_LIMIT
            &&& r.apps == log.apps || (r.total_rx == tracked_rx(r.apps) && r.total_tx
                == tracked_tx(r.apps))
        }),
{
    let rx = greatest(log.total_rx, vnstat_rx, tracked_rx(log.apps));
    let tx = greatest(log.total_tx, vnstat_tx, tracked_tx(log.apps));
    booking_adds_up(
        log.apps,
        BACKGROUND_APP@,
        (rx - tracked_rx(log.apps)) as nat,
        (tx - tracked_tx(log.apps)) as nat,
    );
}

/// Bringing a log in line changes nothing but its totals and what is booked as
/// background traffic, and never takes anything away.
pub proof fn reconciling_only_adds_background(
    log: LogView,
    vnstat_rx: nat,
    vnstat_tx: nat,
    name: Seq<char>,
)
    ensures
        ({
            let r = reconciled(log, vnstat_rx, vnstat_tx);
            &&& r.date == log.date && r.interface == log.interface
            &&& r.speed_rx == log.speed_rx && r.speed_tx == log.speed_tx
            &&& name != BACKGROUND_APP@ ==> usage_of(r.apps, name) == usage_of(log.apps, name)
            &&& usage_of(r.apps, name).rx >= usage_of(log.apps, name).rx
            &&& usage_of(r.apps, name).tx >= usage_of(log.apps, name).tx
        }),
{
}

/// A log that was brought in line stays as it is when that is done again with
/// the same totals.
pub proof fn reconciling_again_changes_nothing(log: LogView, vnstat_rx: nat, vnstat_tx: nat)
    requires
        log.apps.dom().finite(),
    ensures
        reconciled(reconciled(log, vnstat_rx, vnstat_tx), vnstat_rx, vnstat_tx) == reconciled(
            log,
            vnstat_rx,
            vnstat_tx,
        ),
{
    reconciled_totals_account_for_all(log, vnstat_rx, vnstat_tx);
}

/// A log that is shown again, with the same measurements, is the same.
pub proof fn showing_again_changes_nothing(
    log: LogView,
    speeds: (u64, u64),
    known: Option<Seq<char>>,
    vnstat: Option<(u64, u64)>,
)
    requires
        log.apps.dom().finite(),
    ensures
        synced(synced(log, speeds, known, vnstat), speeds, known, vnstat) == synced(
            log,
            speeds,
            known,
            vnstat,
        ),
{
    if let Some(v) = vnstat {
        let shown = synced(log, speeds, known, None);
        reconciling_again_changes_nothing(shown, v.0 as nat, v.1 as nat);
    }
}

/// What the pairs add up to.
spec fn pair_sums(pairs: Seq<(String, AppNetUsage)>) -> (nat, nat)
    decreases pairs.len(),
{
    if pairs.len() == 0 {
        (0, 0)
    } else {
        let rest = pair_sums(pairs.drop_last());
        (rest.0 + pairs.last().1.rx as nat, rest.1 + pairs.last().1.tx as nat)
    }
}

/// The first pairs add up to no more than all.
proof fn lemma_pair_sums_grow(pairs: Seq<(String, AppNetUsage)>, n: int)
    requires
        0 <= n <= pairs.len(),
    ensures
        pair_sums(pairs.take(n)).0 <= pair_sums(pairs).0,
        pair_sums(pairs.take(n)).1 <= pair_sums(pairs).1,
    decreases pairs.len(),
{
    if n < pairs.len() {
        lemma_pair_sums_grow(pairs.drop_last(), n);
        assert(pairs.drop_last().take(n) =~= pairs.take(n));
    } else {
        assert(pairs.take(n) =~= pairs);
    }
}

/// The usage by application holds what the pairs add up to.
proof fn lemma_pair_sums(pairs: Seq<(String, AppNetUsage)>)
    requires
        ascending(pairs),
    ensures
        pair_sums(pairs).0 == tracked_rx(usages(pairs_map(pairs))),
        pair_sums(pairs).1 == tracked_tx(usages(pairs_map(pairs))),
    decreases pairs.len(),
{
    let m = usages(pairs_map(pairs));
    if pairs.len() == 0 {
        lemma_sum_empty(received(m));
        lemma_sum_empty(sent(m));
    } else {
        let rest = pairs.drop_last();
        let n = usages(pairs_map(rest));
        let k = pairs.last().0@;
        let u = pairs.last().1;
        assert forall|i: int, j: int| 0 <= i < j < rest.len() implies
            crate::name_map::text_before(#[trigger] rest[i].0@, #[trigger] rest[j].0@) by {
            assert(rest[i] == pairs[i] && rest[j] == pairs[j]);
        }
        lemma_pair_sums(rest);
        lemma_pairs_map_names(rest);
        if pairs_map(rest).contains_key(k) {
            let i = choose|i: int| 0 <= i < rest.len() && #[trigger] rest[i].0@ == k;
            assert(rest[i] == pairs[i]);
            assert(crate::name_map::text_before(pairs[i].0@, pairs[pairs.len() - 1].0@));
            text_order_is_strict(k);
        }
        assert(n.dom() =~= pairs_map(rest).dom());
        assert(received(n).dom() =~= n.dom());
        assert(sent(n).dom() =~= n.dom());
        assert(received(m) =~= received(n).insert(k, u.rx as nat));
        assert(sent(m) =~= sent(n).insert(k, u.tx as nat));
        lemma_sum_insert(received(n), k, u.rx as nat);
        lemma_sum_insert(sent(n), k, u.tx as nat);
    }
}

/// Whether what all applications moved can be added up.
pub open spec fn totals_fit(apps: Map<Seq<char>, UsageView>) -> bool {
    tracked_rx(apps) <= u64::MAX && tracked_tx(apps) <= u64::MAX
}

/// What all applications moved, if it can be added up.
fn checked_totals(apps: &NameMap<AppNetUsage>) -> (r: Option<(u64, u64)>)
    ensures
        match r {
            Some(t) => t.0 == tracked_rx(usages(apps@)) && t.1 == tracked_tx(usages(apps@)),
            None => !totals_fit(usages(apps@)),
        },
        usages(apps@).dom().finite(),
{
    let pairs = apps.as_pairs();
    proof {
        assert(usages(apps@).dom() =~= apps@.dom());
        lemma_pair_sums(pairs@);
    }
    let mut rx: u64 = 0;
    let mut tx: u64 = 0;
    let mut i: usize = 0;
    while i < pairs.len()
        invariant
            i <= pairs@.len(),
            (rx as nat, tx as nat) == pair_sums(pairs@.take(i as int)),
            pair_sums(pairs@).0 == tracked_rx(usages(apps@)),
            pair_sums(pairs@).1 == tracked_tx(usages(apps@)),
            usages(apps@).dom().finite(),
        decreases pairs@.len() - i,
    {
        proof {
            assert(pairs@.take(i + 1).drop_last() =~= pairs@.take(i as int));
            lemma_pair_sums_grow(pairs@, i + 1);
        }
        let u = pairs[i].1;
        if u.rx > u64::MAX - rx || u.tx > u64::MAX - tx {
            return None;
        }
        rx = rx + u.rx;
        tx = tx + u.tx;
        i = i + 1;
    }
    assert(pairs@.take(i as int) =~= pairs@);
    Some((rx, tx))
}

/// Whether what all applications moved can be added up.
pub fn tracked_totals_fit(apps: &NameMap<AppNetUsage>) -> (r: bool)
    ensures
        r == totals_fit(usages(apps@)),
{
    checked_totals(apps).is_some()
}

/// What all applications moved.
pub fn tracked_totals(apps: &NameMap<AppNetUsage>) -> (r: (u64, u64))
    requires
        totals_fit(usages(apps@)),
    ensures
        r.0 == tracked_rx(usages(apps@)),
        r.1 == tracked_tx(usages(apps@)),
        usages(apps@).dom().finite(),
{
    checked_totals(apps).unwrap()
}

/// The interface that is shown.
fn interface_to_show(known: Option<&str>) -> (r: String)
    ensures
        r@ == shown_interface(opt_view(known)),
{
    match known {
        Some(n) => String::from_str(n),
        None => String::from_str(FALLBACK_INTERFACE),
    }
}

/// The log of the day `date_str`: the one that was stored, if there is one that
/// could be read, else a fresh one. `known` is the interface that traffic
/// leaves by.
pub fn load_raw_app_log(
    stored: Option<DailyNetAppLog>,
    date_str: &str,
    known: Option<&str>,
) -> (r: DailyNetAppLog)
    ensures
        r@ == loaded(opt_log(stored), date_str@, opt_view(known)),
        stored is Some ==> r == stored->0,
{
    match stored {
        Some(log) => log,
        None => {
            let r = DailyNetAppLog {
                date: String::from_str(date_str),
                total_rx: 0,
                total_tx: 0,
                speed_rx: 0,
                speed_tx: 0,
                interface: interface_to_show(known),
                apps: NameMap::new(),
            };
            assert(r@.apps =~= Map::<Seq<char>, UsageView>::empty());
            r
        },
    }
}

/// No application moved more than all together.
proof fn lemma_usage_bounds(apps: Map<Seq<char>, UsageView>, name: Seq<char>)
    requires
        apps.dom().finite(),
    ensures
        usage_of(apps, name).rx <= tracked_rx(apps),
        usage_of(apps, name).tx <= tracked_tx(apps),
{
    assert(received(apps).dom() =~= apps.dom());
    assert(sent(apps).dom() =~= apps.dom());
    if apps.contains_key(name) {
        lemma_sum_bounds(received(apps), name);
        lemma_sum_bounds(sent(apps), name);
    }
}

/// The usage booked under a name.
pub fn usage_under(apps: &NameMap<AppNetUsage>, name: &str) -> (r: AppNetUsage)
    ensures
        r.rx == usage_of(usages(apps@), name@).rx,
        r.tx == usage_of(usages(apps@), name@).tx,
{
    match apps.get(name) {
        Some(u) => u,
        None => AppNetUsage::default(),
    }
}

/// Books more under a name.
pub fn book(apps: &mut NameMap<AppNetUsage>, name: &str, rx: u64, tx: u64)
    requires
        usage_of(usages(old(apps)@), name@).rx + rx <= u64::MAX,
        usage_of(usages(old(apps)@), name@).tx + tx <= u64::MAX,
    ensures
        usages(final(apps)@) == booked(usages(old(apps)@), name@, rx as nat, tx as nat),
{
    let ghost before = apps@;
    let u = usage_under(apps, name);
    apps.insert(String::from_str(name), AppNetUsage { rx: u.rx + rx, tx: u.tx + tx });
    assert(usages(apps@) =~= booked(usages(before), name@, rx as nat, tx as nat));
}

fn larger(a: u64, b: u64) -> (r: u64)
    ensures
        r == if a >= b {
            a
        } else {
            b
        },
{
    if a >= b {
        a
    } else {
        b
    }
}

/// A log as it is shown. `speeds` are those last measured and `known` is the
/// interface that traffic leaves by; `vnstat` are the totals that vnStat
/// reports for the day, given only for the log of the current day.
pub fn get_synced_app_log(
    log: DailyNetAppLog,
    speeds: (u64, u64),
    known: Option<&str>,
    vnstat: Option<(u64, u64)>,
) -> (r: DailyNetAppLog)
    requires
        vnstat is Some ==> totals_fit(log@.apps),
    ensures
        r@ == synced(log@, speeds, opt_view(known), vnstat),
{
    let mut log = log;
    let ghost start = log@;
    log.speed_rx = speeds.0;
    log.speed_tx = speeds.1;
    if log.interface.as_str().is_empty() {
        log.interface = interface_to_show(known);
    }
    if let Some((vnstat_rx, vnstat_tx)) = vnstat {
        let (tracked_rx_now, tracked_tx_now) = tracked_totals(&log.apps);
        let effective_rx: u64 = larger(log.total_rx, larger(vnstat_rx, tracked_rx_now));
        let effective_tx: u64 = larger(log.total_tx, larger(vnstat_tx, tracked_tx_now));
        log.total_rx = effective_rx;
        log.total_tx = effective_tx;
        if effective_rx > tracked_rx_now || effective_tx > tracked_tx_now {
            let open_rx: u64 = effective_rx - tracked_rx_now;
            let open_tx: u64 = effective_tx - tracked_tx_now;
            if open_rx > UNALLOCATED_LIMIT || open_tx > UNALLOCATED_LIMIT {
                proof {
                    lemma_usage_bounds(start.apps, BACKGROUND_APP@);
                }
                book(&mut log.apps, BACKGROUND_APP, open_rx, open_tx);
            }
        }
    }
    assert(log@ =~= synced(start, speeds, opt_view(known), vnstat));
    log
}

/// The log of the day `date` as it is shown on the day `today`: vnStat's
/// totals, which are those of the current day, count for that day alone.
pub fn synced_for(
    log: DailyNetAppLog,
    date: &str,
    today: &str,
    speeds: (u64, u64),
    known: Option<&str>,
    totals: (u64, u64),
) -> (r: DailyNetAppLog)
    requires
        date@ == today@ ==> totals_fit(log@.apps),
    ensures
        r@ == synced(
            log@,
            speeds,
            opt_view(known),
            if date@ == today@ {
                Some(totals)
            } else {
                None
            },
        ),
{
    if same_date(date, today) {
        get_synced_app_log(log, speeds, known, Some(totals))
    } else {
        get_synced_app_log(log, speeds, known, None)
    }
}

} // verus!
