//! Booking the traffic of each interval under the applications that were
//! active in it.

use vstd::prelude::*;

use crate::daily_log::{
    book, booked, booking_adds_up, tracked_rx, tracked_tx, usage_of, usage_under, usages,
    AppNetUsage, DailyNetAppLog, LogView, UsageView,
};
use crate::name_map::{
    ascending, lemma_pairs_map_names, lemma_pairs_map_values, lemma_sum_empty, lemma_sum_insert,
    lemma_sum_remove, pairs_map, sum, text_before, text_order_is_strict, NameMap,
};

verus! {

/// The name under which traffic is booked in whose interval no application
/// moved anything.
pub const SERVICES_APP: &'static str = "System / Services";

/// The bytes that the interface received and sent in an interval.
#[derive(Clone, Copy, PartialEq, Eq, Structural, Debug)]
pub struct Interval {
    pub rx: u64,
    pub tx: u64,
}

impl View for Interval {
    type V = UsageView;

    open spec fn view(&self) -> UsageView {
        UsageView { rx: self.rx as nat, tx: self.tx as nat }
    }
}

/// By how much a counter has grown. A counter that was reset has not grown.
pub open spec fn growth(before: nat, now: nat) -> nat {
    if now >= before {
        (now - before) as nat
    } else {
        0
    }
}

/// The numbers of a map, without a limit.
pub open spec fn numbers(m: Map<Seq<char>, u64>) -> Map<Seq<char>, nat> {
    m.map_values(|n: u64| n as nat)
}

/// The number by a name; zero if the name does not occur.
pub open spec fn number_of(m: Map<Seq<char>, nat>, name: Seq<char>) -> nat {
    if m.contains_key(name) {
        m[name]
    } else {
        0
    }
}

/// The texts and numbers of samples.
pub open spec fn sample_views(samples: Seq<(String, u64)>) -> Seq<(Seq<char>, nat)> {
    Seq::new(samples.len(), |i: int| (samples[i].0@, samples[i].1 as nat))
}

/// What the processes of each application have read and written together.
pub open spec fn io_by_app(samples: Seq<(Seq<char>, nat)>) -> Map<Seq<char>, nat>
    decreases samples.len(),
{
    if samples.len() == 0 {
        Map::empty()
    } else {
        let rest = io_by_app(samples.drop_last());
        let (name, n) = samples.last();
        rest.insert(name, number_of(rest, name) + n)
    }
}

/// What all samples add up to.
pub open spec fn sample_sum(samples: Seq<(Seq<char>, nat)>) -> nat
    decreases samples.len(),
{
    if samples.len() == 0 {
        0
    } else {
        sample_sum(samples.drop_last()) + samples.last().1
    }
}

/// Whether every number of the map can be counted.
pub open spec fn numbers_fit(m: Map<Seq<char>, nat>) -> bool {
    forall|k: Seq<char>| #[trigger] m.contains_key(k) ==> m[k] <= u64::MAX
}

/// By how much the counter of each application has grown, for those whose
/// counter has. An application that was not seen before began at zero.
pub open spec fn grown(before: Map<Seq<char>, nat>, now: Map<Seq<char>, nat>) -> Map<
    Seq<char>,
    nat,
> {
    Map::new(
        |k: Seq<char>| now.contains_key(k) && now[k] > number_of(before, k),
        |k: Seq<char>| growth(number_of(before, k), now[k]),
    )
}

/// The usage by application after the shares of an interval were added.
pub open spec fn merged(
    apps: Map<Seq<char>, UsageView>,
    shares: Map<Seq<char>, UsageView>,
) -> Map<Seq<char>, UsageView> {
    Map::new(
        |k: Seq<char>| apps.contains_key(k) || shares.contains_key(k),
        |k: Seq<char>|
            UsageView {
                rx: usage_of(apps, k).rx + usage_of(shares, k).rx,
                tx: usage_of(apps, k).tx + usage_of(shares, k).tx,
            },
    )
}

/// A log after the traffic of an interval was booked: where the counters of
/// the applications have grown by anything in all, under the applications that
/// have a share in it, else under the name for services.
pub open spec fn recorded(
    log: LogView,
    interval: UsageView,
    io_total: nat,
    shares: Map<Seq<char>, UsageView>,
) -> LogView {
    LogView {
        total_rx: log.total_rx + interval.rx,
        total_tx: log.total_tx + interval.tx,
        apps: if io_total > 0 {
            merged(log.apps, shares)
        } else {
            booked(log.apps, SERVICES_APP@, interval.rx, interval.tx)
        },
        ..log
    }
}

/// Whether every number of the log can be counted.
pub open spec fn log_fits(log: LogView) -> bool {
    &&& log.total_rx <= u64::MAX
    &&& log.total_tx <= u64::MAX
    &&& forall|k: Seq<char>| #[trigger]
        log.apps.contains_key(k) ==> log.apps[k].rx <= u64::MAX && log.apps[k].tx <= u64::MAX
}

/// A counter has grown by what was added to it, and a counter that stands lower
/// than before has not grown.
pub proof fn growth_is_what_was_added(before: nat, added: nat)
    ensures
        growth(before, before + added) == added,
        growth(before + added, before) == 0,
{
}

/// Counters keep their names and their numbers, and samples their order.
pub proof fn counters_are_seen_as_they_are(
    m: Map<Seq<char>, u64>,
    name: Seq<char>,
    samples: Seq<(String, u64)>,
    i: int,
)
    ensures
        numbers(m).contains_key(name) == m.contains_key(name),
        m.contains_key(name) ==> numbers(m)[name] == m[name],
        sample_views(samples).len() == samples.len(),
        0 <= i < samples.len() ==> sample_views(samples)[i].0 == samples[i].0@ && sample_views(
            samples,
        )[i].1 == samples[i].1,
{
}

/// An application is listed if and only if its counter stands higher than
/// before, or than zero if it was not there before, and then with the
/// difference.
pub proof fn higher_counters_have_grown(
    before: Map<Seq<char>, nat>,
    now: Map<Seq<char>, nat>,
    name: Seq<char>,
)
    ensures
        !now.contains_key(name) ==> !grown(before, now).contains_key(name),
        now.contains_key(name) && before.contains_key(name) ==> {
            &&& grown(before, now).contains_key(name) == (now[name] > before[name])
            &&& now[name] > before[name] ==> grown(before, now)[name] + before[name] == now[name]
        },
        now.contains_key(name) && !before.contains_key(name) ==> {
            &&& grown(before, now).contains_key(name) == (now[name] > 0)
            &&& now[name] > 0 ==> grown(before, now)[name] == now[name]
        },
{
}

/// The samples of an application add up, wherever they stand: one sample is
/// listed with its number, and the samples of two parts give what both give.
pub proof fn samples_of_an_application_add_up(
    a: Seq<(Seq<char>, nat)>,
    b: Seq<(Seq<char>, nat)>,
    name: Seq<char>,
    n: nat,
)
    ensures
        io_by_app(a + b).contains_key(name) == (io_by_app(a).contains_key(name) || io_by_app(
            b,
        ).contains_key(name)),
        io_by_app(a).contains_key(name) && io_by_app(b).contains_key(name) ==> io_by_app(
            a + b,
        )[name] == io_by_app(a)[name] + io_by_app(b)[name],
        io_by_app(a).contains_key(name) && !io_by_app(b).contains_key(name) ==> io_by_app(
            a + b,
        )[name] == io_by_app(a)[name],
        !io_by_app(a).contains_key(name) && io_by_app(b).contains_key(name) ==> io_by_app(
            a + b,
        )[name] == io_by_app(b)[name],
        io_by_app(seq![(name, n)]) == Map::<Seq<char>, nat>::empty().insert(name, n),
        io_by_app(Seq::empty()) == Map::<Seq<char>, nat>::empty(),
    decreases b.len(),
{
    let one = seq![(name, n)];
    assert(one.drop_last() =~= Seq::<(Seq<char>, nat)>::empty());
    assert(io_by_app(one.drop_last()) =~= Map::<Seq<char>, nat>::empty());
    if b.len() == 0 {
        assert(a + b =~= a);
    } else {
        let (last, m) = b.last();
        samples_of_an_application_add_up(a, b.drop_last(), name, n);
        samples_of_an_application_add_up(a, b.drop_last(), last, n);
        assert((a + b).drop_last() =~= a + b.drop_last());
        assert((a + b).last() == b.last());
    }
}

/// Where the counters of the applications have grown, each name gets its own
/// share and no other; where none has, the name for services gets all that the
/// interface moved, and the shares do not count.
pub proof fn shares_are_booked_under_their_own_names(
    log: LogView,
    interval: UsageView,
    io_total: nat,
    shares: Map<Seq<char>, UsageView>,
    name: Seq<char>,
)
    ensures
        ({
            let r = recorded(log, interval, io_total, shares).apps;
            let services = "System / Services"@;
            let had_rx = if log.apps.contains_key(name) {
                log.apps[name].rx
            } else {
                0
            };
            let had_tx = if log.apps.contains_key(name) {
                log.apps[name].tx
            } else {
                0
            };
            if io_total > 0 {
                &&& r.contains_key(name) == (log.apps.contains_key(name) || shares.contains_key(
                    name,
                ))
                &&& shares.contains_key(name) ==> r[name].rx == had_rx + shares[name].rx
                    && r[name].tx == had_tx + shares[name].tx
                &&& !shares.contains_key(name) && log.apps.contains_key(name) ==> r[name]
                    == log.apps[name]
            } else {
                &&& name == services ==> r.contains_key(name) && r[name].rx == had_rx + interval.rx
                    && r[name].tx == had_tx + interval.tx
                &&& name != services ==> r.contains_key(name) == log.apps.contains_key(name)
                &&& name != services && log.apps.contains_key(name) ==> r[name] == log.apps[name]
            }
        }),
{
}

/// Measuring in between loses nothing; and as long as the counter is not reset
/// it counts nothing twice.
pub proof fn growth_is_never_lost(a: nat, b: nat, c: nat)
    ensures
        growth(a, c) <= growth(a, b) + growth(b, c),
        a <= b <= c ==> growth(a, c) == growth(a, b) + growth(b, c),
{
}

/// Adding up by application loses nothing.
pub proof fn io_by_app_keeps_the_sum(samples: Seq<(Seq<char>, nat)>)
    ensures
        io_by_app(samples).dom().finite(),
        sum(io_by_app(samples)) == sample_sum(samples),
    decreases samples.len(),
{
    if samples.len() == 0 {
        lemma_sum_empty(io_by_app(samples));
    } else {
        let rest = io_by_app(samples.drop_last());
        io_by_app_keeps_the_sum(samples.drop_last());
        let (name, n) = samples.last();
        lemma_sum_insert(rest, name, number_of(rest, name) + n);
    }
}

/// Some application's counter has grown if and only if the growth of all adds
/// up to something; and then each one listed has grown.
pub proof fn growth_adds_up_to_something(
    before: Map<Seq<char>, nat>,
    now: Map<Seq<char>, nat>,
)
    requires
        now.dom().finite(),
    ensures
        grown(before, now).dom().finite(),
        sum(grown(before, now)) > 0 <==> !(grown(before, now).dom() =~= Set::<Seq<char>>::empty()),
        forall|k: Seq<char>| #[trigger]
            grown(before, now).contains_key(k) ==> grown(before, now)[k] > 0,
{
    let g = grown(before, now);
    assert(g.dom().subset_of(now.dom()));
    vstd::set_lib::lemma_len_subset(g.dom(), now.dom());
    if g.dom() =~= Set::<Seq<char>>::empty() {
        lemma_sum_empty(g);
    } else {
        let k = choose|k: Seq<char>| g.dom().contains(k);
        assert(g.contains_key(k));
        lemma_sum_remove(g, k);
    }
}

/// The same counters again have grown by nothing.
pub proof fn no_growth_without_change(now: Map<Seq<char>, nat>)
    ensures
        grown(now, now) == Map::<Seq<char>, nat>::empty(),
{
    assert(grown(now, now) =~= Map::<Seq<char>, nat>::empty());
}

/// Shares add to what all applications moved what they add up to.
pub proof fn shares_add_up(apps: Map<Seq<char>, UsageView>, shares: Map<Seq<char>, UsageView>)
    requires
        apps.dom().finite(),
        shares.dom().finite(),
    ensures
        merged(apps, shares).dom().finite(),
        tracked_rx(merged(apps, shares)) == tracked_rx(apps) + tracked_rx(shares),
        tracked_tx(merged(apps, shares)) == tracked_tx(apps) + tracked_tx(shares),
    decreases shares.dom().len(),
{
    if shares.dom() =~= Set::<Seq<char>>::empty() {
        assert(merged(apps, shares) =~= apps);
        lemma_sum_empty(crate::daily_log::received(shares));
        lemma_sum_empty(crate::daily_log::sent(shares));
    } else {
        let k = shares.dom().choose();
        assert(shares.dom().contains(k));
        let rest = shares.remove(k);
        assert(rest.dom() =~= shares.dom().remove(k));
        shares_add_up(apps, rest);
        let u = shares[k];
        assert(merged(apps, shares) =~= booked(merged(apps, rest), k, u.rx, u.tx));
        booking_adds_up(merged(apps, rest), k, u.rx, u.tx);
        assert(booked(rest, k, u.rx, u.tx) =~= shares);
        booking_adds_up(rest, k, u.rx, u.tx);
    }
}

/// Booking an interval adds to the totals exactly what the interface moved,
/// and to what is booked exactly the shares, or, where no application's counter
/// has grown, again what the interface moved; and it takes nothing away from
/// anyone.
pub proof fn recording_adds_the_interval(
    log: LogView,
    interval: UsageView,
    io_total: nat,
    shares: Map<Seq<char>, UsageView>,
    name: Seq<char>,
)
    requires
        log.apps.dom().finite(),
        shares.dom().finite(),
    ensures
        ({
            let r = recorded(log, interval, io_total, shares);
            &&& r.total_rx == log.total_rx + interval.rx
            &&& r.total_tx == log.total_tx + interval.tx
            &&& tracked_rx(r.apps) == tracked_rx(log.apps) + if io_total > 0 {
                tracked_rx(shares)
            } else {
                interval.rx
            }
            &&& tracked_tx(r.apps) == tracked_tx(log.apps) + if io_total > 0 {
                tracked_tx(shares)
            } else {
                interval.tx
            }
            &&& usage_of(r.apps, name).rx >= usage_of(log.apps, name).rx
            &&& usage_of(r.apps, name).tx >= usage_of(log.apps, name).tx
            &&& r.date == log.date && r.interface == log.interface
            &&& r.speed_rx == log.speed_rx && r.speed_tx == log.speed_tx
        }),
{
    shares_add_up(log.apps, shares);
    booking_adds_up(log.apps, SERVICES_APP@, interval.rx, interval.tx);
}

/// An application whose counter stood still gains nothing: where the shares are
/// those of the applications whose counters have grown, what is booked under
/// any other name stays as it was, but for the name for services where no
/// counter has grown at all.
pub proof fn still_applications_gain_nothing(
    log: LogView,
    interval: UsageView,
    before: Map<Seq<char>, nat>,
    now: Map<Seq<char>, nat>,
    shares: Map<Seq<char>, UsageView>,
    name: Seq<char>,
)
    requires
        shares.dom() == grown(before, now).dom(),
        !grown(before, now).contains_key(name),
        name != SERVICES_APP@ || sum(grown(before, now)) > 0,
    ensures
        ({
            let r = recorded(log, interval, sum(grown(before, now)), shares);
            &&& r.apps.contains_key(name) == log.apps.contains_key(name)
            &&& usage_of(r.apps, name) == usage_of(log.apps, name)
        }),
{
    assert(shares.contains_key(name) == shares.dom().contains(name));
}

/// What a tracker remembers, as numbers without a limit.
#[verifier::ext_equal]
pub struct TrackerView {
    pub rx: nat,
    pub tx: nat,
    pub io: Map<Seq<char>, nat>,
}

/// What is read at the end of an interval: the counters of the interface and of
/// the applications, and how the traffic is divided.
pub struct Tick {
    pub rx: nat,
    pub tx: nat,
    pub io: Map<Seq<char>, nat>,
    pub shares: Map<Seq<char>, UsageView>,
}

/// What the interface moved in the interval that ends with this tick.
pub open spec fn moved(tracker: TrackerView, tick: Tick) -> UsageView {
    UsageView { rx: growth(tracker.rx, tick.rx), tx: growth(tracker.tx, tick.tx) }
}

/// What a tracker remembers after the counters of the interface were measured.
pub open spec fn measured(tracker: TrackerView, rx: nat, tx: nat) -> TrackerView {
    TrackerView { rx, tx, ..tracker }
}

/// What a tracker remembers after the growth of the applications' counters was
/// taken.
pub open spec fn taken(tracker: TrackerView, io: Map<Seq<char>, nat>) -> TrackerView {
    TrackerView { io, ..tracker }
}

/// What a tracker remembers after a tick. The applications are looked at only
/// where there is traffic to book.
pub open spec fn tracker_after(tracker: TrackerView, tick: Tick) -> TrackerView {
    let interval = moved(tracker, tick);
    TrackerView {
        rx: tick.rx,
        tx: tick.tx,
        io: if interval.rx > 0 || interval.tx > 0 {
            tick.io
        } else {
            tracker.io
        },
    }
}

/// A log after a tick.
pub open spec fn log_after(tracker: TrackerView, log: LogView, tick: Tick) -> LogView {
    let interval = moved(tracker, tick);
    if interval.rx > 0 || interval.tx > 0 {
        recorded(log, interval, sum(grown(tracker.io, tick.io)), tick.shares)
    } else {
        log
    }
}

/// What is remembered and what is booked after several ticks.
pub open spec fn after_ticks(tracker: TrackerView, log: LogView, ticks: Seq<Tick>) -> (
    TrackerView,
    LogView,
)
    decreases ticks.len(),
{
    if ticks.len() == 0 {
        (tracker, log)
    } else {
        let (t, l) = after_ticks(tracker, log, ticks.drop_last());
        (tracker_after(t, ticks.last()), log_after(t, l, ticks.last()))
    }
}

/// The steps of a tick, one after the other, make the whole of it: the counters
/// of the interface are measured; where these show traffic, the growth of the
/// applications' counters is taken, and the traffic is booked by it; where they
/// show none, nothing else is done.
pub proof fn steps_make_a_tick(tracker: TrackerView, log: LogView, tick: Tick)
    ensures
        ({
            let interval = UsageView {
                rx: growth(tracker.rx, tick.rx),
                tx: growth(tracker.tx, tick.tx),
            };
            let first = measured(tracker, tick.rx, tick.tx);
            if interval.rx > 0 || interval.tx > 0 {
                &&& tracker_after(tracker, tick) == taken(first, tick.io)
                &&& log_after(tracker, log, tick) == recorded(
                    log,
                    interval,
                    sum(grown(first.io, tick.io)),
                    tick.shares,
                )
            } else {
                &&& tracker_after(tracker, tick) == first
                &&& log_after(tracker, log, tick) == log
            }
        }),
{
}

/// A tracker remembers the counters last read: those of the interface always,
/// those of the applications where the interface's stand higher than before.
/// Measuring leaves the applications' counters alone, and taking the growth
/// leaves the interface's alone.
pub proof fn trackers_remember_the_last_readings(tracker: TrackerView, tick: Tick)
    ensures
        ({
            let t = tracker_after(tracker, tick);
            &&& t.rx == tick.rx && t.tx == tick.tx
            &&& tick.rx > tracker.rx || tick.tx > tracker.tx ==> t.io == tick.io
            &&& tick.rx <= tracker.rx && tick.tx <= tracker.tx ==> t.io == tracker.io
        }),
        ({
            let t = measured(tracker, tick.rx, tick.tx);
            t.rx == tick.rx && t.tx == tick.tx && t.io == tracker.io
        }),
        ({
            let t = taken(tracker, tick.io);
            t.rx == tracker.rx && t.tx == tracker.tx && t.io == tick.io
        }),
{
}

/// Whether the counters of the interface never decrease.
pub open spec fn never_decreasing(tracker: TrackerView, ticks: Seq<Tick>) -> bool {
    &&& forall|i: int|
        0 <= i < ticks.len() ==> tracker.rx <= (#[trigger] ticks[i]).rx && tracker.tx <= ticks[i].tx
    &&& forall|i: int, j: int|
        0 <= i <= j < ticks.len() ==> (#[trigger] ticks[i]).rx <= (#[trigger] ticks[j]).rx
            && ticks[i].tx <= ticks[j].tx
}

/// However many intervals there are, the totals of a log grow by no less than
/// the counters of the interface have grown from the first reading to the last;
/// and where the counters never decrease, by exactly that.
pub proof fn totals_grow_with_the_counters(tracker: TrackerView, log: LogView, ticks: Seq<Tick>)
    ensures
        ({
            let (t, l) = after_ticks(tracker, log, ticks);
            &&& ticks.len() > 0 ==> t.rx == ticks.last().rx && t.tx == ticks.last().tx
            &&& l.total_rx >= log.total_rx + growth(tracker.rx, t.rx)
            &&& l.total_tx >= log.total_tx + growth(tracker.tx, t.tx)
            &&& never_decreasing(tracker, ticks) ==> l.total_rx == log.total_rx + (t.rx
                - tracker.rx) && l.total_tx == log.total_tx + (t.tx - tracker.tx)
            &&& l.date == log.date && l.interface == log.interface
        }),
    decreases ticks.len(),
{
    if ticks.len() > 0 {
        let rest = ticks.drop_last();
        totals_grow_with_the_counters(tracker, log, rest);
        let (t, l) = after_ticks(tracker, log, rest);
        let last = ticks.last();
        growth_is_never_lost(tracker.rx, t.rx, last.rx);
        growth_is_never_lost(tracker.tx, t.tx, last.tx);
        if never_decreasing(tracker, ticks) {
            assert forall|i: int, j: int| 0 <= i <= j < rest.len() implies (
            #[trigger] rest[i]).rx <= (#[trigger] rest[j]).rx && rest[i].tx <= rest[j].tx by {
                assert(rest[i] == ticks[i] && rest[j] == ticks[j]);
            }
            assert forall|i: int| 0 <= i < rest.len() implies tracker.rx <= (
            #[trigger] rest[i]).rx && tracker.tx <= rest[i].tx by {
                assert(rest[i] == ticks[i]);
            }
            assert(last == ticks[ticks.len() - 1]);
            if rest.len() > 0 {
                assert(rest.last() == ticks[ticks.len() - 2]);
            }
        }
    }
}

/// Whether the shares of a tick add up to what the interface moved.
pub open spec fn divides_exactly(tracker: TrackerView, tick: Tick) -> bool {
    &&& tick.shares.dom().finite()
    &&& sum(grown(tracker.io, tick.io)) > 0 ==> {
        &&& tracked_rx(tick.shares) == moved(tracker, tick).rx
        &&& tracked_tx(tick.shares) == moved(tracker, tick).tx
    }
}

/// Whether the shares of every tick add up to what the interface moved.
pub open spec fn all_divide_exactly(tracker: TrackerView, log: LogView, ticks: Seq<Tick>) -> bool
    decreases ticks.len(),
{
    ticks.len() > 0 ==> {
        &&& all_divide_exactly(tracker, log, ticks.drop_last())
        &&& divides_exactly(after_ticks(tracker, log, ticks.drop_last()).0, ticks.last())
    }
}

/// Where the shares of every interval add up to what the interface moved in it,
/// what is booked under all names grows by exactly as much as the totals.
pub proof fn exact_divisions_account_for_all(
    tracker: TrackerView,
    log: LogView,
    ticks: Seq<Tick>,
)
    requires
        log.apps.dom().finite(),
        all_divide_exactly(tracker, log, ticks),
    ensures
        ({
            let l = after_ticks(tracker, log, ticks).1;
            &&& l.apps.dom().finite()
            &&& tracked_rx(l.apps) + log.total_rx == tracked_rx(log.apps) + l.total_rx
            &&& tracked_tx(l.apps) + log.total_tx == tracked_tx(log.apps) + l.total_tx
        }),
    decreases ticks.len(),
{
    if ticks.len() > 0 {
        let rest = ticks.drop_last();
        let tick = ticks.last();
        exact_divisions_account_for_all(tracker, log, rest);
        let (t, l) = after_ticks(tracker, log, rest);
        let interval = moved(t, tick);
        shares_add_up(l.apps, tick.shares);
        booking_adds_up(l.apps, SERVICES_APP@, interval.rx, interval.tx);
    }
}

/// The counters of an application among the first samples are no greater than
/// among all.
proof fn lemma_io_by_app_grows(samples: Seq<(Seq<char>, nat)>, n: int, name: Seq<char>)
    requires
        0 <= n <= samples.len(),
    ensures
        number_of(io_by_app(samples.take(n)), name) <= number_of(io_by_app(samples), name),
    decreases samples.len(),
{
    if n < samples.len() {
        lemma_io_by_app_grows(samples.drop_last(), n, name);
        assert(samples.drop_last().take(n) =~= samples.take(n));
    } else {
        assert(samples.take(n) =~= samples);
    }
}

/// What the processes of each application have read and written together, if
/// it can be added up.
fn checked_app_io(samples: &Vec<(String, u64)>) -> (r: Option<NameMap<u64>>)
    ensures
        match r {
            Some(io) => numbers(io@) == io_by_app(sample_views(samples@)) && numbers_fit(
                io_by_app(sample_views(samples@)),
            ),
            None => !numbers_fit(io_by_app(sample_views(samples@))),
        },
{
    let ghost all = sample_views(samples@);
    let mut io: NameMap<u64> = NameMap::new();
    let mut i: usize = 0;
    assert(numbers(io@) =~= io_by_app(all.take(0)));
    while i < samples.len()
        invariant
            i <= samples@.len(),
            all == sample_views(samples@),
            numbers(io@) == io_by_app(all.take(i as int)),
        decreases samples@.len() - i,
    {
        let ghost name = samples@[i as int].0@;
        assert(all.take(i + 1).drop_last() =~= all.take(i as int));
        assert(all.take(i + 1).last() == (name, samples@[i as int].1 as nat));
        let n: u64 = match io.get(samples[i].0.as_str()) {
            Some(n) => n,
            None => 0,
        };
        assert(n == number_of(io_by_app(all.take(i as int)), name));
        if samples[i].1 > u64::MAX - n {
            proof {
                lemma_io_by_app_grows(all, i + 1, name);
                assert(io_by_app(all).contains_key(name));
            }
            return None;
        }
        io.insert(samples[i].0.clone(), n + samples[i].1);
        assert(numbers(io@) =~= io_by_app(all.take(i + 1)));
        i = i + 1;
    }
    proof {
        assert(all.take(i as int) =~= all);
        assert forall|k: Seq<char>| #[trigger] io_by_app(all).contains_key(k) implies io_by_app(
            all,
        )[k] <= u64::MAX by {
            assert(numbers(io@)[k] <= u64::MAX);
        }
    }
    Some(io)
}

/// Whether the counters of each application can be added up.
pub fn app_io_fits(samples: &Vec<(String, u64)>) -> (r: bool)
    ensures
        r == numbers_fit(io_by_app(sample_views(samples@))),
{
    checked_app_io(samples).is_some()
}

/// What the processes of each application have read and written together. A
/// sample is the name and the counter of one process.
pub fn app_io(samples: &Vec<(String, u64)>) -> (r: NameMap<u64>)
    requires
        numbers_fit(io_by_app(sample_views(samples@))),
    ensures
        numbers(r@) == io_by_app(sample_views(samples@)),
{
    checked_app_io(samples).unwrap()
}

/// By how much the counters of the applications have grown: for each one whose
/// counter has, and in all.
pub struct IoDeltas {
    pub apps: NameMap<u64>,
    pub total: u64,
}

/// What has to be remembered from one interval to the next: the bytes that the
/// interface had moved, and the counters of the applications.
pub struct Tracker {
    pub prev_rx: u64,
    pub prev_tx: u64,
    pub prev_app_io: NameMap<u64>,
}

impl View for Tracker {
    type V = TrackerView;

    open spec fn view(&self) -> TrackerView {
        TrackerView {
            rx: self.prev_rx as nat,
            tx: self.prev_tx as nat,
            io: numbers(self.prev_app_io@),
        }
    }
}

/// A map of pairs with one pair more.
proof fn lemma_pairs_step(pairs: Seq<(String, u64)>, i: int)
    requires
        ascending(pairs),
        0 <= i < pairs.len(),
    ensures
        ascending(pairs.take(i)),
        !pairs_map(pairs.take(i)).contains_key(pairs[i].0@),
        pairs_map(pairs.take(i + 1)) == pairs_map(pairs.take(i)).insert(pairs[i].0@, pairs[i].1),
        pairs_map(pairs.take(i)).dom().finite(),
{
    let some = pairs.take(i);
    assert(pairs.take(i + 1).drop_last() =~= some);
    assert forall|a: int, b: int| 0 <= a < b < some.len() implies text_before(
        #[trigger] some[a].0@,
        #[trigger] some[b].0@,
    ) by {
        assert(some[a] == pairs[a] && some[b] == pairs[b]);
    }
    lemma_pairs_map_names(some);
    let k = pairs[i].0@;
    if pairs_map(some).contains_key(k) {
        let a = choose|a: int| 0 <= a < some.len() && #[trigger] some[a].0@ == k;
        assert(text_before(pairs[a].0@, pairs[i].0@));
        text_order_is_strict(k);
    }
}

/// What one pair more does to the growth and to its sum.
proof fn lemma_grown_step(before: Map<Seq<char>, nat>, pairs: Seq<(String, u64)>, i: int)
    requires
        ascending(pairs),
        0 <= i < pairs.len(),
    ensures
        ({
            let some = grown(before, numbers(pairs_map(pairs.take(i))));
            let more = grown(before, numbers(pairs_map(pairs.take(i + 1))));
            let k = pairs[i].0@;
            let d = growth(number_of(before, k), pairs[i].1 as nat);
            &&& !some.contains_key(k)
            &&& more == if d > 0 {
                some.insert(k, d)
            } else {
                some
            }
            &&& sum(more) == sum(some) + d
        }),
{
    lemma_pairs_step(pairs, i);
    let few = numbers(pairs_map(pairs.take(i)));
    let some = grown(before, few);
    let more = grown(before, numbers(pairs_map(pairs.take(i + 1))));
    let k = pairs[i].0@;
    let d = growth(number_of(before, k), pairs[i].1 as nat);
    assert(few.dom() =~= pairs_map(pairs.take(i)).dom());
    assert(some.dom().subset_of(few.dom()));
    vstd::set_lib::lemma_len_subset(some.dom(), few.dom());
    if d > 0 {
        assert(more =~= some.insert(k, d));
        lemma_sum_insert(some, k, d);
    } else {
        assert(more =~= some);
    }
}

/// The growth of the first pairs adds up to no more than that of all.
proof fn lemma_grown_sum_grows(before: Map<Seq<char>, nat>, pairs: Seq<(String, u64)>, i: int)
    requires
        ascending(pairs),
        0 <= i <= pairs.len(),
    ensures
        sum(grown(before, numbers(pairs_map(pairs.take(i))))) <= sum(
            grown(before, numbers(pairs_map(pairs))),
        ),
    decreases pairs.len() - i,
{
    if i < pairs.len() {
        lemma_grown_step(before, pairs, i);
        lemma_grown_sum_grows(before, pairs, i + 1);
    } else {
        assert(pairs.take(i) =~= pairs);
    }
}

impl Interval {
    /// Whether anything was moved, so that there is something to book.
    pub fn has_traffic(&self) -> (r: bool)
        ensures
            r == (self.rx > 0 || self.tx > 0),
    {
        self.rx > 0 || self.tx > 0
    }
}

impl Tracker {
    /// Begins at these counters of the interface, with no application seen.
    pub fn new(rx: u64, tx: u64) -> (r: Self)
        ensures
            r@ == (TrackerView { rx: rx as nat, tx: tx as nat, io: Map::empty() }),
    {
        let r = Tracker { prev_rx: rx, prev_tx: tx, prev_app_io: NameMap::new() };
        assert(numbers(r.prev_app_io@) =~= Map::<Seq<char>, nat>::empty());
        r
    }

    /// By how much the counters of the interface have grown since the last
    /// time.
    pub fn measure(&mut self, rx: u64, tx: u64) -> (r: Interval)
        ensures
            r.rx == growth(old(self)@.rx, rx as nat),
            r.tx == growth(old(self)@.tx, tx as nat),
            final(self)@ == measured(old(self)@, rx as nat, tx as nat),
    {
        let delta_rx: u64 = if rx >= self.prev_rx {
            rx - self.prev_rx
        } else {
            0
        };
        let delta_tx: u64 = if tx >= self.prev_tx {
            tx - self.prev_tx
        } else {
            0
        };
        self.prev_rx = rx;
        self.prev_tx = tx;
        Interval { rx: delta_rx, tx: delta_tx }
    }

    /// By how much the counter of one application has grown.
    fn growth_of(&self, name: &str, now: u64) -> (r: u64)
        ensures
            r == growth(number_of(self@.io, name@), now as nat),
    {
        let before: u64 = match self.prev_app_io.get(name) {
            Some(n) => n,
            None => 0,
        };
        if now >= before {
            now - before
        } else {
            0
        }
    }

    /// By how much the applications' counters have grown, if that can be added
    /// up.
    fn checked_io_deltas(&self, now: &NameMap<u64>) -> (r: Option<IoDeltas>)
        ensures
            match r {
                Some(deltas) => numbers(deltas.apps@) == grown(self@.io, numbers(now@))
                    && deltas.total == sum(grown(self@.io, numbers(now@))),
                None => sum(grown(self@.io, numbers(now@))) > u64::MAX,
            },
    {
        let pairs = now.as_pairs();
        let ghost before = self@.io;
        let mut apps: NameMap<u64> = NameMap::new();
        let mut total: u64 = 0;
        let mut i: usize = 0;
        proof {
            assert(pairs@.take(0) =~= Seq::<(String, u64)>::empty());
            lemma_sum_empty(grown(before, numbers(pairs_map(pairs@.take(0)))));
            assert(numbers(apps@) =~= grown(before, numbers(pairs_map(pairs@.take(0)))));
        }
        while i < pairs.len()
            invariant
                i <= pairs@.len(),
                ascending(pairs@),
                pairs_map(pairs@) == now@,
                before == self@.io,
                numbers(apps@) == grown(before, numbers(pairs_map(pairs@.take(i as int)))),
                total == sum(grown(before, numbers(pairs_map(pairs@.take(i as int))))),
            decreases pairs@.len() - i,
        {
            proof {
                lemma_grown_step(before, pairs@, i as int);
                lemma_grown_sum_grows(before, pairs@, i + 1);
            }
            let ghost so_far = apps@;
            let delta: u64 = self.growth_of(pairs[i].0.as_str(), pairs[i].1);
            if delta > u64::MAX - total {
                return None;
            }
            if delta > 0 {
                apps.insert(pairs[i].0.clone(), delta);
                total = total + delta;
                assert(numbers(apps@) =~= numbers(so_far).insert(
                    pairs@[i as int].0@,
                    delta as nat,
                ));
            }
            i = i + 1;
        }
        assert(pairs@.take(i as int) =~= pairs@);
        Some(IoDeltas { apps, total })
    }

    /// Whether the growth of the applications' counters can be added up.
    pub fn io_deltas_fit(&self, now: &NameMap<u64>) -> (r: bool)
        ensures
            r == (sum(grown(self@.io, numbers(now@))) <= u64::MAX),
    {
        self.checked_io_deltas(now).is_some()
    }

    /// By how much the applications' counters have grown since the last time.
    pub fn take_io_deltas(&mut self, now: NameMap<u64>) -> (r: IoDeltas)
        requires
            sum(grown(old(self)@.io, numbers(now@))) <= u64::MAX,
        ensures
            numbers(r.apps@) == grown(old(self)@.io, numbers(now@)),
            r.total == sum(grown(old(self)@.io, numbers(now@))),
            final(self)@ == taken(old(self)@, numbers(now@)),
    {
        let r = self.checked_io_deltas(&now).unwrap();
        self.prev_app_io = now;
        r
    }
}

/// The parts by name: each part goes to the name at its place.
pub open spec fn divided(pairs: Seq<(String, u64)>, parts: Seq<AppNetUsage>) -> Map<
    Seq<char>,
    AppNetUsage,
>
    decreases pairs.len(),
{
    if pairs.len() == 0 {
        Map::empty()
    } else {
        divided(pairs.drop_last(), parts).insert(pairs.last().0@, parts[pairs.len() - 1])
    }
}

/// Each part goes to the name at its place, and no other name has one.
pub proof fn parts_go_to_the_names_at_their_places(
    pairs: Seq<(String, u64)>,
    parts: Seq<AppNetUsage>,
    i: int,
)
    requires
        ascending(pairs),
        pairs.len() == parts.len(),
    ensures
        divided(pairs, parts).dom() == pairs_map(pairs).dom(),
        0 <= i < pairs.len() ==> divided(pairs, parts).contains_key(pairs[i].0@) && divided(
            pairs,
            parts,
        )[pairs[i].0@] == parts[i],
{
    lemma_parts_at_places(pairs, parts, i);
}

proof fn lemma_parts_at_places(pairs: Seq<(String, u64)>, parts: Seq<AppNetUsage>, i: int)
    requires
        ascending(pairs),
        pairs.len() <= parts.len(),
    ensures
        divided(pairs, parts).dom() == pairs_map(pairs).dom(),
        0 <= i < pairs.len() ==> divided(pairs, parts).contains_key(pairs[i].0@) && divided(
            pairs,
            parts,
        )[pairs[i].0@] == parts[i],
    decreases pairs.len(),
{
    if pairs.len() == 0 {
        assert(divided(pairs, parts).dom() =~= pairs_map(pairs).dom());
    } else {
        let rest = pairs.drop_last();
        let last = pairs.len() - 1;
        assert forall|a: int, b: int| 0 <= a < b < rest.len() implies text_before(
            #[trigger] rest[a].0@,
            #[trigger] rest[b].0@,
        ) by {
            assert(rest[a] == pairs[a] && rest[b] == pairs[b]);
        }
        lemma_parts_at_places(rest, parts, i);
        assert(divided(pairs, parts).dom() =~= pairs_map(pairs).dom());
        if 0 <= i < last {
            assert(rest[i] == pairs[i]);
            assert(text_before(pairs[i].0@, pairs[last].0@));
            text_order_is_strict(pairs[i].0@);
        }
    }
}

/// The shares of the applications whose counters have grown. `parts` holds one
/// share for each of them, in the order of their names.
pub fn shares_of(deltas: &IoDeltas, parts: &Vec<AppNetUsage>) -> (r: NameMap<AppNetUsage>)
    requires
        parts@.len() == deltas.apps.pairs().len(),
    ensures
        r@ == divided(deltas.apps.pairs(), parts@),
        r@.dom() == deltas.apps@.dom(),
        forall|i: int|
            0 <= i < parts@.len() ==> r@[#[trigger] deltas.apps.pairs()[i].0@] == parts@[i],
{
    let pairs = deltas.apps.as_pairs();
    let mut r: NameMap<AppNetUsage> = NameMap::new();
    let mut i: usize = 0;
    assert(r@.dom() =~= pairs_map(pairs@.take(0)).dom());
    while i < pairs.len()
        invariant
            i <= pairs@.len(),
            pairs@.len() == parts@.len(),
            pairs@ == deltas.apps.pairs(),
            ascending(pairs@),
            r@ == divided(pairs@.take(i as int), parts@),
            r@.dom() == pairs_map(pairs@.take(i as int)).dom(),
            forall|k: int| 0 <= k < i ==> r@[#[trigger] pairs@[k].0@] == parts@[k],
        decreases pairs@.len() - i,
    {
        proof {
            lemma_pairs_step(pairs@, i as int);
            assert(pairs@.take(i + 1).drop_last() =~= pairs@.take(i as int));
            assert forall|k: int| 0 <= k < i implies #[trigger] pairs@[k].0@
                != pairs@[i as int].0@ by {
                text_order_is_strict(pairs@[k].0@);
            }
        }
        r.insert(pairs[i].0.clone(), parts[i]);
        assert(r@.dom() =~= pairs_map(pairs@.take(i + 1)).dom());
        i = i + 1;
    }
    assert(pairs@.take(i as int) =~= pairs@);
    r
}

/// The usage after one share more.
proof fn lemma_merged_step(
    apps: Map<Seq<char>, UsageView>,
    pairs: Seq<(String, AppNetUsage)>,
    i: int,
)
    requires
        ascending(pairs),
        0 <= i < pairs.len(),
    ensures
        ({
            let some = merged(apps, usages(pairs_map(pairs.take(i))));
            let k = pairs[i].0@;
            let u = pairs[i].1;
            &&& usage_of(some, k) == usage_of(apps, k)
            &&& merged(apps, usages(pairs_map(pairs.take(i + 1)))) == booked(
                some,
                k,
                u.rx as nat,
                u.tx as nat,
            )
            &&& usages(pairs_map(pairs)).contains_key(k)
            &&& usages(pairs_map(pairs))[k] == (UsageView { rx: u.rx as nat, tx: u.tx as nat })
        }),
{
    let few = pairs.take(i);
    assert(pairs.take(i + 1).drop_last() =~= few);
    lemma_pairs_map_names(few);
    lemma_pairs_map_names(pairs);
    lemma_pairs_map_values(pairs);
    let k = pairs[i].0@;
    let u = pairs[i].1;
    if pairs_map(few).contains_key(k) {
        let a = choose|a: int| 0 <= a < few.len() && #[trigger] few[a].0@ == k;
        assert(text_before(pairs[a].0@, pairs[i].0@));
        text_order_is_strict(k);
    }
    assert(pairs_map(pairs).contains_key(k));
    assert(merged(apps, usages(pairs_map(pairs.take(i + 1)))) =~= booked(
        merged(apps, usages(pairs_map(few))),
        k,
        u.rx as nat,
        u.tx as nat,
    ));
}

/// Whether the traffic of an interval can be booked.
pub fn traffic_fits(
    log: &DailyNetAppLog,
    interval: Interval,
    io_total: u64,
    shares: &NameMap<AppNetUsage>,
) -> (r: bool)
    ensures
        r == log_fits(recorded(log@, interval@, io_total as nat, usages(shares@))),
{
    let ghost after = recorded(log@, interval@, io_total as nat, usages(shares@));
    if interval.rx > u64::MAX - log.total_rx || interval.tx > u64::MAX - log.total_tx {
        return false;
    }
    if io_total == 0 {
        let u = usage_under(&log.apps, SERVICES_APP);
        assert(after.apps.contains_key(SERVICES_APP@));
        return interval.rx <= u64::MAX - u.rx && interval.tx <= u64::MAX - u.tx;
    }
    let pairs = shares.as_pairs();
    proof {
        lemma_pairs_map_names(pairs@);
        lemma_pairs_map_values(pairs@);
    }
    let mut i: usize = 0;
    while i < pairs.len()
        invariant
            i <= pairs@.len(),
            pairs_map(pairs@) == shares@,
            after.apps == merged(log@.apps, usages(shares@)),
            forall|a: int|
                0 <= a < pairs@.len() ==> shares@.contains_key(#[trigger] pairs@[a].0@)
                    && shares@[pairs@[a].0@] == pairs@[a].1,
            forall|a: int|
                0 <= a < i ==> after.apps[#[trigger] pairs@[a].0@].rx <= u64::MAX
                    && after.apps[pairs@[a].0@].tx <= u64::MAX,
            after == recorded(log@, interval@, io_total as nat, usages(shares@)),
        decreases pairs@.len() - i,
    {
        let u = usage_under(&log.apps, pairs[i].0.as_str());
        let s = pairs[i].1;
        assert(after.apps.contains_key(pairs@[i as int].0@));
        assert(after.apps[pairs@[i as int].0@] == (UsageView {
            rx: (u.rx + s.rx) as nat,
            tx: (u.tx + s.tx) as nat,
        }));
        if s.rx > u64::MAX - u.rx || s.tx > u64::MAX - u.tx {
            return false;
        }
        i = i + 1;
    }
    proof {
        assert forall|k: Seq<char>| #[trigger] after.apps.contains_key(k) implies after.apps[k].rx
            <= u64::MAX && after.apps[k].tx <= u64::MAX by {
            if shares@.contains_key(k) {
                let a = choose|a: int| 0 <= a < pairs@.len() && #[trigger] pairs@[a].0@ == k;
                assert(after.apps[pairs@[a].0@].rx <= u64::MAX);
            }
        }
    }
    true
}

/// Books the traffic of an interval. `io_total` is by how much the counters of
/// the applications have grown in all, and `shares` says how the traffic is
/// divided among those whose counters have.
pub fn record_traffic(
    log: &mut DailyNetAppLog,
    interval: Interval,
    io_total: u64,
    shares: &NameMap<AppNetUsage>,
)
    requires
        log_fits(recorded(old(log)@, interval@, io_total as nat, usages(shares@))),
    ensures
        final(log)@ == recorded(old(log)@, interval@, io_total as nat, usages(shares@)),
{
    let ghost start = log@;
    let ghost after = recorded(log@, interval@, io_total as nat, usages(shares@));
    log.total_rx = log.total_rx + interval.rx;
    log.total_tx = log.total_tx + interval.tx;
    if io_total > 0 {
        let pairs = shares.as_pairs();
        let mut i: usize = 0;
        assert(usages(log.apps@) =~= merged(start.apps, usages(pairs_map(pairs@.take(0)))));
        while i < pairs.len()
            invariant
                i <= pairs@.len(),
                ascending(pairs@),
                pairs_map(pairs@) == shares@,
                log_fits(after),
                after.apps == merged(start.apps, usages(shares@)),
                usages(log.apps@) == merged(
                    start.apps,
                    usages(pairs_map(pairs@.take(i as int))),
                ),
                log@ == (LogView { apps: log@.apps, ..after }),
            decreases pairs@.len() - i,
        {
            proof {
                lemma_merged_step(start.apps, pairs@, i as int);
                assert(after.apps.contains_key(pairs@[i as int].0@));
            }
            let u = pairs[i].1;
            book(&mut log.apps, pairs[i].0.as_str(), u.rx, u.tx);
            i = i + 1;
        }
        assert(pairs@.take(i as int) =~= pairs@);
    } else {
        assert(after.apps.contains_key(SERVICES_APP@));
        book(&mut log.apps, SERVICES_APP, interval.rx, interval.tx);
    }
    assert(log@ =~= after);
}

/// Whether the traffic of an interval can be booked by these parts.
pub fn book_interval_fits(
    log: &DailyNetAppLog,
    interval: Interval,
    deltas: &IoDeltas,
    parts: &Vec<AppNetUsage>,
) -> (r: bool)
    requires
        parts@.len() == deltas.apps.pairs().len(),
    ensures
        r == log_fits(
            recorded(
                log@,
                interval@,
                deltas.total as nat,
                usages(divided(deltas.apps.pairs(), parts@)),
            ),
        ),
{
    let shares = shares_of(deltas, parts);
    traffic_fits(log, interval, deltas.total, &shares)
}

/// Books the traffic of an interval. `deltas` is by how much the counters of
/// the applications have grown, and `parts` holds one share for each of those
/// whose counter has, in the order of their names.
pub fn book_interval(
    log: &mut DailyNetAppLog,
    interval: Interval,
    deltas: &IoDeltas,
    parts: &Vec<AppNetUsage>,
)
    requires
        parts@.len() == deltas.apps.pairs().len(),
        log_fits(
            recorded(
                old(log)@,
                interval@,
                deltas.total as nat,
                usages(divided(deltas.apps.pairs(), parts@)),
            ),
        ),
    ensures
        final(log)@ == recorded(
            old(log)@,
            interval@,
            deltas.total as nat,
            usages(divided(deltas.apps.pairs(), parts@)),
        ),
{
    let shares = shares_of(deltas, parts);
    record_traffic(log, interval, deltas.total, &shares);
}

} // verus!
