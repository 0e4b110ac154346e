//! The processes that hold network sockets, from the socket table that
//! `ss -tupn` prints.

use std::collections::BTreeMap;

use vstd::prelude::*;
use vstd::utf8::{decode_utf8, valid_utf8};

use crate::number::{all_digits, decimal, digits_value, lemma_decimal, parse_u32, u32_value};
use crate::text::{
    chars_of, decode_lossy, find, first_lines_are_cut_off, has_part, in_class, index_of, is_digit,
    is_text, leading, leading_len, lemma_find_char, lemma_find_is, lemma_leading_is,
    lemma_trim_part, lines, lines_of_two_parts, occurs, opt_lossy, opt_view, parts_are_found,
    position_of, skip, split_line, string_of, take, trim, trimmed, trimming_again_changes_nothing,
    CharClass,
};

verus! {

/// Whether traffic is booked under this name: it is not empty, it is neither
/// the dashboard itself nor the tool that prints the table, and it is no path.
pub open spec fn tracked_name(name: Seq<char>) -> bool {
    &&& name.len() > 0
    &&& name != "vnstat-gui"@
    &&& name != "ss"@
    &&& find(name, seq!['/']) is None
}

/// The process number that follows the first `pid=` of the text.
pub open spec fn pid_in(s: Seq<char>) -> Option<nat> {
    match find(s, "pid="@) {
        Some(i) => {
            let t = s.skip(i + 4);
            u32_value(t.take(leading(t, CharClass::Digit) as int))
        },
        None => None,
    }
}

/// The process that a quoted name and the text from its closing quote on are
/// about.
pub open spec fn process_of(quoted: Seq<char>, remainder: Seq<char>) -> Option<(u32, Seq<char>)> {
    match pid_in(remainder) {
        Some(pid) => if tracked_name(trim(quoted)) {
            Some((pid as u32, trim(quoted)))
        } else {
            None
        },
        None => None,
    }
}

/// The processes that a line is about: each quoted name, with the first
/// process number behind it.
pub open spec fn line_processes(line: Seq<char>) -> Seq<(u32, Seq<char>)>
    decreases line.len(),
{
    match find(line, seq!['"']) {
        Some(i) => {
            let after = line.skip(i + 1);
            match find(after, seq!['"']) {
                Some(j) => if 0 <= i < line.len() && 0 <= j < after.len() {
                    let others = line_processes(after.skip(j + 1));
                    match process_of(after.take(j), after.skip(j)) {
                        Some(p) => seq![p] + others,
                        None => others,
                    }
                } else {
                    Seq::empty()
                },
                None => Seq::empty(),
            }
        },
        None => Seq::empty(),
    }
}

/// The processes that these lines are about; only lines with a column of users
/// count.
pub open spec fn processes(ls: Seq<Seq<char>>) -> Seq<(u32, Seq<char>)>
    decreases ls.len(),
{
    if ls.len() == 0 {
        Seq::empty()
    } else if find(ls[0], "users:"@) is Some {
        line_processes(ls[0]) + processes(ls.drop_first())
    } else {
        processes(ls.drop_first())
    }
}

/// The names by process number; of several names for one number the last
/// stays.
pub open spec fn names_by_pid(ps: Seq<(u32, Seq<char>)>) -> Map<u32, Seq<char>>
    decreases ps.len(),
{
    if ps.len() == 0 {
        Map::empty()
    } else {
        names_by_pid(ps.drop_last()).insert(ps.last().0, ps.last().1)
    }
}

/// The names of the processes that hold sockets, by process number; none where
/// the table could not be had.
pub open spec fn active_net_app_pids(table: Option<Seq<char>>) -> Map<u32, Seq<char>> {
    match table {
        Some(text) => names_by_pid(processes(lines(text))),
        None => Map::empty(),
    }
}

/// A map with texts in place of its strings.
pub open spec fn text_values(m: Map<u32, String>) -> Map<u32, Seq<char>> {
    m.map_values(|s: String| s@)
}

/// Whether traffic is booked under this name, and it has neither blanks around
/// it nor a quote in it.
spec fn clean_name(name: Seq<char>) -> bool {
    &&& tracked_name(name)
    &&& trim(name) == name
    &&& find(name, seq!['"']) is None
}

/// What stands between two quotes that follow each other has no quote in it,
/// nor blanks around it once it is trimmed.
proof fn lemma_clean_name(line: Seq<char>, i: int, j: int)
    requires
        0 <= i < line.len(),
        find(line.skip(i + 1), seq!['"']) == Some(j),
    ensures
        trim(trim(line.skip(i + 1).take(j))) == trim(line.skip(i + 1).take(j)),
        find(trim(line.skip(i + 1).take(j)), seq!['"']) is None,
{
    let after = line.skip(i + 1);
    let quoted = after.take(j);
    let name = trim(quoted);
    lemma_find_char(after, '"');
    trimming_again_changes_nothing(quoted);
    lemma_trim_part(quoted);
    lemma_find_char(name, '"');
    if let Some(k) = find(name, seq!['"']) {
        assert(quoted.contains(name[k]));
        let m = choose|m: int| 0 <= m < quoted.len() && quoted[m] == name[k];
        assert(after[m] == '"');
    }
}

proof fn lemma_line_processes_clean(line: Seq<char>)
    ensures
        forall|i: int|
            0 <= i < line_processes(line).len() ==> clean_name(
                #[trigger] line_processes(line)[i].1,
            ),
    decreases line.len(),
{
    if let Some(i) = find(line, seq!['"']) {
        let after = line.skip(i + 1);
        if let Some(j) = find(after, seq!['"']) {
            if 0 <= i < line.len() && 0 <= j < after.len() {
                lemma_line_processes_clean(after.skip(j + 1));
                let others = line_processes(after.skip(j + 1));
                assert forall|k: int| 0 <= k < line_processes(line).len() implies clean_name(
                    #[trigger] line_processes(line)[k].1,
                ) by {
                    match process_of(after.take(j), after.skip(j)) {
                        Some(p) => {
                            lemma_clean_name(line, i, j);
                            if k > 0 {
                                assert(line_processes(line)[k] == others[k - 1]);
                            }
                        },
                        None => {
                            assert(line_processes(line)[k] == others[k]);
                        },
                    }
                }
            }
        }
    }
}

proof fn lemma_processes_clean(ls: Seq<Seq<char>>)
    ensures
        forall|i: int|
            0 <= i < processes(ls).len() ==> clean_name(#[trigger] processes(ls)[i].1),
    decreases ls.len(),
{
    if ls.len() > 0 {
        lemma_processes_clean(ls.drop_first());
        lemma_line_processes_clean(ls[0]);
        let first = line_processes(ls[0]);
        let others = processes(ls.drop_first());
        assert forall|i: int| 0 <= i < processes(ls).len() implies clean_name(
            #[trigger] processes(ls)[i].1,
        ) by {
            if find(ls[0], "users:"@) is Some {
                if i < first.len() {
                    assert(processes(ls)[i] == first[i]);
                } else {
                    assert(processes(ls)[i] == others[i - first.len()]);
                }
            } else {
                assert(processes(ls)[i] == others[i]);
            }
        }
    }
}

proof fn lemma_names_by_pid_clean(ps: Seq<(u32, Seq<char>)>)
    requires
        forall|i: int| 0 <= i < ps.len() ==> clean_name(#[trigger] ps[i].1),
    ensures
        forall|pid: u32| #[trigger]
            names_by_pid(ps).contains_key(pid) ==> clean_name(names_by_pid(ps)[pid]),
    decreases ps.len(),
{
    if ps.len() > 0 {
        assert forall|i: int| 0 <= i < ps.drop_last().len() implies clean_name(
            #[trigger] ps.drop_last()[i].1,
        ) by {
            assert(ps.drop_last()[i] == ps[i]);
        }
        lemma_names_by_pid_clean(ps.drop_last());
        let rest = names_by_pid(ps.drop_last());
        assert forall|pid: u32| #[trigger] names_by_pid(ps).contains_key(pid) implies clean_name(
            names_by_pid(ps)[pid],
        ) by {
            if pid == ps.last().0 {
                assert(clean_name(ps[ps.len() - 1].1));
            } else {
                assert(rest.contains_key(pid));
            }
        }
    }
}

/// No table makes the dashboard or the tool that prints the table appear, nor
/// an empty name or a path; and no name that appears has blanks around it or
/// holds a quote.
pub proof fn only_tracked_names_appear(table: Option<Seq<char>>, pid: u32)
    requires
        active_net_app_pids(table).contains_key(pid),
    ensures
        ({
            let name = active_net_app_pids(table)[pid];
            &&& tracked_name(name)
            &&& name.len() > 0 && name != "vnstat-gui"@ && name != "ss"@
            &&& !occurs('/', name) && !occurs('"', name)
            &&& trim(name) == name
            &&& find(name, seq!['"']) is None
        }),
{
    if let Some(text) = table {
        lemma_processes_clean(lines(text));
        lemma_names_by_pid_clean(processes(lines(text)));
        let name = active_net_app_pids(table)[pid];
        lemma_find_char(name, '/');
        lemma_find_char(name, '"');
    }
}

/// How a socket table writes a process: its name in quotes, then its number.
pub open spec fn process_text(pid: u32, name: Seq<char>) -> Seq<char> {
    seq!['"'] + name + "\",pid="@ + decimal(pid as nat)
}

/// Text without a quote makes no difference to the processes behind it.
proof fn lemma_unquoted_start(head: Seq<char>, tail: Seq<char>)
    requires
        find(head, seq!['"']) is None,
    ensures
        line_processes(head + tail) == line_processes(tail),
{
    let all = head + tail;
    let n = head.len() as int;
    lemma_find_char(head, '"');
    lemma_find_char(tail, '"');
    lemma_find_char(all, '"');
    assert forall|k: int| 0 <= k < n implies #[trigger] all[k] != '"' by {
        assert(all[k] == head[k]);
    }
    assert forall|k: int| 0 <= k < tail.len() implies all[n + k] == #[trigger] tail[k] by {}
    match find(tail, seq!['"']) {
        Some(i) => {
            assert(all[n + i] == tail[i]);
            let j = find(all, seq!['"'])->0;
            assert(find(all, seq!['"']) is Some);
            if j < n + i {
                assert(j >= n);
                assert(all[j] == tail[j - n]);
            }
            assert(j == n + i);
            assert(all.skip(j + 1) =~= tail.skip(i + 1));
        },
        None => {
            if let Some(j) = find(all, seq!['"']) {
                assert(j >= n);
                assert(all[j] == tail[j - n]);
            }
        },
    }
}

/// The processes of a line that begins with a quoted name.
proof fn lemma_first_quoted(name: Seq<char>, rest: Seq<char>)
    requires
        find(name, seq!['"']) is None,
    ensures
        line_processes(seq!['"'] + name + seq!['"'] + rest) == match process_of(
            name,
            seq!['"'] + rest,
        ) {
            Some(p) => seq![p] + line_processes(rest),
            None => line_processes(rest),
        },
{
    let line = seq!['"'] + name + seq!['"'] + rest;
    let after = name + seq!['"'] + rest;
    let n = name.len() as int;
    lemma_find_char(line, '"');
    assert(line[0] == '"');
    assert(find(line, seq!['"']) == Some(0int));
    assert(line.skip(1) =~= after);
    lemma_find_char(name, '"');
    lemma_find_char(after, '"');
    assert(after[n] == '"');
    assert forall|k: int| 0 <= k < n implies #[trigger] after[k] != '"' by {
        assert(after[k] == name[k]);
    }
    assert(find(after, seq!['"']) == Some(n));
    assert(after.take(n) =~= name);
    assert(after.skip(n) =~= seq!['"'] + rest);
    assert(after.skip(n + 1) =~= rest);
}

/// The number is the first one behind the closing quote.
proof fn lemma_written_pid(pid: u32, tail: Seq<char>)
    requires
        tail.len() > 0 ==> !is_digit(tail[0]),
    ensures
        pid_in("\",pid="@ + decimal(pid as nat) + tail) == Some(pid as nat),
{
    reveal_strlit("\",pid=");
    reveal_strlit("pid=");
    let digits = decimal(pid as nat);
    let remainder = "\",pid="@ + digits + tail;
    assert forall|k: int| 0 <= k < 2 implies !"pid="@.is_prefix_of(
        #[trigger] remainder.skip(k),
    ) by {
        if "pid="@.is_prefix_of(remainder.skip(k)) {
            assert(remainder.skip(k).subrange(0, 4)[0] == remainder[k]);
        }
    }
    assert("pid="@ =~= remainder.skip(2).subrange(0, 4));
    lemma_find_is(remainder, "pid="@, 2);
    let number = remainder.skip(6);
    assert(number =~= digits + tail);
    lemma_decimal(pid as nat);
    assert forall|k: int| 0 <= k < digits.len() implies is_digit(#[trigger] number[k]) by {
        assert(number[k] == digits[k]);
    }
    if tail.len() > 0 {
        assert(number[digits.len() as int] == tail[0]);
    }
    lemma_leading_is(number, CharClass::Digit, digits.len() as int);
    assert(number.take(digits.len() as int) =~= digits);
    assert(is_digit(digits[0]));
}

/// What stands between the closing quote and the text behind the number has no
/// quote.
proof fn lemma_unquoted_pid(pid: u32)
    ensures
        find(",pid="@ + decimal(pid as nat), seq!['"']) is None,
{
    reveal_strlit(",pid=");
    let digits = decimal(pid as nat);
    let between = ",pid="@ + digits;
    lemma_decimal(pid as nat);
    lemma_find_char(between, '"');
    assert forall|k: int| 0 <= k < between.len() implies #[trigger] between[k] != '"' by {
        if k >= 5 {
            assert(between[k] == digits[k - 5]);
            assert(is_digit(digits[k - 5]));
        }
    }
}

/// A process that a line names under a name that is tracked is found, by its
/// number, and it takes nothing away from the processes behind it.
pub proof fn written_processes_are_found(
    head: Seq<char>,
    pid: u32,
    name: Seq<char>,
    tail: Seq<char>,
)
    requires
        !occurs('"', head),
        !occurs('"', name),
        trim(name).len() > 0,
        trim(name) != "vnstat-gui"@,
        trim(name) != "ss"@,
        !occurs('/', trim(name)),
        tail.len() > 0 ==> !is_digit(tail[0]),
    ensures
        line_processes(head + process_text(pid, name) + tail) == seq![(pid, trim(name))]
            + line_processes(tail),
{
    lemma_find_char(head, '"');
    lemma_find_char(name, '"');
    lemma_find_char(trim(name), '/');
    assert(tracked_name(trim(name)));
    let digits = decimal(pid as nat);
    let between = ",pid="@ + digits;
    let line = seq!['"'] + name + seq!['"'] + (between + tail);
    assert("\",pid="@ =~= seq!['"'] + ",pid="@) by {
        reveal_strlit("\",pid=");
        reveal_strlit(",pid=");
    }
    assert(head + process_text(pid, name) + tail =~= head + line);
    assert(seq!['"'] + (between + tail) =~= "\",pid="@ + digits + tail);
    lemma_unquoted_start(head, line);
    lemma_first_quoted(name, between + tail);
    lemma_written_pid(pid, tail);
    lemma_unquoted_pid(pid);
    lemma_unquoted_start(between, tail);
}

/// The quoted names of a line are taken in turn: each one, without the blanks
/// around it and with the first process number behind its closing quote, then
/// those behind it. One without a number is left out, and so are the empty
/// name, the dashboard, the tool that prints the table, and paths. Without two
/// quotes there is no name.
pub proof fn quoted_names_are_taken_in_turn(
    head: Seq<char>,
    name: Seq<char>,
    rest: Seq<char>,
)
    requires
        !occurs('"', head),
        !occurs('"', name),
    ensures
        ({
            let line = head + (seq!['"'] + name + seq!['"'] + rest);
            let n = trim(name);
            let pid = pid_in(seq!['"'] + rest);
            if pid is Some && n.len() > 0 && n != "vnstat-gui"@ && n != "ss"@ && !occurs('/', n) {
                line_processes(line) == seq![(pid->0 as u32, n)] + line_processes(rest)
            } else {
                line_processes(line) == line_processes(rest)
            }
        }),
        line_processes(head).len() == 0,
        line_processes(head + seq!['"'] + name).len() == 0,
{
    let line = seq!['"'] + name + seq!['"'] + rest;
    lemma_find_char(head, '"');
    lemma_find_char(name, '"');
    lemma_find_char(trim(name), '/');
    lemma_unquoted_start(head, line);
    lemma_first_quoted(name, rest);
    let open = seq!['"'] + name;
    assert(head + seq!['"'] + name =~= head + open);
    lemma_unquoted_start(head, open);
    lemma_find_char(open, '"');
    assert(open[0] == '"');
    assert(open.skip(1) =~= name);
}

/// The process number is what the digits behind the first `pid=` denote, if a
/// process number can be that great; without `pid=` or without digits there is
/// none.
pub proof fn process_numbers_follow_their_label(
    head: Seq<char>,
    digits: Seq<char>,
    tail: Seq<char>,
)
    requires
        forall|j: int|
            0 <= j < head.len() ==> !"pid="@.is_prefix_of(
                #[trigger] (head + "pid="@ + digits + tail).skip(j),
            ),
        all_digits(digits),
        tail.len() > 0 ==> !is_digit(tail[0]),
    ensures
        pid_in(head + "pid="@ + digits + tail) == if digits.len() > 0 && digits_value(digits)
            <= u32::MAX {
            Some(digits_value(digits))
        } else {
            None
        },
        !has_part(head, "pid="@) ==> pid_in(head) is None,
{
    reveal_strlit("pid=");
    let s = head + "pid="@ + digits + tail;
    let n = head.len() as int;
    assert("pid="@ =~= s.skip(n).subrange(0, 4));
    lemma_find_is(s, "pid="@, n);
    let t = s.skip(n + 4);
    assert(t =~= digits + tail);
    assert forall|k: int| 0 <= k < digits.len() implies in_class(
        #[trigger] t[k],
        CharClass::Digit,
    ) by {
        assert(t[k] == digits[k]);
        assert(is_digit(digits[k]));
    }
    if tail.len() > 0 {
        assert(t[digits.len() as int] == tail[0]);
    }
    lemma_leading_is(t, CharClass::Digit, digits.len() as int);
    assert(t.take(digits.len() as int) =~= digits);
    if digits.len() > 0 {
        assert(is_digit(digits[0]));
    }
    parts_are_found(head, "pid="@);
}

/// A table keeps its process numbers and its names.
pub proof fn tables_are_seen_as_they_are(m: Map<u32, String>, pid: u32)
    ensures
        text_values(m).contains_key(pid) == m.contains_key(pid),
        m.contains_key(pid) ==> text_values(m)[pid] == m[pid]@,
{
}

/// Every line that holds `users:` counts, whatever else it holds: each process
/// that it names is in the table.
pub proof fn every_users_line_counts(text: Seq<char>, i: int, k: int)
    requires
        0 <= i < lines(text).len(),
        has_part(lines(text)[i], "users:"@),
        0 <= k < line_processes(lines(text)[i]).len(),
    ensures
        active_net_app_pids(Some(text)).contains_key(line_processes(lines(text)[i])[k].0),
{
    parts_are_found(lines(text)[i], "users:"@);
    let p = line_processes(lines(text)[i])[k];
    lemma_line_in_processes(lines(text), i, k);
    let m = choose|m: int| 0 <= m < processes(lines(text)).len() && processes(lines(text))[m] == p;
    lemma_named_pids(processes(lines(text)), m);
}

proof fn lemma_line_in_processes(ls: Seq<Seq<char>>, i: int, k: int)
    requires
        0 <= i < ls.len(),
        find(ls[i], "users:"@) is Some,
        0 <= k < line_processes(ls[i]).len(),
    ensures
        processes(ls).contains(line_processes(ls[i])[k]),
    decreases ls.len(),
{
    let p = line_processes(ls[i])[k];
    let rest = ls.drop_first();
    if i == 0 {
        assert(processes(ls)[k] == p);
    } else {
        assert(rest[i - 1] == ls[i]);
        lemma_line_in_processes(rest, i - 1, k);
        let m = choose|m: int| 0 <= m < processes(rest).len() && processes(rest)[m] == p;
        if find(ls[0], "users:"@) is Some {
            assert(processes(ls)[line_processes(ls[0]).len() + m] == p);
        } else {
            assert(processes(ls)[m] == p);
        }
    }
}

proof fn lemma_named_pids(ps: Seq<(u32, Seq<char>)>, m: int)
    requires
        0 <= m < ps.len(),
    ensures
        names_by_pid(ps).contains_key(ps[m].0),
    decreases ps.len(),
{
    if m < ps.len() - 1 {
        assert(ps.drop_last()[m] == ps[m]);
        lemma_named_pids(ps.drop_last(), m);
    }
}

/// Every process in the table is named, by that name and that number, in a line
/// that holds `users:`.
pub proof fn processes_come_from_users_lines(text: Seq<char>, pid: u32)
    requires
        active_net_app_pids(Some(text)).contains_key(pid),
    ensures
        exists|i: int, k: int|
            {
                &&& 0 <= i < lines(text).len()
                &&& has_part(lines(text)[i], "users:"@)
                &&& 0 <= k < line_processes(lines(text)[i]).len()
                &&& #[trigger] line_processes(lines(text)[i])[k] == (
                    pid,
                    active_net_app_pids(Some(text))[pid],
                )
            },
{
    let ls = lines(text);
    let p = (pid, active_net_app_pids(Some(text))[pid]);
    lemma_names_are_listed(processes(ls), pid);
    lemma_process_line(ls, p);
    let (i, k) = choose|i: int, k: int|
        {
            &&& 0 <= i < ls.len()
            &&& find(ls[i], "users:"@) is Some
            &&& 0 <= k < line_processes(ls[i]).len()
            &&& #[trigger] line_processes(ls[i])[k] == p
        };
    parts_are_found(ls[i], "users:"@);
    assert(line_processes(lines(text)[i])[k] == p);
}

proof fn lemma_names_are_listed(ps: Seq<(u32, Seq<char>)>, pid: u32)
    requires
        names_by_pid(ps).contains_key(pid),
    ensures
        ps.contains((pid, names_by_pid(ps)[pid])),
    decreases ps.len(),
{
    let last = ps.len() - 1;
    if pid == ps.last().0 {
        assert(ps[last] == (pid, names_by_pid(ps)[pid]));
    } else {
        let rest = ps.drop_last();
        lemma_names_are_listed(rest, pid);
        let m = choose|m: int|
            0 <= m < rest.len() && rest[m] == (pid, names_by_pid(rest)[pid]);
        assert(ps[m] == (pid, names_by_pid(ps)[pid]));
    }
}

proof fn lemma_process_line(ls: Seq<Seq<char>>, p: (u32, Seq<char>))
    requires
        processes(ls).contains(p),
    ensures
        exists|i: int, k: int|
            {
                &&& 0 <= i < ls.len()
                &&& find(ls[i], "users:"@) is Some
                &&& 0 <= k < line_processes(ls[i]).len()
                &&& #[trigger] line_processes(ls[i])[k] == p
            },
    decreases ls.len(),
{
    let m = choose|m: int| 0 <= m < processes(ls).len() && processes(ls)[m] == p;
    let rest = ls.drop_first();
    let users = find(ls[0], "users:"@) is Some;
    let n = line_processes(ls[0]).len();
    if users && m < n {
        assert(line_processes(ls[0])[m] == p);
    } else {
        let d = if users {
            m - n
        } else {
            m
        };
        assert(processes(rest)[d] == p);
        lemma_process_line(rest, p);
        let (i, k) = choose|i: int, k: int|
            {
                &&& 0 <= i < rest.len()
                &&& find(rest[i], "users:"@) is Some
                &&& 0 <= k < line_processes(rest[i]).len()
                &&& #[trigger] line_processes(rest[i])[k] == p
            };
        assert(rest[i] == ls[i + 1]);
        assert(line_processes(ls[i + 1])[k] == p);
    }
}

/// A table in two parts lists what both list, and where both name a process,
/// the lower part's name stays. Of one line with `users:`, each process is
/// listed by the last name that the line has for it; without `users:`, none is;
/// and without a table, none is.
pub proof fn lower_lines_name_last(
    top: Seq<char>,
    bottom: Seq<char>,
    line: Seq<char>,
    k: int,
)
    requires
        top.len() > 0 ==> top.last() == '\n',
        !occurs('\n', line),
    ensures
        active_net_app_pids(Some(top + bottom)) == active_net_app_pids(
            Some(top),
        ).union_prefer_right(active_net_app_pids(Some(bottom))),
        has_part(line, "users:"@) && 0 <= k < line_processes(line).len() && (forall|m: int|
            k < m < line_processes(line).len() ==> (#[trigger] line_processes(line)[m]).0
                != line_processes(line)[k].0) ==> {
            let (pid, name) = line_processes(line)[k];
            &&& active_net_app_pids(Some(line)).contains_key(pid)
            &&& active_net_app_pids(Some(line))[pid] == name
        },
        !has_part(line, "users:"@) ==> active_net_app_pids(Some(line)) == Map::<
            u32,
            Seq<char>,
        >::empty(),
        active_net_app_pids(None) == Map::<u32, Seq<char>>::empty(),
{
    lines_of_two_parts(top, bottom);
    lemma_processes_of_both(lines(top), lines(bottom));
    lemma_names_of_both(processes(lines(top)), processes(lines(bottom)));
    first_lines_are_cut_off(line, Seq::empty());
    parts_are_found(line, "users:"@);
    if line.len() > 0 {
        assert(lines(line).drop_first() =~= Seq::<Seq<char>>::empty());
        assert(processes(lines(line).drop_first()) =~= Seq::<(u32, Seq<char>)>::empty());
        assert(lines(line)[0] == line);
        if has_part(line, "users:"@) {
            assert(processes(lines(line)) =~= line_processes(line));
        } else {
            assert(processes(lines(line)) =~= Seq::<(u32, Seq<char>)>::empty());
        }
    } else {
        assert(processes(lines(line)) =~= Seq::<(u32, Seq<char>)>::empty());
        reveal_strlit("users:");
        if has_part(line, "users:"@) {
            let (a, b) = choose|a: Seq<char>, b: Seq<char>| line == #[trigger] (a + "users:"@ + b);
            assert((a + "users:"@ + b).len() >= 6);
        }
    }
    if has_part(line, "users:"@) && 0 <= k < line_processes(line).len() && forall|m: int|
        k < m < line_processes(line).len() ==> (#[trigger] line_processes(line)[m]).0
            != line_processes(line)[k].0 {
        lemma_last_name(line_processes(line), k);
    }
}

proof fn lemma_processes_of_both(a: Seq<Seq<char>>, b: Seq<Seq<char>>)
    ensures
        processes(a + b) == processes(a) + processes(b),
    decreases a.len(),
{
    if a.len() == 0 {
        assert(a + b =~= b);
        assert(processes(a) + processes(b) =~= processes(b));
    } else {
        let rest = a.drop_first();
        lemma_processes_of_both(rest, b);
        assert((a + b).drop_first() =~= rest + b);
        assert(line_processes(a[0]) + (processes(rest) + processes(b)) =~= (line_processes(a[0])
            + processes(rest)) + processes(b));
    }
}

proof fn lemma_names_of_both(a: Seq<(u32, Seq<char>)>, b: Seq<(u32, Seq<char>)>)
    ensures
        names_by_pid(a + b) == names_by_pid(a).union_prefer_right(names_by_pid(b)),
    decreases b.len(),
{
    if b.len() == 0 {
        assert(a + b =~= a);
        assert(names_by_pid(a).union_prefer_right(names_by_pid(b)) =~= names_by_pid(a));
    } else {
        lemma_names_of_both(a, b.drop_last());
        assert((a + b).drop_last() =~= a + b.drop_last());
        assert(names_by_pid(a + b) =~= names_by_pid(a).union_prefer_right(names_by_pid(b)));
    }
}

proof fn lemma_last_name(ps: Seq<(u32, Seq<char>)>, k: int)
    requires
        0 <= k < ps.len(),
        forall|m: int| k < m < ps.len() ==> (#[trigger] ps[m]).0 != ps[k].0,
    ensures
        names_by_pid(ps).contains_key(ps[k].0),
        names_by_pid(ps)[ps[k].0] == ps[k].1,
    decreases ps.len(),
{
    if k < ps.len() - 1 {
        let rest = ps.drop_last();
        assert(rest[k] == ps[k]);
        assert(ps[ps.len() - 1].0 != ps[k].0);
        lemma_last_name(rest, k);
    }
}

fn read_pid(s: &[char]) -> (r: Option<u32>)
    ensures
        match r {
            Some(pid) => pid_in(s@) == Some(pid as nat),
            None => pid_in(s@) is None,
        },
{
    proof {
        reveal_strlit("pid=");
    }
    match position_of(s, "pid=") {
        Some(i) => {
            let t = skip(s, i + 4);
            parse_u32(take(t, leading_len(t, CharClass::Digit)))
        },
        None => None,
    }
}

fn is_tracked_name(name: &[char]) -> (r: bool)
    ensures
        r == tracked_name(name@),
{
    name.len() > 0 && !is_text(name, "vnstat-gui") && !is_text(name, "ss") && index_of(
        name,
        '/',
    ).is_none()
}

/// Adds the processes that a line is about.
fn read_processes(
    line: &[char],
    pids: &mut BTreeMap<u32, String>,
    Ghost(seen): Ghost<Seq<(u32, Seq<char>)>>,
)
    requires
        text_values(old(pids)@) == names_by_pid(seen),
    ensures
        text_values(final(pids)@) == names_by_pid(seen + line_processes(line@)),
{
    let mut rest = line;
    let ghost mut now = seen;
    loop
        invariant
            text_values(pids@) == names_by_pid(now),
            now + line_processes(rest@) == seen + line_processes(line@),
        decreases rest@.len(),
    {
        let i: usize = match index_of(rest, '"') {
            Some(i) => i,
            None => {
                assert(now + line_processes(rest@) =~= now);
                return ;
            },
        };
        let after = skip(rest, i + 1);
        let j: usize = match index_of(after, '"') {
            Some(j) => j,
            None => {
                assert(now + line_processes(rest@) =~= now);
                return ;
            },
        };
        let name = trimmed(take(after, j));
        let remainder = skip(after, j);
        let below = skip(after, j + 1);
        if let Some(pid) = read_pid(remainder) {
            if is_tracked_name(name) {
                let ghost before = pids@;
                let n = string_of(name);
                pids.insert(pid, n);
                proof {
                    let next = now.push((pid, name@));
                    assert(next.drop_last() =~= now);
                    assert(text_values(pids@) =~= text_values(before).insert(pid, name@));
                    assert(next + line_processes(below@) =~= now + (seq![(pid, name@)]
                        + line_processes(below@)));
                    now = next;
                }
            }
        }
        rest = below;
    }
}

/// The names of the processes that hold sockets, by process number, from the
/// text of the socket table.
pub fn read_socket_table(table: Option<&str>) -> (r: BTreeMap<u32, String>)
    ensures
        text_values(r@) == active_net_app_pids(opt_view(table)),
{
    let mut pids: BTreeMap<u32, String> = BTreeMap::new();
    assert(text_values(pids@) =~= Map::<u32, Seq<char>>::empty());
    if let Some(c) = table {
        let text = chars_of(c);
        let mut rest = text.as_slice();
        let ghost mut now = Seq::<(u32, Seq<char>)>::empty();
        assert(now + processes(lines(rest@)) =~= processes(lines(c@)));
        while rest.len() > 0
            invariant
                text_values(pids@) == names_by_pid(now),
                now + processes(lines(rest@)) == processes(lines(c@)),
            decreases rest@.len(),
        {
            let (line, below) = split_line(rest);
            assert(lines(rest@)[0] == line@);
            assert(lines(rest@).drop_first() =~= lines(below@));
            if position_of(line, "users:").is_some() {
                read_processes(line, &mut pids, Ghost(now));
                proof {
                    assert((now + line_processes(line@)) + processes(lines(below@)) =~= now + (
                    line_processes(line@) + processes(lines(below@))));
                    now = now + line_processes(line@);
                }
            }
            rest = below;
        }
        assert(now + processes(lines(rest@)) =~= now);
    }
    pids
}

/// The names of the processes that hold sockets, by process number. `output` is
/// what `ss -tupn` printed, if it could be run.
pub fn get_active_net_app_pids(output: Option<&[u8]>) -> (r: BTreeMap<u32, String>)
    ensures
        text_values(r@) == active_net_app_pids(opt_lossy(output)),
        match output {
            Some(bytes) => valid_utf8(bytes@) ==> text_values(r@) == active_net_app_pids(
                Some(decode_utf8(bytes@)),
            ),
            None => true,
        },
{
    match output {
        Some(bytes) => {
            let table = decode_lossy(bytes);
            read_socket_table(Some(table.as_str()))
        },
        None => read_socket_table(None),
    }
}

} // verus!
