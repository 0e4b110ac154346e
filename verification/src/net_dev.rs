//! The byte counters of `/proc/net/dev`.

use vstd::prelude::*;

use crate::interface::{is_physical, names_to_probe, physical, probes, Devices};
use crate::number::{parse_u64, u64_value};
use crate::text::{
    all_blank, chars_of, find, first_lines_are_cut_off, index_of, is_text, lemma_find_char, lines,
    lines_of_two_parts, nth_word, occurs, opt_view, parts_words, skip, spaced, split_line,
    string_of, take, trim, trimmed, views, words, words_read_back,
};

verus! {

/// The interface that a line is about: what stands before its first colon,
/// without the blanks around it.
pub open spec fn line_interface(line: Seq<char>) -> Option<Seq<char>> {
    match find(line, seq![':']) {
        Some(i) => Some(trim(line.take(i))),
        None => None,
    }
}

/// Whether an interface is counted: the target, or all hardware where there is
/// no target.
pub open spec fn counted(
    name: Seq<char>,
    target: Option<Seq<char>>,
    devices: Set<Seq<char>>,
) -> bool {
    match target {
        Some(t) => name == t,
        None => physical(name, devices),
    }
}

/// The bytes received and sent that a line adds: its first and ninth number,
/// where it has at least nine fields and both can be read.
pub open spec fn line_bytes(
    line: Seq<char>,
    target: Option<Seq<char>>,
    devices: Set<Seq<char>>,
) -> (nat, nat) {
    match find(line, seq![':']) {
        Some(i) => {
            let fields = words(line.skip(i + 1));
            if counted(trim(line.take(i)), target, devices) && fields.len() >= 9 {
                match (u64_value(fields[0]), u64_value(fields[8])) {
                    (Some(rx), Some(tx)) => (rx, tx),
                    _ => (0, 0),
                }
            } else {
                (0, 0)
            }
        },
        None => (0, 0),
    }
}

/// The bytes received and sent that these lines add up to.
pub open spec fn lines_bytes(
    ls: Seq<Seq<char>>,
    target: Option<Seq<char>>,
    devices: Set<Seq<char>>,
) -> (nat, nat)
    decreases ls.len(),
{
    if ls.len() == 0 {
        (0, 0)
    } else {
        let one = line_bytes(ls[0], target, devices);
        let rest = lines_bytes(ls.drop_first(), target, devices);
        (one.0 + rest.0, one.1 + rest.1)
    }
}

/// The bytes received and sent that the counters add up to; none where they
/// could not be read.
pub open spec fn net_dev_bytes(
    content: Option<Seq<char>>,
    target: Option<Seq<char>>,
    devices: Set<Seq<char>>,
) -> (nat, nat) {
    match content {
        Some(text) => lines_bytes(lines(text), target, devices),
        None => (0, 0),
    }
}

/// The names of the interfaces that these lines are about, in order.
pub open spec fn listed_interfaces(ls: Seq<Seq<char>>) -> Seq<Seq<char>>
    decreases ls.len(),
{
    if ls.len() == 0 {
        Seq::empty()
    } else {
        match line_interface(ls[0]) {
            Some(n) => seq![n] + listed_interfaces(ls.drop_first()),
            None => listed_interfaces(ls.drop_first()),
        }
    }
}

/// The names of the interfaces that have counters.
pub open spec fn net_dev_interfaces(content: Option<Seq<char>>) -> Seq<Seq<char>> {
    match content {
        Some(text) => listed_interfaces(lines(text)),
        None => Seq::empty(),
    }
}

/// Looking for the devices of the names that `net_dev_probes` lists is enough:
/// whatever is said of others, the same bytes are counted.
pub proof fn probed_names_decide_bytes(
    content: Option<Seq<char>>,
    target: Option<Seq<char>>,
    a: Set<Seq<char>>,
    b: Set<Seq<char>>,
)
    requires
        forall|n: Seq<char>| #[trigger]
            probes(net_dev_interfaces(content)).contains(n) ==> (a.contains(n) <==> b.contains(n)),
    ensures
        net_dev_bytes(content, target, a) == net_dev_bytes(content, target, b),
{
    if let Some(text) = content {
        assert(net_dev_interfaces(content) == listed_interfaces(lines(text)));
        lemma_same_bytes(lines(text), target, a, b);
    }
}

proof fn lemma_same_bytes(
    ls: Seq<Seq<char>>,
    target: Option<Seq<char>>,
    a: Set<Seq<char>>,
    b: Set<Seq<char>>,
)
    requires
        forall|n: Seq<char>| #[trigger]
            probes(listed_interfaces(ls)).contains(n) ==> (a.contains(n) <==> b.contains(n)),
    ensures
        lines_bytes(ls, target, a) == lines_bytes(ls, target, b),
    decreases ls.len(),
{
    if ls.len() > 0 {
        let rest = listed_interfaces(ls.drop_first());
        let names = listed_interfaces(ls);
        if let Some(n) = line_interface(ls[0]) {
            assert(names[0] == n);
            assert(names.drop_first() =~= rest);
            if probes(names) != probes(rest) {
                assert(probes(names)[0] == trim(n));
                assert(probes(names).contains(trim(n)));
            }
        }
        assert forall|m: Seq<char>| #[trigger] probes(rest).contains(m) implies (a.contains(m)
            <==> b.contains(m)) by {
            let i = choose|i: int| 0 <= i < probes(rest).len() && probes(rest)[i] == m;
            if probes(names) != probes(rest) {
                assert(probes(names)[i + 1] == m);
            }
            assert(probes(names).contains(m));
        }
        lemma_same_bytes(ls.drop_first(), target, a, b);
    }
}

/// With a target, the target is counted and nothing else, whatever it is;
/// without one, hardware is.
pub proof fn targets_alone_are_counted(
    name: Seq<char>,
    target: Seq<char>,
    devices: Set<Seq<char>>,
)
    ensures
        counted(target, Some(target), devices),
        name != target ==> !counted(name, Some(target), devices),
        counted(name, None, devices) == physical(name, devices),
{
}

/// A line of an interface that is counted, made of its name, a colon and at
/// least nine fields, adds its first field to the bytes received and its ninth
/// to the bytes sent, however many more follow and whatever blanks part them.
/// An interface is counted if it is the target, or, where there is no target,
/// if it is hardware.
pub proof fn lines_add_their_first_and_ninth_field(
    head: Seq<char>,
    gaps: Seq<Seq<char>>,
    fields: Seq<Seq<char>>,
    end: Seq<char>,
    rx: nat,
    tx: nat,
    target: Option<Seq<char>>,
    devices: Set<Seq<char>>,
)
    requires
        !occurs(':', head),
        match target {
            Some(t) => trim(head) == t,
            None => physical(trim(head), devices),
        },
        parts_words(gaps, fields),
        all_blank(end),
        fields.len() >= 9,
        u64_value(fields[0]) == Some(rx),
        u64_value(fields[8]) == Some(tx),
    ensures
        line_bytes(head + seq![':'] + (spaced(gaps, fields) + end), target, devices) == (rx, tx),
{
    let stats = spaced(gaps, fields) + end;
    lemma_at_colon(head, stats);
    words_read_back(gaps, fields, end);
}

/// A line adds nothing that has no colon, that is of an interface which is not
/// counted, that has fewer than nine fields, or whose first or ninth field
/// cannot be read.
pub proof fn other_lines_add_nothing(
    line: Seq<char>,
    head: Seq<char>,
    gaps: Seq<Seq<char>>,
    fields: Seq<Seq<char>>,
    end: Seq<char>,
    target: Option<Seq<char>>,
    devices: Set<Seq<char>>,
)
    requires
        !occurs(':', head),
        parts_words(gaps, fields),
        all_blank(end),
        ({
            ||| match target {
                Some(t) => trim(head) != t,
                None => !physical(trim(head), devices),
            }
            ||| fields.len() < 9
            ||| u64_value(fields[0]) is None
            ||| u64_value(fields[8]) is None
        }),
    ensures
        line_bytes(head + seq![':'] + (spaced(gaps, fields) + end), target, devices) == (
            0nat,
            0nat,
        ),
        !occurs(':', line) ==> line_bytes(line, target, devices) == (0nat, 0nat),
{
    let stats = spaced(gaps, fields) + end;
    lemma_at_colon(head, stats);
    words_read_back(gaps, fields, end);
    lemma_find_char(line, ':');
    if find(line, seq![':']) is Some {
        assert(occurs(':', line));
    }
}

proof fn lemma_at_colon(head: Seq<char>, stats: Seq<char>)
    requires
        !occurs(':', head),
    ensures
        find(head + seq![':'] + stats, seq![':']) == Some(head.len() as int),
        (head + seq![':'] + stats).take(head.len() as int) == head,
        (head + seq![':'] + stats).skip(head.len() as int + 1) == stats,
{
    let line = head + seq![':'] + stats;
    let n = head.len() as int;
    lemma_find_char(line, ':');
    assert(line[n] == ':');
    assert forall|i: int| 0 <= i < n implies #[trigger] line[i] != ':' by {
        assert(line[i] == head[i]);
        assert(!occurs(':', head));
    }
    assert(line.take(n) =~= head);
    assert(line.skip(n + 1) =~= stats);
}

/// What is counted is what each line adds, all of them together: the counters
/// of a text in two parts add up to those of both, those of one line are what
/// the line adds, and without any text nothing is counted.
pub proof fn every_line_is_counted_once(
    top: Seq<char>,
    bottom: Seq<char>,
    line: Seq<char>,
    target: Option<Seq<char>>,
    devices: Set<Seq<char>>,
)
    requires
        top.len() > 0 ==> top.last() == '\n',
        !occurs('\n', line),
    ensures
        ({
            let all = net_dev_bytes(Some(top + bottom), target, devices);
            let a = net_dev_bytes(Some(top), target, devices);
            let b = net_dev_bytes(Some(bottom), target, devices);
            all.0 == a.0 + b.0 && all.1 == a.1 + b.1
        }),
        line.len() > 0 ==> net_dev_bytes(Some(line), target, devices) == line_bytes(
            line,
            target,
            devices,
        ),
        net_dev_bytes(Some(Seq::empty()), target, devices) == (0nat, 0nat),
        net_dev_bytes(None, target, devices) == (0nat, 0nat),
{
    lines_of_two_parts(top, bottom);
    lemma_bytes_of_both(lines(top), lines(bottom), target, devices);
    first_lines_are_cut_off(line, Seq::empty());
    if line.len() > 0 {
        assert(lines(line).drop_first() =~= Seq::<Seq<char>>::empty());
        assert(lines_bytes(lines(line).drop_first(), target, devices) == (0nat, 0nat));
    }
}

proof fn lemma_bytes_of_both(
    a: Seq<Seq<char>>,
    b: Seq<Seq<char>>,
    target: Option<Seq<char>>,
    devices: Set<Seq<char>>,
)
    ensures
        ({
            let all = lines_bytes(a + b, target, devices);
            let x = lines_bytes(a, target, devices);
            let y = lines_bytes(b, target, devices);
            all.0 == x.0 + y.0 && all.1 == x.1 + y.1
        }),
    decreases a.len(),
{
    if a.len() == 0 {
        assert(a + b =~= b);
    } else {
        lemma_bytes_of_both(a.drop_first(), b, target, devices);
        assert((a + b).drop_first() =~= a.drop_first() + b);
    }
}

fn read_line(line: &[char], target: Option<&str>, devices: &Devices) -> (r: (u64, u64))
    ensures
        r.0 == line_bytes(line@, opt_view(target), devices@).0,
        r.1 == line_bytes(line@, opt_view(target), devices@).1,
{
    if let Some(i) = index_of(line, ':') {
        let name = trimmed(take(line, i));
        let stats = skip(line, i + 1);
        let count = match target {
            Some(t) => is_text(name, t),
            None => is_physical(name, devices),
        };
        if count {
            if let (Some(first), Some(ninth)) = (nth_word(stats, 0), nth_word(stats, 8)) {
                if let (Some(rx), Some(tx)) = (parse_u64(first), parse_u64(ninth)) {
                    return (rx, tx);
                }
            }
        }
    }
    (0, 0)
}

/// Whether these numbers can be counted.
pub open spec fn bytes_fit(bytes: (nat, nat)) -> bool {
    bytes.0 <= u64::MAX && bytes.1 <= u64::MAX
}

/// The bytes that the counters add up to, if they can be counted.
fn checked_bytes(content: Option<&str>, target: Option<&str>, devices: &Devices) -> (r: Option<
    (u64, u64),
>)
    ensures
        ({
            let total = net_dev_bytes(opt_view(content), opt_view(target), devices@);
            match r {
                Some(bytes) => bytes.0 == total.0 && bytes.1 == total.1,
                None => !bytes_fit(total),
            }
        }),
{
    let mut rx: u64 = 0;
    let mut tx: u64 = 0;
    if let Some(c) = content {
        let text = chars_of(c);
        let mut rest = text.as_slice();
        let ghost t = opt_view(target);
        let ghost total = lines_bytes(lines(c@), t, devices@);
        while rest.len() > 0
            invariant
                t == opt_view(target),
                total == net_dev_bytes(opt_view(content), t, devices@),
                total.0 == rx + lines_bytes(lines(rest@), t, devices@).0,
                total.1 == tx + lines_bytes(lines(rest@), t, devices@).1,
            decreases rest@.len(),
        {
            let (line, below) = split_line(rest);
            assert(lines(rest@)[0] == line@);
            assert(lines(rest@).drop_first() =~= lines(below@));
            let (r, s) = read_line(line, target, devices);
            if r > u64::MAX - rx || s > u64::MAX - tx {
                return None;
            }
            rx = rx + r;
            tx = tx + s;
            rest = below;
        }
    }
    Some((rx, tx))
}

/// Whether the bytes that the counters add up to can be counted.
pub fn net_dev_bytes_fit(content: Option<&str>, target: Option<&str>, devices: &Devices) -> (r:
    bool)
    ensures
        r == bytes_fit(net_dev_bytes(opt_view(content), opt_view(target), devices@)),
{
    checked_bytes(content, target, devices).is_some()
}

/// The bytes received and sent so far, by the interface `target`, or by all
/// hardware where there is no target. `content` is what `/proc/net/dev` holds,
/// if it could be read.
pub fn get_net_dev_bytes(content: Option<&str>, target: Option<&str>, devices: &Devices) -> (r: (
    u64,
    u64,
))
    requires
        bytes_fit(net_dev_bytes(opt_view(content), opt_view(target), devices@)),
    ensures
        r.0 == net_dev_bytes(opt_view(content), opt_view(target), devices@).0,
        r.1 == net_dev_bytes(opt_view(content), opt_view(target), devices@).1,
{
    checked_bytes(content, target, devices).unwrap()
}

/// The names for which a device has to be looked for before
/// `get_net_dev_bytes` can be asked.
pub fn net_dev_probes(content: Option<&str>) -> (r: Vec<String>)
    ensures
        views(r@) == probes(net_dev_interfaces(opt_view(content))),
{
    let mut names: Vec<String> = Vec::new();
    assert(views(names@) =~= Seq::<Seq<char>>::empty());
    if let Some(c) = content {
        let text = chars_of(c);
        let mut rest = text.as_slice();
        assert(views(names@) + listed_interfaces(lines(rest@)) =~= listed_interfaces(lines(c@)));
        while rest.len() > 0
            invariant
                views(names@) + listed_interfaces(lines(rest@)) == listed_interfaces(lines(c@)),
            decreases rest@.len(),
        {
            let (line, below) = split_line(rest);
            let ghost before = views(names@);
            assert(lines(rest@)[0] == line@);
            assert(lines(rest@).drop_first() =~= lines(below@));
            if let Some(i) = index_of(line, ':') {
                let name = trimmed(take(line, i));
                names.push(string_of(name));
                assert(views(names@) =~= before.push(name@));
                assert(views(names@) + listed_interfaces(lines(below@)) =~= before + (seq![name@]
                    + listed_interfaces(lines(below@))));
            }
            rest = below;
        }
        assert(views(names@) + listed_interfaces(lines(rest@)) =~= views(names@));
    }
    names_to_probe(&names)
}

} // verus!
