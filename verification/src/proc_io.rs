//! How much a process has read and written, from `/proc/<pid>/io`.

use vstd::prelude::*;

use crate::number::{decimal, decimal_text, parse_u64, u64_value};
use crate::text::{
    all_blank, begins_with, chars_of, first_words_are_cut_off, is_blank, is_word, lines, nth_word,
    opt_view, split_line, words,
};

verus! {

/// The counter that a line of at least two words holds: its second word, or
/// zero where that is no number.
pub open spec fn line_counter(line: Seq<char>) -> Option<nat> {
    if words(line).len() > 1 {
        match u64_value(words(line)[1]) {
            Some(n) => Some(n),
            None => Some(0),
        }
    } else {
        None
    }
}

/// The counter under this label: that of the last line that begins with the
/// label and holds one, or zero.
pub open spec fn labelled_counter(ls: Seq<Seq<char>>, label: Seq<char>) -> nat
    decreases ls.len(),
{
    if ls.len() == 0 {
        0
    } else if label.is_prefix_of(ls.last()) && line_counter(ls.last()) is Some {
        line_counter(ls.last())->0
    } else {
        labelled_counter(ls.drop_last(), label)
    }
}

/// The bytes that a process has read and written; none where its counters
/// could not be read.
pub open spec fn proc_io_bytes(content: Option<Seq<char>>) -> nat {
    match content {
        Some(text) => labelled_counter(lines(text), "read_bytes:"@) + labelled_counter(
            lines(text),
            "write_bytes:"@,
        ),
        None => 0,
    }
}

/// A counter is the second word of its line, which begins with the counter's
/// label; of several such lines the last counts; and what a process has read
/// and written is added up.
pub proof fn counters_are_read_and_added(
    text: Seq<char>,
    read_line: int,
    read: Seq<char>,
    written_line: int,
    written: Seq<char>,
)
    requires
        0 <= read_line < lines(text).len(),
        is_counter_line(lines(text)[read_line], "read_bytes:"@, read),
        forall|k: int|
            read_line < k < lines(text).len() ==> !holds_counter(
                #[trigger] lines(text)[k],
                "read_bytes:"@,
            ),
        0 <= written_line < lines(text).len(),
        is_counter_line(lines(text)[written_line], "write_bytes:"@, written),
        forall|k: int|
            written_line < k < lines(text).len() ==> !holds_counter(
                #[trigger] lines(text)[k],
                "write_bytes:"@,
            ),
    ensures
        proc_io_bytes(Some(text)) == number_or_zero(read) + number_or_zero(written),
{
    reveal_strlit("read_bytes:");
    reveal_strlit("write_bytes:");
    lemma_last_counter(lines(text), "read_bytes:"@, read_line, read);
    lemma_last_counter(lines(text), "write_bytes:"@, written_line, written);
}

/// A counter that no line holds is zero: the other one is then the sum, and
/// without any counter, or any text, the sum is zero.
pub proof fn missing_counters_are_zero(text: Seq<char>, line: int, word: Seq<char>)
    ensures
        ({
            let ls = lines(text);
            let no_read = forall|k: int|
                0 <= k < ls.len() ==> !holds_counter(#[trigger] ls[k], "read_bytes:"@);
            let no_written = forall|k: int|
                0 <= k < ls.len() ==> !holds_counter(#[trigger] ls[k], "write_bytes:"@);
            &&& no_written && 0 <= line < ls.len() && is_counter_line(
                ls[line],
                "read_bytes:"@,
                word,
            ) && (forall|k: int|
                line < k < ls.len() ==> !holds_counter(#[trigger] ls[k], "read_bytes:"@))
                ==> proc_io_bytes(Some(text)) == number_or_zero(word)
            &&& no_read && 0 <= line < ls.len() && is_counter_line(
                ls[line],
                "write_bytes:"@,
                word,
            ) && (forall|k: int|
                line < k < ls.len() ==> !holds_counter(#[trigger] ls[k], "write_bytes:"@))
                ==> proc_io_bytes(Some(text)) == number_or_zero(word)
            &&& no_read && no_written ==> proc_io_bytes(Some(text)) == 0
        }),
        proc_io_bytes(None) == 0,
{
    reveal_strlit("read_bytes:");
    reveal_strlit("write_bytes:");
    let ls = lines(text);
    if forall|k: int| 0 <= k < ls.len() ==> !holds_counter(#[trigger] ls[k], "read_bytes:"@) {
        lemma_no_counter(ls, "read_bytes:"@);
    }
    if forall|k: int| 0 <= k < ls.len() ==> !holds_counter(#[trigger] ls[k], "write_bytes:"@) {
        lemma_no_counter(ls, "write_bytes:"@);
    }
    if 0 <= line < ls.len() && is_counter_line(ls[line], "read_bytes:"@, word) && forall|k: int|
        line < k < ls.len() ==> !holds_counter(#[trigger] ls[k], "read_bytes:"@) {
        lemma_last_counter(ls, "read_bytes:"@, line, word);
    }
    if 0 <= line < ls.len() && is_counter_line(ls[line], "write_bytes:"@, word) && forall|k: int|
        line < k < ls.len() ==> !holds_counter(#[trigger] ls[k], "write_bytes:"@) {
        lemma_last_counter(ls, "write_bytes:"@, line, word);
    }
}

/// Whether the line begins with this label and has a second word.
pub open spec fn holds_counter(line: Seq<char>, label: Seq<char>) -> bool {
    label.is_prefix_of(line) && words(line).len() >= 2
}

/// Whether the line is this label, with or without something at its end, at
/// least one blank, this word, and then nothing or a blank and anything.
pub open spec fn is_counter_line(line: Seq<char>, label: Seq<char>, word: Seq<char>) -> bool {
    exists|more: Seq<char>, gap: Seq<char>, rest: Seq<char>|
        {
            &&& is_word(label + more)
            &&& gap.len() > 0 && all_blank(gap)
            &&& is_word(word)
            &&& rest.len() > 0 ==> is_blank(rest[0])
            &&& line == #[trigger] (label + more + gap + word + rest)
        }
}

/// The number that the word denotes; zero if it denotes none that a counter can
/// hold.
pub open spec fn number_or_zero(word: Seq<char>) -> nat {
    match u64_value(word) {
        Some(n) => n,
        None => 0,
    }
}

proof fn lemma_last_counter(ls: Seq<Seq<char>>, label: Seq<char>, i: int, word: Seq<char>)
    requires
        0 <= i < ls.len(),
        is_counter_line(ls[i], label, word),
        forall|k: int| i < k < ls.len() ==> !holds_counter(#[trigger] ls[k], label),
    ensures
        labelled_counter(ls, label) == number_or_zero(word),
    decreases ls.len(),
{
    if i == ls.len() - 1 {
        let line = ls[i];
        let (more, gap, rest) = choose|more: Seq<char>, gap: Seq<char>, rest: Seq<char>|
            {
                &&& is_word(label + more)
                &&& gap.len() > 0 && all_blank(gap)
                &&& is_word(word)
                &&& rest.len() > 0 ==> is_blank(rest[0])
                &&& line == #[trigger] (label + more + gap + word + rest)
            };
        let tail = gap + word + rest;
        assert(line =~= Seq::<char>::empty() + (label + more) + tail);
        assert(tail[0] == gap[0]);
        first_words_are_cut_off(Seq::empty(), label + more, tail);
        first_words_are_cut_off(gap, word, rest);
        assert(words(line)[1] == word);
        assert(label =~= line.subrange(0, label.len() as int));
    } else {
        let rest = ls.drop_last();
        assert(!holds_counter(ls[ls.len() - 1], label));
        assert(rest[i] == ls[i]);
        lemma_last_counter(rest, label, i, word);
    }
}

proof fn lemma_no_counter(ls: Seq<Seq<char>>, label: Seq<char>)
    requires
        forall|k: int| 0 <= k < ls.len() ==> !holds_counter(#[trigger] ls[k], label),
    ensures
        labelled_counter(ls, label) == 0,
    decreases ls.len(),
{
    if ls.len() > 0 {
        assert(!holds_counter(ls[ls.len() - 1], label));
        lemma_no_counter(ls.drop_last(), label);
    }
}

/// Where the counters of a process are found.
pub fn proc_io_path(pid: u32) -> (r: String)
    ensures
        r@ == "/proc/"@ + decimal(pid as nat) + "/io"@,
{
    let mut r = String::from_str("/proc/");
    let n = decimal_text(pid as u64);
    r.append(n.as_str());
    r.append("/io");
    r
}

fn read_counter(line: &[char]) -> (r: Option<u64>)
    ensures
        match r {
            Some(n) => line_counter(line@) == Some(n as nat),
            None => line_counter(line@) is None,
        },
{
    match nth_word(line, 1) {
        Some(w) => match parse_u64(w) {
            Some(n) => Some(n),
            None => Some(0),
        },
        None => None,
    }
}

/// The two counters: bytes read and bytes written.
fn read_counters(content: &str) -> (r: (u64, u64))
    ensures
        r.0 == labelled_counter(lines(content@), "read_bytes:"@),
        r.1 == labelled_counter(lines(content@), "write_bytes:"@),
{
    let text = chars_of(content);
    let mut rest = text.as_slice();
    let mut read: u64 = 0;
    let mut written: u64 = 0;
    let ghost mut now = Seq::<Seq<char>>::empty();
    proof {
        reveal_strlit("read_bytes:");
        reveal_strlit("write_bytes:");
        assert(now + lines(rest@) =~= lines(content@));
    }
    while rest.len() > 0
        invariant
            now + lines(rest@) == lines(content@),
            read == labelled_counter(now, "read_bytes:"@),
            written == labelled_counter(now, "write_bytes:"@),
            "read_bytes:"@.len() > 0,
            "write_bytes:"@.len() > 0,
            "read_bytes:"@[0] != "write_bytes:"@[0],
        decreases rest@.len(),
    {
        let (line, below) = split_line(rest);
        let ghost next = now.push(line@);
        proof {
            assert(next.drop_last() =~= now);
            assert(next + lines(below@) =~= now + (seq![line@] + lines(below@)));
            if "read_bytes:"@.is_prefix_of(line@) {
                assert(line@[0] == line@.subrange(0, "read_bytes:"@.len() as int)[0]);
            }
            if "write_bytes:"@.is_prefix_of(line@) {
                assert(line@[0] == line@.subrange(0, "write_bytes:"@.len() as int)[0]);
            }
        }
        if begins_with(line, "read_bytes:") {
            if let Some(n) = read_counter(line) {
                read = n;
            }
        } else if begins_with(line, "write_bytes:") {
            if let Some(n) = read_counter(line) {
                written = n;
            }
        }
        proof {
            now = next;
        }
        rest = below;
    }
    assert(now + lines(rest@) =~= now);
    (read, written)
}

/// Whether the bytes read and written can be added up.
pub fn proc_io_bytes_fit(content: Option<&str>) -> (r: bool)
    ensures
        r == (proc_io_bytes(opt_view(content)) <= u64::MAX),
{
    match content {
        Some(c) => {
            let (read, written) = read_counters(c);
            written <= u64::MAX - read
        },
        None => true,
    }
}

/// The bytes that a process has read and written. `content` is what its
/// counters file holds, if it could be read.
pub fn get_proc_io_bytes(content: Option<&str>) -> (r: u64)
    requires
        proc_io_bytes(opt_view(content)) <= u64::MAX,
    ensures
        r == proc_io_bytes(opt_view(content)),
{
    match content {
        Some(c) => {
            let (read, written) = read_counters(c);
            read + written
        },
        None => 0,
    }
}

} // verus!
