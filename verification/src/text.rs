//! Text as sequences of characters: searching, trimming, words and lines.
//!
//! The specification functions describe a text by its characters, as the view
//! of `str` and `String` does. The executable functions work on character
//! slices, so that a part of a text can be named without copying it.

use vstd::prelude::*;
use vstd::slice::slice_subrange;
use vstd::utf8::{decode_utf8, valid_utf8};

verus! {

/// `String::push` appends the one character it is given.
pub assume_specification[ String::push ](s: &mut String, c: char)
    ensures
        final(s)@ == old(s)@.push(c),
;

/// The text that `String::from_utf8_lossy` makes of these bytes.
pub uninterp spec fn lossy_text(bytes: Seq<u8>) -> Seq<char>;

/// Makes a text of bytes with `String::from_utf8_lossy`. Claimed: the text
/// depends on the bytes alone, and is the one that they encode where they are
/// valid UTF-8. Where replacement characters go in other bytes is left unsaid.
#[verifier::external_body]
pub(crate) fn decode_lossy(bytes: &[u8]) -> (r: String)
    ensures
        r@ == lossy_text(bytes@),
        valid_utf8(bytes@) ==> r@ == decode_utf8(bytes@),
{
    String::from_utf8_lossy(bytes).into_owned()
}

/// The text of bytes that may be missing.
pub open spec fn opt_lossy(bytes: Option<&[u8]>) -> Option<Seq<char>> {
    match bytes {
        Some(b) => Some(lossy_text(b@)),
        None => None,
    }
}

/// The kinds of characters that runs are made of.
#[derive(Clone, Copy, PartialEq, Eq, Structural, Debug)]
pub enum CharClass {
    /// White space, as Unicode defines it.
    Blank,
    /// Anything that is not white space.
    Solid,
    /// The decimal digits of ASCII.
    Digit,
    /// The path separator.
    Slash,
}

/// The characters with the Unicode property `White_Space`.
pub open spec fn is_blank(c: char) -> bool {
    let n = c as u32;
    ||| 0x9 <= n <= 0xD
    ||| n == 0x20
    ||| n == 0x85
    ||| n == 0xA0
    ||| n == 0x1680
    ||| 0x2000 <= n <= 0x200A
    ||| n == 0x2028
    ||| n == 0x2029
    ||| n == 0x202F
    ||| n == 0x205F
    ||| n == 0x3000
}

/// Whether `c` is one of `'0'` to `'9'`.
pub open spec fn is_digit(c: char) -> bool {
    '0' as u32 <= c as u32 <= '9' as u32
}

/// Whether `c` belongs to `class`.
pub open spec fn in_class(c: char, class: CharClass) -> bool {
    match class {
        CharClass::Blank => is_blank(c),
        CharClass::Solid => !is_blank(c),
        CharClass::Digit => is_digit(c),
        CharClass::Slash => c == '/',
    }
}

/// How many characters of `class` the text begins with.
pub open spec fn leading(s: Seq<char>, class: CharClass) -> nat
    decreases s.len(),
{
    if s.len() > 0 && in_class(s[0], class) {
        1 + leading(s.drop_first(), class)
    } else {
        0
    }
}

/// How many blanks the text ends with.
pub open spec fn trailing_blanks(s: Seq<char>) -> nat
    decreases s.len(),
{
    if s.len() > 0 && is_blank(s.last()) {
        1 + trailing_blanks(s.drop_last())
    } else {
        0
    }
}

/// The text without the blanks that it begins with.
pub open spec fn trim_start(s: Seq<char>) -> Seq<char> {
    s.skip(leading(s, CharClass::Blank) as int)
}

/// The text without the blanks that it ends with.
pub open spec fn trim_end(s: Seq<char>) -> Seq<char> {
    s.take(s.len() - trailing_blanks(s))
}

/// The text without the blanks around it.
pub open spec fn trim(s: Seq<char>) -> Seq<char> {
    trim_end(trim_start(s))
}

/// Where `pattern` first occurs in the text.
pub open spec fn find(s: Seq<char>, pattern: Seq<char>) -> Option<int>
    decreases s.len(),
{
    if pattern.is_prefix_of(s) {
        Some(0)
    } else if s.len() == 0 {
        None
    } else {
        match find(s.drop_first(), pattern) {
            Some(i) => Some(i + 1),
            None => None,
        }
    }
}

/// The words of a text: its longest runs without blanks, in order.
pub open spec fn words(s: Seq<char>) -> Seq<Seq<char>>
    decreases s.len(),
{
    let t = trim_start(s);
    let n = leading(t, CharClass::Solid) as int;
    if 0 < n <= t.len() <= s.len() {
        seq![t.take(n)] + words(t.skip(n))
    } else {
        Seq::empty()
    }
}

/// A line without the carriage return that its line feed may follow.
pub open spec fn strip_return(s: Seq<char>) -> Seq<char> {
    if s.len() > 0 && s.last() == '\r' {
        s.drop_last()
    } else {
        s
    }
}

/// The lines of a text. A line ends at a line feed, which may follow a
/// carriage return; neither belongs to the line. What stands behind the last
/// line feed is a line if it is not empty.
pub open spec fn lines(s: Seq<char>) -> Seq<Seq<char>>
    decreases s.len(),
{
    if s.len() == 0 {
        Seq::empty()
    } else {
        match find(s, seq!['\n']) {
            Some(i) => if 0 <= i < s.len() {
                seq![strip_return(s.take(i))] + lines(s.skip(i + 1))
            } else {
                Seq::empty()
            },
            None => seq![s],
        }
    }
}

/// The texts of a sequence of strings.
pub open spec fn views(v: Seq<String>) -> Seq<Seq<char>> {
    Seq::new(v.len(), |i: int| v[i]@)
}

/// The text of a string that may be missing.
pub open spec fn opt_view(s: Option<&str>) -> Option<Seq<char>> {
    match s {
        Some(t) => Some(t@),
        None => None,
    }
}

/// The text of a string that may be missing.
pub open spec fn opt_string_view(s: Option<String>) -> Option<Seq<char>> {
    match s {
        Some(t) => Some(t@),
        None => None,
    }
}

/// The lines behind the first one.
pub open spec fn after_first(s: Seq<Seq<char>>) -> Seq<Seq<char>> {
    if s.len() == 0 {
        s
    } else {
        s.drop_first()
    }
}

/// A run is no longer than its text, all of it belongs to the class, and the
/// character behind it does not.
pub proof fn lemma_leading(s: Seq<char>, class: CharClass)
    ensures
        leading(s, class) <= s.len(),
        forall|i: int| 0 <= i < leading(s, class) ==> in_class(#[trigger] s[i], class),
        leading(s, class) < s.len() ==> !in_class(s[leading(s, class) as int], class),
    decreases s.len(),
{
    if s.len() > 0 && in_class(s[0], class) {
        let t = s.drop_first();
        lemma_leading(t, class);
        assert forall|i: int| 0 <= i < leading(s, class) implies in_class(
            #[trigger] s[i],
            class,
        ) by {
            if i > 0 {
                assert(s[i] == t[i - 1]);
            }
        }
        if leading(s, class) < s.len() {
            assert(s[leading(s, class) as int] == t[leading(t, class) as int]);
        }
    }
}

/// A run is known by its members and by the character behind it.
pub proof fn lemma_leading_is(s: Seq<char>, class: CharClass, n: int)
    requires
        0 <= n <= s.len(),
        forall|i: int| 0 <= i < n ==> in_class(#[trigger] s[i], class),
        n < s.len() ==> !in_class(s[n], class),
    ensures
        leading(s, class) == n,
{
    lemma_leading(s, class);
    let k = leading(s, class) as int;
    if k < n {
        assert(in_class(s[k], class));
    } else if n < k {
        assert(in_class(s[n], class));
    }
}

/// The run of blanks at the end is no longer than the text; what is left ends
/// with something else.
pub proof fn lemma_trailing_blanks(s: Seq<char>)
    ensures
        trailing_blanks(s) <= s.len(),
        forall|i: int| s.len() - trailing_blanks(s) <= i < s.len() ==> is_blank(#[trigger] s[i]),
        trailing_blanks(s) < s.len() ==> !is_blank(s[s.len() - trailing_blanks(s) - 1]),
    decreases s.len(),
{
    if s.len() > 0 && is_blank(s.last()) {
        let t = s.drop_last();
        lemma_trailing_blanks(t);
        assert forall|i: int| s.len() - trailing_blanks(s) <= i < s.len() implies is_blank(
            #[trigger] s[i],
        ) by {
            if i < s.len() - 1 {
                assert(s[i] == t[i]);
            }
        }
    }
}

/// The run of blanks at the end is known by its members and by the character
/// before it.
proof fn lemma_trailing_blanks_is(s: Seq<char>, n: int)
    requires
        0 <= n <= s.len(),
        forall|i: int| n <= i < s.len() ==> is_blank(#[trigger] s[i]),
        n > 0 ==> !is_blank(s[n - 1]),
    ensures
        trailing_blanks(s) == s.len() - n,
{
    lemma_trailing_blanks(s);
    let k = s.len() - trailing_blanks(s);
    if k < n {
        assert(is_blank(s[n - 1]));
    } else if n < k {
        assert(is_blank(s[k - 1]));
    }
}

/// What `find` returns: an occurrence, and none begins before it; or that
/// there is none.
pub proof fn lemma_find(s: Seq<char>, pattern: Seq<char>)
    ensures
        match find(s, pattern) {
            Some(i) => {
                &&& 0 <= i
                &&& i + pattern.len() <= s.len()
                &&& pattern.is_prefix_of(s.skip(i))
                &&& forall|j: int| 0 <= j < i ==> !pattern.is_prefix_of(#[trigger] s.skip(j))
            },
            None => forall|j: int|
                0 <= j <= s.len() ==> !pattern.is_prefix_of(#[trigger] s.skip(j)),
        },
    decreases s.len(),
{
    assert(s.skip(0) =~= s);
    if !pattern.is_prefix_of(s) && s.len() > 0 {
        let t = s.drop_first();
        lemma_find(t, pattern);
        assert forall|j: int| 0 < j <= s.len() implies #[trigger] s.skip(j) == t.skip(j - 1) by {
            assert(s.skip(j) =~= t.skip(j - 1));
        }
    } else if s.len() == 0 && !pattern.is_prefix_of(s) {
        assert forall|j: int| 0 <= j <= s.len() implies !pattern.is_prefix_of(
            #[trigger] s.skip(j),
        ) by {
            assert(s.skip(j) =~= s);
        }
    }
}

/// The first occurrence is known by being one that none begins before.
pub proof fn lemma_find_is(s: Seq<char>, pattern: Seq<char>, i: int)
    requires
        0 <= i <= s.len(),
        pattern.is_prefix_of(s.skip(i)),
        forall|j: int| 0 <= j < i ==> !pattern.is_prefix_of(#[trigger] s.skip(j)),
    ensures
        find(s, pattern) == Some(i),
{
    lemma_find(s, pattern);
}

/// No occurrence anywhere means that `find` returns none.
pub proof fn lemma_find_none(s: Seq<char>, pattern: Seq<char>)
    requires
        forall|j: int| 0 <= j <= s.len() ==> !pattern.is_prefix_of(#[trigger] s.skip(j)),
    ensures
        find(s, pattern) is None,
{
    lemma_find(s, pattern);
    if let Some(i) = find(s, pattern) {
        assert(pattern.is_prefix_of(s.skip(i)));
    }
}

/// For a single character, the first occurrence is its first index.
pub proof fn lemma_find_char(s: Seq<char>, c: char)
    ensures
        match find(s, seq![c]) {
            Some(i) => 0 <= i < s.len() && s[i] == c && forall|j: int|
                0 <= j < i ==> #[trigger] s[j] != c,
            None => forall|j: int| 0 <= j < s.len() ==> #[trigger] s[j] != c,
        },
{
    lemma_find(s, seq![c]);
    assert forall|j: int| 0 <= j < s.len() implies (seq![c].is_prefix_of(#[trigger] s.skip(j))
        <==> s[j] == c) by {
        assert(s.skip(j)[0] == s[j]);
        if s[j] == c {
            assert(seq![c] =~= s.skip(j).subrange(0, 1));
        } else if seq![c].is_prefix_of(s.skip(j)) {
            assert(seq![c][0] == s.skip(j).subrange(0, 1)[0]);
        }
    }
    match find(s, seq![c]) {
        Some(i) => {
            assert(seq![c].is_prefix_of(s.skip(i)));
            assert forall|j: int| 0 <= j < i implies #[trigger] s[j] != c by {
                assert(!seq![c].is_prefix_of(s.skip(j)));
            }
        },
        None => {
            assert forall|j: int| 0 <= j < s.len() implies #[trigger] s[j] != c by {
                assert(!seq![c].is_prefix_of(s.skip(j)));
            }
        },
    }
}

/// A text without blanks has none to lose.
pub proof fn lemma_trim_solid(s: Seq<char>)
    requires
        forall|i: int| 0 <= i < s.len() ==> !is_blank(#[trigger] s[i]),
    ensures
        trim(s) == s,
{
    lemma_leading_is(s, CharClass::Blank, 0);
    assert(trim_start(s) =~= s);
    lemma_trailing_blanks_is(s, s.len() as int);
    assert(trim_end(s) =~= s);
}

/// A trimmed text is a part of the text.
pub proof fn lemma_trim_part(s: Seq<char>)
    ensures
        forall|i: int| 0 <= i < trim(s).len() ==> s.contains(#[trigger] trim(s)[i]),
{
    let n = leading(s, CharClass::Blank) as int;
    lemma_leading(s, CharClass::Blank);
    lemma_trailing_blanks(trim_start(s));
    assert forall|i: int| 0 <= i < trim(s).len() implies s.contains(#[trigger] trim(s)[i]) by {
        assert(trim(s)[i] == s[n + i]);
    }
}

/// A beginning that has no blank is kept when a text is trimmed.
pub proof fn lemma_trim_keeps_prefix(s: Seq<char>, prefix: Seq<char>)
    requires
        prefix.is_prefix_of(s),
        prefix.len() > 0,
        forall|i: int| 0 <= i < prefix.len() ==> !is_blank(#[trigger] prefix[i]),
    ensures
        prefix.is_prefix_of(trim(s)),
{
    let n = prefix.len() as int;
    assert(s.subrange(0, n) == prefix);
    assert(s[0] == prefix[0]);
    lemma_leading(s, CharClass::Blank);
    assert(trim_start(s) =~= s);
    lemma_trailing_blanks(s);
    assert(s[n - 1] == prefix[n - 1]);
    assert(trim(s).subrange(0, n) =~= prefix);
}

/// Trimming a trimmed text changes nothing.
pub proof fn trimming_again_changes_nothing(s: Seq<char>)
    ensures
        trim(trim(s)) == trim(s),
{
    let a = trim_start(s);
    let t = trim(s);
    lemma_leading(s, CharClass::Blank);
    lemma_trailing_blanks(a);
    if t.len() > 0 {
        assert(t[0] == a[0]);
        assert(a[0] == s[leading(s, CharClass::Blank) as int]);
        assert(t.last() == a[a.len() - trailing_blanks(a) - 1]);
    }
    lemma_leading_is(t, CharClass::Blank, 0);
    assert(trim_start(t) =~= t);
    lemma_trailing_blanks_is(t, t.len() as int);
    assert(trim_end(t) =~= t);
}

/// A word has at least one character and no blank.
pub proof fn lemma_words(s: Seq<char>)
    ensures
        forall|k: int|
            0 <= k < words(s).len() ==> {
                &&& (#[trigger] words(s)[k]).len() > 0
                &&& forall|i: int|
                    0 <= i < words(s)[k].len() ==> !is_blank(#[trigger] words(s)[k][i])
            },
    decreases s.len(),
{
    let t = trim_start(s);
    let n = leading(t, CharClass::Solid) as int;
    if 0 < n <= t.len() <= s.len() {
        lemma_leading(t, CharClass::Solid);
        lemma_words(t.skip(n));
        assert forall|k: int| 0 <= k < words(s).len() implies {
            &&& (#[trigger] words(s)[k]).len() > 0
            &&& forall|i: int| 0 <= i < words(s)[k].len() ==> !is_blank(#[trigger] words(s)[k][i])
        } by {
            if k == 0 {
                assert(words(s)[0] == t.take(n));
                assert forall|i: int| 0 <= i < n implies !is_blank(#[trigger] t.take(n)[i]) by {
                    assert(in_class(t[i], CharClass::Solid));
                }
            } else {
                assert(words(s)[k] == words(t.skip(n))[k - 1]);
            }
        }
    }
}

/// Whether the text consists of blanks, if of anything.
pub open spec fn all_blank(s: Seq<char>) -> bool {
    forall|i: int| 0 <= i < s.len() ==> is_blank(#[trigger] s[i])
}

/// Whether the text is a word: it is not empty and has no blank.
pub open spec fn is_word(s: Seq<char>) -> bool {
    s.len() > 0 && forall|i: int| 0 <= i < s.len() ==> !is_blank(#[trigger] s[i])
}

/// Whether the character occurs in the text.
pub open spec fn occurs(c: char, s: Seq<char>) -> bool {
    exists|i: int| 0 <= i < s.len() && #[trigger] s[i] == c
}

/// Whether the pattern occurs in the text.
pub open spec fn has_part(s: Seq<char>, pattern: Seq<char>) -> bool {
    exists|a: Seq<char>, b: Seq<char>| s == #[trigger] (a + pattern + b)
}

/// Words, each behind the blanks that part it from what stands before it.
pub open spec fn spaced(gaps: Seq<Seq<char>>, ws: Seq<Seq<char>>) -> Seq<char>
    decreases ws.len(),
{
    if ws.len() == 0 || gaps.len() == 0 {
        Seq::empty()
    } else {
        gaps[0] + ws[0] + spaced(gaps.drop_first(), ws.drop_first())
    }
}

/// Whether these blanks part these words: there is at least one between two
/// words; before the first there may be none.
pub open spec fn parts_words(gaps: Seq<Seq<char>>, ws: Seq<Seq<char>>) -> bool {
    &&& gaps.len() == ws.len()
    &&& forall|i: int| 0 <= i < gaps.len() ==> all_blank(#[trigger] gaps[i])
    &&& forall|i: int| 0 < i < gaps.len() ==> (#[trigger] gaps[i]).len() > 0
    &&& forall|i: int| 0 <= i < ws.len() ==> is_word(#[trigger] ws[i])
}

/// The first word is what stands between the blanks that a text begins with and
/// the next blank.
pub proof fn first_words_are_cut_off(gap: Seq<char>, w: Seq<char>, rest: Seq<char>)
    requires
        all_blank(gap),
        is_word(w),
        rest.len() > 0 ==> is_blank(rest[0]),
    ensures
        words(gap + w + rest) == seq![w] + words(rest),
{
    let s = gap + w + rest;
    let n = gap.len() as int;
    assert forall|i: int| 0 <= i < n implies in_class(#[trigger] s[i], CharClass::Blank) by {
        assert(s[i] == gap[i]);
    }
    assert(s[n] == w[0]);
    lemma_leading_is(s, CharClass::Blank, n);
    let t = trim_start(s);
    assert(t =~= w + rest);
    let m = w.len() as int;
    assert forall|i: int| 0 <= i < m implies in_class(#[trigger] t[i], CharClass::Solid) by {
        assert(t[i] == w[i]);
    }
    if rest.len() > 0 {
        assert(t[m] == rest[0]);
    }
    lemma_leading_is(t, CharClass::Solid, m);
    assert(t.take(m) =~= w);
    assert(t.skip(m) =~= rest);
}

/// Words that blanks part are read as these words, however many there are and
/// whatever blanks part them.
pub proof fn words_read_back(gaps: Seq<Seq<char>>, ws: Seq<Seq<char>>, end: Seq<char>)
    requires
        parts_words(gaps, ws),
        all_blank(end),
    ensures
        words(spaced(gaps, ws) + end) == ws,
    decreases ws.len(),
{
    if ws.len() == 0 {
        let s = spaced(gaps, ws) + end;
        assert(s =~= end);
        lemma_leading_is(s, CharClass::Blank, s.len() as int);
        assert(trim_start(s) =~= Seq::<char>::empty());
        assert(words(s) =~= ws);
    } else {
        let g = gaps.drop_first();
        let w = ws.drop_first();
        assert forall|i: int| 0 <= i < g.len() implies all_blank(#[trigger] g[i]) by {
            assert(g[i] == gaps[i + 1]);
        }
        assert forall|i: int| 0 < i < g.len() implies (#[trigger] g[i]).len() > 0 by {
            assert(g[i] == gaps[i + 1]);
        }
        assert forall|i: int| 0 <= i < w.len() implies is_word(#[trigger] w[i]) by {
            assert(w[i] == ws[i + 1]);
        }
        words_read_back(g, w, end);
        let rest = spaced(g, w) + end;
        if w.len() > 0 {
            assert(g[0] == gaps[1]);
            assert(gaps[1].len() > 0 && all_blank(gaps[1]));
            assert(rest[0] == g[0][0]);
        } else {
            assert(rest =~= end);
        }
        assert(all_blank(gaps[0]) && is_word(ws[0]));
        first_words_are_cut_off(gaps[0], ws[0], rest);
        assert(spaced(gaps, ws) + end =~= gaps[0] + ws[0] + rest);
        assert(seq![ws[0]] + w =~= ws);
    }
}

/// Blanks around a text are what trimming takes away, and all of it.
pub proof fn blanks_around_are_trimmed(before: Seq<char>, s: Seq<char>, behind: Seq<char>)
    requires
        all_blank(before),
        all_blank(behind),
        s.len() > 0 ==> !is_blank(s[0]) && !is_blank(s.last()),
    ensures
        trim(before + s + behind) == s,
{
    let t = before + s + behind;
    let n = before.len() as int;
    let m = s.len() as int;
    if m == 0 {
        assert forall|i: int| 0 <= i < t.len() implies in_class(
            #[trigger] t[i],
            CharClass::Blank,
        ) by {
            if i < n {
                assert(t[i] == before[i]);
            } else {
                assert(t[i] == behind[i - n]);
            }
        }
        lemma_leading_is(t, CharClass::Blank, t.len() as int);
        assert(trim_start(t) =~= Seq::<char>::empty());
        lemma_trailing_blanks(trim_start(t));
        assert(trim(t) =~= s);
    } else {
        assert forall|i: int| 0 <= i < n implies in_class(#[trigger] t[i], CharClass::Blank) by {
            assert(t[i] == before[i]);
        }
        assert(t[n] == s[0]);
        lemma_leading_is(t, CharClass::Blank, n);
        let u = trim_start(t);
        assert(u =~= s + behind);
        assert forall|i: int| m <= i < u.len() implies is_blank(#[trigger] u[i]) by {
            assert(u[i] == behind[i - m]);
        }
        assert(u[m - 1] == s[m - 1]);
        lemma_trailing_blanks_is(u, m);
        assert(trim_end(u) =~= s);
    }
}

/// A text that has a part is one in which it is found, and the other way round.
pub proof fn parts_are_found(s: Seq<char>, pattern: Seq<char>)
    ensures
        has_part(s, pattern) <==> find(s, pattern) is Some,
        find(s, pattern) is Some ==> s == s.take(find(s, pattern)->0) + pattern + s.skip(
            find(s, pattern)->0 + pattern.len(),
        ),
{
    lemma_find(s, pattern);
    if let Some(i) = find(s, pattern) {
        let a = s.take(i);
        let b = s.skip(i + pattern.len());
        assert(s.skip(i).subrange(0, pattern.len() as int) == pattern);
        assert forall|k: int| 0 <= k < pattern.len() implies s[i + k] == #[trigger] pattern[k] by {
            assert(s.skip(i).subrange(0, pattern.len() as int)[k] == s[i + k]);
        }
        assert(s =~= a + pattern + b);
    }
    if has_part(s, pattern) {
        let (a, b) = choose|a: Seq<char>, b: Seq<char>| s == #[trigger] (a + pattern + b);
        assert(s.skip(a.len() as int).subrange(0, pattern.len() as int) =~= pattern);
        assert(pattern.is_prefix_of(s.skip(a.len() as int)));
    }
}

/// The first line goes up to the first line feed; a carriage return before it
/// does not belong to the line.
pub proof fn first_lines_are_cut_off(line: Seq<char>, rest: Seq<char>)
    requires
        !occurs('\n', line),
    ensures
        line.len() > 0 ==> lines(line) == seq![line],
        line.len() == 0 ==> lines(line).len() == 0,
        line.len() == 0 || line.last() != '\r' ==> lines(line + seq!['\n'] + rest) == seq![line]
            + lines(rest),
        lines(line + seq!['\r', '\n'] + rest) == seq![line] + lines(rest),
{
    lemma_find_char(line, '\n');
    if find(line, seq!['\n']) is Some {
        assert(occurs('\n', line));
    }
    lemma_cut_line(line, rest);
    let returned = line.push('\r');
    assert forall|i: int| 0 <= i < returned.len() implies #[trigger] returned[i] != '\n' by {
        if i < line.len() {
            assert(returned[i] == line[i]);
            assert(!occurs('\n', line));
        }
    }
    lemma_cut_line(returned, rest);
    assert(returned.drop_last() =~= line);
    assert(returned + seq!['\n'] + rest =~= line + seq!['\r', '\n'] + rest);
}

proof fn lemma_cut_line(line: Seq<char>, rest: Seq<char>)
    requires
        !occurs('\n', line),
    ensures
        lines(line + seq!['\n'] + rest) == seq![strip_return(line)] + lines(rest),
{
    let s = line + seq!['\n'] + rest;
    let n = line.len() as int;
    lemma_find_char(s, '\n');
    assert(s[n] == '\n');
    assert forall|i: int| 0 <= i < n implies #[trigger] s[i] != '\n' by {
        assert(s[i] == line[i]);
        assert(!occurs('\n', line));
    }
    assert(find(s, seq!['\n']) == Some(n));
    assert(s.take(n) =~= line);
    assert(s.skip(n + 1) =~= rest);
}

/// The lines of a text that ends with a line feed and of what is added to it
/// are the lines of both.
pub proof fn lines_of_two_parts(top: Seq<char>, bottom: Seq<char>)
    requires
        top.len() > 0 ==> top.last() == '\n',
    ensures
        lines(top + bottom) == lines(top) + lines(bottom),
    decreases top.len(),
{
    if top.len() == 0 {
        assert(top + bottom =~= bottom);
        assert(lines(top) + lines(bottom) =~= lines(bottom));
    } else {
        lemma_find_char(top, '\n');
        assert(top[top.len() - 1] == '\n');
        let n = find(top, seq!['\n'])->0;
        let line = top.take(n);
        let rest = top.skip(n + 1);
        assert forall|i: int| 0 <= i < line.len() implies #[trigger] line[i] != '\n' by {
            assert(line[i] == top[i]);
        }
        assert(top =~= line + seq!['\n'] + rest);
        assert(top + bottom =~= line + seq!['\n'] + (rest + bottom));
        lemma_cut_line(line, rest);
        lemma_cut_line(line, rest + bottom);
        if rest.len() > 0 {
            assert(rest.last() == top.last());
        }
        lines_of_two_parts(rest, bottom);
        assert((seq![strip_return(line)] + lines(rest)) + lines(bottom) =~= seq![
            strip_return(line),
        ] + (lines(rest) + lines(bottom)));
    }
}

/// No line has a line feed in it.
pub proof fn lines_have_no_line_feed(s: Seq<char>, i: int)
    requires
        0 <= i < lines(s).len(),
    ensures
        !occurs('\n', lines(s)[i]),
    decreases s.len(),
{
    lemma_find_char(s, '\n');
    match find(s, seq!['\n']) {
        Some(n) => {
            if i == 0 {
                let line = lines(s)[0];
                assert(line == strip_return(s.take(n)));
                if occurs('\n', line) {
                    let k = choose|k: int| 0 <= k < line.len() && #[trigger] line[k] == '\n';
                    assert(s[k] == line[k]);
                }
            } else {
                assert(lines(s)[i] == lines(s.skip(n + 1))[i - 1]);
                lines_have_no_line_feed(s.skip(n + 1), i - 1);
            }
        },
        None => {
            assert(lines(s)[i] == s);
        },
    }
}

/// The characters of a text.
pub fn chars_of(s: &str) -> (r: Vec<char>)
    ensures
        r@ == s@,
{
    let mut r: Vec<char> = Vec::new();
    for c in it: s.chars()
        invariant
            it.seq() == s@,
            r@ == s@.take(it.index() as int),
    {
        r.push(c);
    }
    r
}

/// The text made of these characters.
pub fn string_of(s: &[char]) -> (r: String)
    ensures
        r@ == s@,
{
    let mut r = String::new();
    let mut i: usize = 0;
    while i < s.len()
        invariant
            i <= s@.len(),
            r@ == s@.take(i as int),
        decreases s@.len() - i,
    {
        r.push(s[i]);
        i = i + 1;
        assert(r@ =~= s@.take(i as int));
    }
    assert(s@.take(s@.len() as int) =~= s@);
    r
}

/// Whether `c` belongs to `class`.
fn char_in_class(c: char, class: CharClass) -> (r: bool)
    ensures
        r == in_class(c, class),
{
    let n: u32 = c as u32;
    let blank = (0x9 <= n && n <= 0xD) || n == 0x20 || n == 0x85 || n == 0xA0 || n == 0x1680 || (
    0x2000 <= n && n <= 0x200A) || n == 0x2028 || n == 0x2029 || n == 0x202F || n == 0x205F || n
        == 0x3000;
    match class {
        CharClass::Blank => blank,
        CharClass::Solid => !blank,
        CharClass::Digit => '0' as u32 <= n && n <= '9' as u32,
        CharClass::Slash => c == '/',
    }
}

/// The length of the run of `class` that the text begins with.
pub fn leading_len(s: &[char], class: CharClass) -> (n: usize)
    ensures
        n == leading(s@, class),
        n <= s@.len(),
{
    let mut n: usize = 0;
    while n < s.len() && char_in_class(s[n], class)
        invariant
            n <= s@.len(),
            forall|i: int| 0 <= i < n ==> in_class(#[trigger] s@[i], class),
        decreases s@.len() - n,
    {
        n = n + 1;
    }
    proof {
        lemma_leading_is(s@, class, n as int);
    }
    n
}

/// The text behind its first `n` characters.
pub fn skip(s: &[char], n: usize) -> (r: &[char])
    requires
        n <= s@.len(),
    ensures
        r@ == s@.skip(n as int),
{
    slice_subrange(s, n, s.len())
}

/// The first `n` characters of the text.
pub fn take(s: &[char], n: usize) -> (r: &[char])
    requires
        n <= s@.len(),
    ensures
        r@ == s@.take(n as int),
{
    slice_subrange(s, 0, n)
}

/// The text without the blanks around it.
pub fn trimmed(s: &[char]) -> (r: &[char])
    ensures
        r@ == trim(s@),
{
    let t = skip(s, leading_len(s, CharClass::Blank));
    let mut n: usize = t.len();
    while n > 0 && char_in_class(t[n - 1], CharClass::Blank)
        invariant
            n <= t@.len(),
            forall|i: int| n <= i < t@.len() ==> is_blank(#[trigger] t@[i]),
        decreases n,
    {
        n = n - 1;
    }
    proof {
        lemma_trailing_blanks_is(t@, n as int);
    }
    take(t, n)
}

/// Whether two texts are the same.
pub fn same(a: &[char], b: &[char]) -> (r: bool)
    ensures
        r == (a@ == b@),
{
    if a.len() != b.len() {
        return false;
    }
    let mut i: usize = 0;
    while i < a.len()
        invariant
            i <= a@.len(),
            a@.len() == b@.len(),
            a@.take(i as int) =~= b@.take(i as int),
        decreases a@.len() - i,
    {
        if a[i] != b[i] {
            return false;
        }
        i = i + 1;
        assert(a@.take(i as int) =~= a@.take(i - 1).push(a@[i - 1]));
        assert(b@.take(i as int) =~= b@.take(i - 1).push(b@[i - 1]));
    }
    assert(a@ =~= a@.take(i as int));
    assert(b@ =~= b@.take(i as int));
    true
}

/// Whether the text is `word`.
pub fn is_text(s: &[char], word: &str) -> (r: bool)
    ensures
        r == (s@ == word@),
{
    let w = chars_of(word);
    same(s, w.as_slice())
}

/// Whether the text begins with `prefix`.
pub fn begins_with(s: &[char], prefix: &str) -> (r: bool)
    ensures
        r == prefix@.is_prefix_of(s@),
{
    let p = chars_of(prefix);
    has_prefix(s, p.as_slice())
}

/// Whether the text ends with `suffix`.
pub fn finishes_with(s: &[char], suffix: &str) -> (r: bool)
    ensures
        r == suffix@.is_suffix_of(s@),
{
    let p = chars_of(suffix);
    if p.len() <= s.len() {
        same(skip(s, s.len() - p.len()), p.as_slice())
    } else {
        false
    }
}

fn has_prefix(s: &[char], prefix: &[char]) -> (r: bool)
    ensures
        r == prefix@.is_prefix_of(s@),
{
    if prefix.len() <= s.len() {
        same(take(s, prefix.len()), prefix)
    } else {
        false
    }
}

/// Where `pattern` first occurs in the text.
pub fn position_of(s: &[char], pattern: &str) -> (r: Option<usize>)
    ensures
        match r {
            Some(i) => find(s@, pattern@) == Some(i as int) && i + pattern@.len() <= s@.len()
                <= usize::MAX,
            None => find(s@, pattern@) is None,
        },
{
    let p = chars_of(pattern);
    let len: usize = s.len();
    let mut i: usize = 0;
    loop
        invariant
            i <= len,
            len == s@.len(),
            p@ == pattern@,
            forall|j: int| 0 <= j < i ==> !pattern@.is_prefix_of(#[trigger] s@.skip(j)),
        decreases s@.len() - i,
    {
        if has_prefix(skip(s, i), p.as_slice()) {
            proof {
                lemma_find_is(s@, pattern@, i as int);
            }
            return Some(i);
        }
        if i == len {
            proof {
                lemma_find_none(s@, pattern@);
            }
            return None;
        }
        i = i + 1;
    }
}

/// Where `c` first occurs in the text.
pub fn index_of(s: &[char], c: char) -> (r: Option<usize>)
    ensures
        match r {
            Some(i) => find(s@, seq![c]) == Some(i as int) && i < s@.len() <= usize::MAX,
            None => find(s@, seq![c]) is None,
        },
{
    proof {
        lemma_find_char(s@, c);
    }
    let mut i: usize = 0;
    while i < s.len()
        invariant
            i <= s@.len(),
            forall|j: int| 0 <= j < i ==> #[trigger] s@[j] != c,
            match find(s@, seq![c]) {
                Some(i) => 0 <= i < s@.len() && s@[i] == c && forall|j: int|
                    0 <= j < i ==> #[trigger] s@[j] != c,
                None => forall|j: int| 0 <= j < s@.len() ==> #[trigger] s@[j] != c,
            },
        decreases s@.len() - i,
    {
        if s[i] == c {
            return Some(i);
        }
        i = i + 1;
    }
    None
}

/// The first line of a text that is not empty, and what stands behind it.
pub fn split_line(s: &[char]) -> (r: (&[char], &[char]))
    requires
        s@.len() > 0,
    ensures
        lines(s@) == seq![r.0@] + lines(r.1@),
        r.1@.len() < s@.len(),
{
    match index_of(s, '\n') {
        Some(i) => {
            let line = take(s, i);
            let rest = skip(s, i + 1);
            if i > 0 && line[i - 1] == '\r' {
                (take(line, i - 1), rest)
            } else {
                (line, rest)
            }
        },
        None => {
            let rest = skip(s, s.len());
            assert(lines(s@) =~= seq![s@] + lines(rest@));
            (s, rest)
        },
    }
}

/// The word with index `n`, if the text has that many.
pub fn nth_word(s: &[char], n: usize) -> (r: Option<&[char]>)
    ensures
        match r {
            Some(w) => n < words(s@).len() && w@ == words(s@)[n as int],
            None => words(s@).len() <= n,
        },
{
    let mut rest = s;
    let mut k: usize = n;
    loop
        invariant
            k <= n,
            words(s@).len() == n - k + words(rest@).len(),
            forall|i: int|
                0 <= i < words(rest@).len() ==> words(s@)[n - k + i] == #[trigger] words(rest@)[i],
        decreases rest@.len(),
    {
        let t = skip(rest, leading_len(rest, CharClass::Blank));
        let m: usize = leading_len(t, CharClass::Solid);
        if m == 0 {
            return None;
        }
        let word = take(t, m);
        let after = skip(t, m);
        assert(words(rest@) == seq![word@] + words(after@));
        if k == 0 {
            assert(words(rest@)[0] == word@);
            return Some(word);
        }
        proof {
            assert forall|i: int| 0 <= i < words(after@).len() implies words(s@)[n - (k - 1) + i]
                == #[trigger] words(after@)[i] by {
                assert(words(rest@)[i + 1] == words(after@)[i]);
            }
        }
        rest = after;
        k = k - 1;
    }
}

} // verus!
