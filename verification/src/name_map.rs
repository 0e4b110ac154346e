//! Values by name, kept in the order of the names.

use vstd::prelude::*;

use crate::text::chars_of;

verus! {

/// Whether `a` stands before `b` in the order of texts, which goes by the
/// first character that differs and puts a text before its continuations.
pub open spec fn text_before(a: Seq<char>, b: Seq<char>) -> bool
    decreases a.len(),
{
    if b.len() == 0 {
        false
    } else if a.len() == 0 {
        true
    } else if a[0] == b[0] {
        text_before(a.drop_first(), b.drop_first())
    } else {
        a[0] < b[0]
    }
}

/// Whether the names ascend.
pub open spec fn ascending<V>(pairs: Seq<(String, V)>) -> bool {
    forall|i: int, j: int|
        0 <= i < j < pairs.len() ==> text_before(#[trigger] pairs[i].0@, #[trigger] pairs[j].0@)
}

/// The values by name that these pairs stand for.
pub open spec fn pairs_map<V>(pairs: Seq<(String, V)>) -> Map<Seq<char>, V>
    decreases pairs.len(),
{
    if pairs.len() == 0 {
        Map::empty()
    } else {
        pairs_map(pairs.drop_last()).insert(pairs.last().0@, pairs.last().1)
    }
}

/// The first character that differs decides the order of two texts, and a text
/// stands before its continuations.
pub proof fn first_difference_decides(
    same: Seq<char>,
    a: char,
    b: char,
    x: Seq<char>,
    y: Seq<char>,
)
    requires
        a < b,
    ensures
        text_before(same + seq![a] + x, same + seq![b] + y),
        text_before(same, same + seq![b] + y),
    decreases same.len(),
{
    let p = same + seq![a] + x;
    let q = same + seq![b] + y;
    if same.len() > 0 {
        let t = same.drop_first();
        first_difference_decides(t, a, b, x, y);
        assert(p.drop_first() =~= t + seq![a] + x);
        assert(q.drop_first() =~= t + seq![b] + y);
    } else {
        assert(p[0] == a && q[0] == b);
    }
}

/// No text stands before itself.
pub proof fn text_order_is_strict(a: Seq<char>)
    ensures
        !text_before(a, a),
    decreases a.len(),
{
    if a.len() > 0 {
        text_order_is_strict(a.drop_first());
    }
}

/// What stands before a text stands before all that it stands before.
pub proof fn text_order_is_transitive(a: Seq<char>, b: Seq<char>, c: Seq<char>)
    requires
        text_before(a, b),
        text_before(b, c),
    ensures
        text_before(a, c),
    decreases a.len(),
{
    if a.len() > 0 && a[0] == b[0] && b[0] == c[0] {
        text_order_is_transitive(a.drop_first(), b.drop_first(), c.drop_first());
    }
}

/// Of two texts that differ, one stands before the other.
pub proof fn text_order_is_total(a: Seq<char>, b: Seq<char>)
    ensures
        a == b || text_before(a, b) || text_before(b, a),
    decreases a.len(),
{
    if a.len() == 0 && b.len() == 0 {
        assert(a =~= b);
    } else if a.len() > 0 && b.len() > 0 {
        if a[0] == b[0] {
            text_order_is_total(a.drop_first(), b.drop_first());
            if a.drop_first() == b.drop_first() {
                assert(a =~= seq![a[0]] + a.drop_first());
                assert(b =~= seq![b[0]] + b.drop_first());
            }
        }
    }
}

/// A map of pairs is finite, and its names are those of the pairs.
pub proof fn lemma_pairs_map_names<V>(pairs: Seq<(String, V)>)
    ensures
        pairs_map(pairs).dom().finite(),
        forall|k: Seq<char>| #[trigger]
            pairs_map(pairs).contains_key(k) <==> exists|i: int|
                0 <= i < pairs.len() && #[trigger] pairs[i].0@ == k,
    decreases pairs.len(),
{
    if pairs.len() > 0 {
        let rest = pairs.drop_last();
        lemma_pairs_map_names(rest);
        assert forall|k: Seq<char>| #[trigger]
            pairs_map(pairs).contains_key(k) <==> exists|i: int|
                0 <= i < pairs.len() && #[trigger] pairs[i].0@ == k by {
            if k == pairs.last().0@ {
                assert(pairs[pairs.len() - 1].0@ == k);
            } else if pairs_map(pairs).contains_key(k) {
                assert(pairs_map(rest).contains_key(k));
                let i = choose|i: int| 0 <= i < rest.len() && #[trigger] rest[i].0@ == k;
                assert(pairs[i].0@ == k);
            } else if exists|i: int| 0 <= i < pairs.len() && #[trigger] pairs[i].0@ == k {
                let i = choose|i: int| 0 <= i < pairs.len() && #[trigger] pairs[i].0@ == k;
                assert(rest[i].0@ == k);
                assert(pairs_map(rest).contains_key(k));
            }
        }
    }
}

/// Where the names ascend, each pair's value is the one by its name.
pub proof fn lemma_pairs_map_values<V>(pairs: Seq<(String, V)>)
    requires
        ascending(pairs),
    ensures
        forall|i: int|
            0 <= i < pairs.len() ==> pairs_map(pairs)[#[trigger] pairs[i].0@] == pairs[i].1,
    decreases pairs.len(),
{
    if pairs.len() > 0 {
        let rest = pairs.drop_last();
        assert forall|i: int, j: int| 0 <= i < j < rest.len() implies text_before(
            #[trigger] rest[i].0@,
            #[trigger] rest[j].0@,
        ) by {
            assert(rest[i] == pairs[i] && rest[j] == pairs[j]);
        }
        lemma_pairs_map_values(rest);
        assert forall|i: int| 0 <= i < pairs.len() implies pairs_map(pairs)[#[trigger] pairs[i].0@]
            == pairs[i].1 by {
            if i < pairs.len() - 1 {
                assert(rest[i] == pairs[i]);
                assert(text_before(pairs[i].0@, pairs[pairs.len() - 1].0@));
                text_order_is_strict(pairs[i].0@);
            }
        }
    }
}

/// The sum of the numbers of a finite map.
pub open spec fn sum(m: Map<Seq<char>, nat>) -> nat
    decreases m.dom().len(),
{
    if m.dom().finite() && m.dom().len() > 0 {
        let k = m.dom().choose();
        m[k] + sum(m.remove(k))
    } else {
        0
    }
}

/// A sum is any one of its numbers and the sum of the others.
pub proof fn lemma_sum_remove(m: Map<Seq<char>, nat>, k: Seq<char>)
    requires
        m.dom().finite(),
        m.contains_key(k),
    ensures
        sum(m) == m[k] + sum(m.remove(k)),
    decreases m.dom().len(),
{
    let c = m.dom().choose();
    assert(m.dom().contains(k));
    assert(m.dom().len() > 0);
    assert(m.dom().contains(c));
    if c != k {
        assert(m.remove(c).dom() =~= m.dom().remove(c));
        assert(m.remove(k).dom() =~= m.dom().remove(k));
        lemma_sum_remove(m.remove(c), k);
        lemma_sum_remove(m.remove(k), c);
        assert(m.remove(c).remove(k) =~= m.remove(k).remove(c));
    }
}

/// Setting a number changes the sum by the difference.
pub proof fn lemma_sum_insert(m: Map<Seq<char>, nat>, k: Seq<char>, n: nat)
    requires
        m.dom().finite(),
    ensures
        sum(m.insert(k, n)) + (if m.contains_key(k) {
            m[k]
        } else {
            0
        }) == sum(m) + n,
{
    let w = m.insert(k, n);
    assert(w.dom() =~= m.dom().insert(k));
    lemma_sum_remove(w, k);
    if m.contains_key(k) {
        lemma_sum_remove(m, k);
        assert(w.remove(k) =~= m.remove(k));
    } else {
        assert(w.remove(k) =~= m);
    }
}

/// No number is greater than the sum.
pub proof fn lemma_sum_bounds(m: Map<Seq<char>, nat>, k: Seq<char>)
    requires
        m.dom().finite(),
        m.contains_key(k),
    ensures
        m[k] <= sum(m),
{
    lemma_sum_remove(m, k);
}

/// The sum of an empty map.
pub proof fn lemma_sum_empty(m: Map<Seq<char>, nat>)
    requires
        m.dom() =~= Set::<Seq<char>>::empty(),
    ensures
        sum(m) == 0,
{
    assert(m.dom() == Set::<Seq<char>>::empty());
}

/// How two texts stand to each other.
#[derive(Clone, Copy, PartialEq, Eq, Structural, Debug)]
enum Order {
    Before,
    Same,
    Behind,
}

fn compare_texts(a: &[char], b: &[char]) -> (r: Order)
    ensures
        match r {
            Order::Before => text_before(a@, b@),
            Order::Same => a@ == b@,
            Order::Behind => text_before(b@, a@),
        },
{
    let mut i: usize = 0;
    assert(a@.skip(0) =~= a@);
    assert(b@.skip(0) =~= b@);
    while i < a.len() && i < b.len()
        invariant
            i <= a@.len(),
            i <= b@.len(),
            a@.take(i as int) == b@.take(i as int),
            text_before(a@.skip(i as int), b@.skip(i as int)) ==> text_before(a@, b@),
            text_before(b@.skip(i as int), a@.skip(i as int)) ==> text_before(b@, a@),
        decreases a@.len() - i,
    {
        let ghost x = a@.skip(i as int);
        let ghost y = b@.skip(i as int);
        assert(x[0] == a@[i as int] && y[0] == b@[i as int]);
        assert(x.drop_first() =~= a@.skip(i + 1));
        assert(y.drop_first() =~= b@.skip(i + 1));
        let c: char = a[i];
        let d: char = b[i];
        if c < d {
            return Order::Before;
        }
        if d < c {
            return Order::Behind;
        }
        assert(a@.take(i + 1) =~= a@.take(i as int).push(a@[i as int]));
        assert(b@.take(i + 1) =~= b@.take(i as int).push(b@[i as int]));
        i = i + 1;
    }
    if i < b.len() {
        Order::Before
    } else if i < a.len() {
        Order::Behind
    } else {
        assert(a@ =~= a@.take(i as int));
        assert(b@ =~= b@.take(i as int));
        Order::Same
    }
}

/// Values by name.
#[derive(Debug)]
pub struct NameMap<V> {
    entries: Vec<(String, V)>,
}

impl<V> View for NameMap<V> {
    type V = Map<Seq<char>, V>;

    closed spec fn view(&self) -> Map<Seq<char>, V> {
        pairs_map(self.entries@)
    }
}

impl<V> NameMap<V> {
    /// The names and values, in the order of the names.
    pub closed spec fn pairs(&self) -> Seq<(String, V)> {
        self.entries@
    }

    #[verifier::type_invariant]
    spec fn well_formed(self) -> bool {
        ascending(self.entries@)
    }
}

impl<V: Copy> NameMap<V> {
    /// No value at all.
    pub fn new() -> (r: Self)
        ensures
            r@ == Map::<Seq<char>, V>::empty(),
    {
        NameMap { entries: Vec::new() }
    }

    /// The first index whose name does not stand before `key`, and whether
    /// the name there is `key`.
    fn position(entries: &Vec<(String, V)>, key: &str) -> (r: (usize, bool))
        requires
            ascending(entries@),
        ensures
            r.0 <= entries@.len(),
            forall|i: int| 0 <= i < r.0 ==> text_before(#[trigger] entries@[i].0@, key@),
            r.1 ==> r.0 < entries@.len() && entries@[r.0 as int].0@ == key@,
            !r.1 ==> forall|i: int|
                r.0 <= i < entries@.len() ==> text_before(key@, #[trigger] entries@[i].0@),
    {
        let k = chars_of(key);
        let mut i: usize = 0;
        while i < entries.len()
            invariant
                i <= entries@.len(),
                k@ == key@,
                ascending(entries@),
                forall|j: int| 0 <= j < i ==> text_before(#[trigger] entries@[j].0@, key@),
            decreases entries@.len() - i,
        {
            let e = chars_of(entries[i].0.as_str());
            match compare_texts(e.as_slice(), k.as_slice()) {
                Order::Before => {
                    i = i + 1;
                },
                Order::Same => {
                    return (i, true);
                },
                Order::Behind => {
                    assert forall|j: int| i <= j < entries@.len() implies text_before(
                        key@,
                        #[trigger] entries@[j].0@,
                    ) by {
                        if i < j {
                            text_order_is_transitive(key@, entries@[i as int].0@, entries@[j].0@);
                        }
                    }
                    return (i, false);
                },
            }
        }
        (i, false)
    }

    /// The value by the name `key`.
    pub fn get(&self, key: &str) -> (r: Option<V>)
        ensures
            r == if self@.contains_key(key@) {
                Some(self@[key@])
            } else {
                None
            },
    {
        proof {
            use_type_invariant(self);
            lemma_pairs_map_names(self.entries@);
            lemma_pairs_map_values(self.entries@);
        }
        let (i, found) = Self::position(&self.entries, key);
        if found {
            assert(self@.contains_key(self.entries@[i as int].0@));
            Some(self.entries[i].1)
        } else {
            proof {
                text_order_is_strict(key@);
            }
            None
        }
    }

    /// Sets the value by the name `key`.
    pub fn insert(&mut self, key: String, value: V)
        ensures
            final(self)@ == old(self)@.insert(key@, value),
    {
        proof {
            use_type_invariant(&*self);
        }
        let ghost map = self@;
        let mut entries: Vec<(String, V)> = Vec::new();
        std::mem::swap(&mut entries, &mut self.entries);
        let ghost old_pairs = entries@;
        let (i, found) = Self::position(&entries, key.as_str());
        if found {
            entries.set(i, (key, value));
        } else {
            entries.insert(i, (key, value));
        }
        proof {
            let p = i as int;
            let pairs = entries@;
            text_order_is_strict(key@);
            assert forall|a: int, b: int| 0 <= a < b < pairs.len() implies text_before(
                #[trigger] pairs[a].0@,
                #[trigger] pairs[b].0@,
            ) by {
                let x = if found || a < p { a } else { a - 1 };
                let y = if found || b < p { b } else { b - 1 };
                if found {
                    assert(pairs[a].0@ == old_pairs[a].0@ && pairs[b].0@ == old_pairs[b].0@);
                } else if a == p {
                    assert(pairs[b] == old_pairs[y]);
                } else if b == p {
                    assert(pairs[a] == old_pairs[x]);
                } else {
                    assert(pairs[a] == old_pairs[x] && pairs[b] == old_pairs[y]);
                }
            }
            lemma_pairs_map_names(old_pairs);
            lemma_pairs_map_values(old_pairs);
            lemma_pairs_map_names(pairs);
            lemma_pairs_map_values(pairs);
            let want = map.insert(key@, value);
            assert(pairs[p].0@ == key@ && pairs[p].1 == value);
            assert forall|n: Seq<char>| #[trigger]
                pairs_map(pairs).contains_key(n) == want.contains_key(n) by {
                if pairs_map(pairs).contains_key(n) {
                    let a = choose|a: int| 0 <= a < pairs.len() && #[trigger] pairs[a].0@ == n;
                    if a != p {
                        let x = if found || a < p { a } else { a - 1 };
                        assert(old_pairs[x].0@ == n);
                    }
                }
                if want.contains_key(n) && n != key@ {
                    let x = choose|x: int|
                        0 <= x < old_pairs.len() && #[trigger] old_pairs[x].0@ == n;
                    let a = if found || x < p { x } else { x + 1 };
                    assert(pairs[a].0@ == n);
                }
            }
            assert forall|n: Seq<char>| want.contains_key(n) implies pairs_map(pairs)[n]
                == #[trigger] want[n] by {
                if n != key@ {
                    let x = choose|x: int|
                        0 <= x < old_pairs.len() && #[trigger] old_pairs[x].0@ == n;
                    let a = if found || x < p { x } else { x + 1 };
                    assert(pairs[a] == old_pairs[x]);
                    assert(pairs_map(pairs)[pairs[a].0@] == pairs[a].1);
                } else {
                    assert(pairs_map(pairs)[pairs[p].0@] == pairs[p].1);
                }
            }
            assert(pairs_map(pairs) =~= want);
        }
        self.entries = entries;
    }

    /// The names and values, in the order of the names.
    pub fn as_pairs(&self) -> (r: &Vec<(String, V)>)
        ensures
            r@ == self.pairs(),
            ascending(r@),
            pairs_map(r@) == self@,
            self@.dom().finite(),
    {
        proof {
            use_type_invariant(self);
            lemma_pairs_map_names(self.entries@);
        }
        &self.entries
    }
}

} // verus!
