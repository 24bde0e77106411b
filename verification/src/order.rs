//! The order in which package names are rendered: by code point, letter
//! for letter, a name before every name that it begins.

use vstd::prelude::*;
use vstd::string::*;
use vstd::relations::{sorted_by, total_ordering};
use crate::text::{chars_of, texts};

verus! {

/// Whether `a` stands at or before `b` in the order of names.
pub open spec fn precedes(a: Seq<char>, b: Seq<char>) -> bool
    decreases a.len(),
{
    if a.len() == 0 {
        true
    } else if b.len() == 0 {
        false
    } else if a[0] != b[0] {
        (a[0] as u32) < (b[0] as u32)
    } else {
        precedes(a.drop_first(), b.drop_first())
    }
}

/// The order of names as a relation.
pub open spec fn name_order() -> spec_fn(Seq<char>, Seq<char>) -> bool {
    |a: Seq<char>, b: Seq<char>| precedes(a, b)
}

/// How many leading items of `s` stand at or before `x`.
pub open spec fn slot(s: Seq<Seq<char>>, x: Seq<char>) -> int
    decreases s.len(),
{
    if s.len() == 0 || !precedes(s[0], x) {
        0
    } else {
        1 + slot(s.drop_first(), x)
    }
}

/// The items of `s` in the order of names.
pub open spec fn ordered(s: Seq<Seq<char>>) -> Seq<Seq<char>>
    decreases s.len(),
{
    if s.len() == 0 {
        Seq::empty()
    } else {
        let before = ordered(s.drop_last());
        before.insert(slot(before, s.last()), s.last())
    }
}

/// Every name precedes itself.
pub proof fn lemma_precedes_reflexive(a: Seq<char>)
    ensures
        precedes(a, a),
    decreases a.len(),
{
    if a.len() > 0 {
        lemma_precedes_reflexive(a.drop_first());
    }
}

/// Two names that precede each other are one name.
pub proof fn lemma_precedes_antisymmetric(a: Seq<char>, b: Seq<char>)
    requires
        precedes(a, b),
        precedes(b, a),
    ensures
        a == b,
    decreases a.len(),
{
    if a.len() == 0 {
        assert(a =~= b);
    } else {
        lemma_precedes_antisymmetric(a.drop_first(), b.drop_first());
        assert(a =~= seq![a[0]] + a.drop_first());
        assert(b =~= seq![b[0]] + b.drop_first());
    }
}

/// What precedes a name precedes all that the name precedes.
pub proof fn lemma_precedes_transitive(a: Seq<char>, b: Seq<char>, c: Seq<char>)
    requires
        precedes(a, b),
        precedes(b, c),
    ensures
        precedes(a, c),
    decreases a.len(),
{
    if a.len() > 0 && a[0] == b[0] && b[0] == c[0] {
        lemma_precedes_transitive(a.drop_first(), b.drop_first(), c.drop_first());
    }
}

/// Two characters are one character or have two code points.
pub proof fn lemma_distinct_code_points(c: char, d: char)
    requires
        c != d,
    ensures
        c as u32 != d as u32,
{
}

/// Of two names one precedes the other.
pub proof fn lemma_precedes_connected(a: Seq<char>, b: Seq<char>)
    ensures
        precedes(a, b) || precedes(b, a),
    decreases a.len(),
{
    if a.len() > 0 && b.len() > 0 {
        if a[0] == b[0] {
            lemma_precedes_connected(a.drop_first(), b.drop_first());
        } else {
            lemma_distinct_code_points(a[0], b[0]);
        }
    }
}

/// The order of names is a total order.
pub proof fn lemma_name_order_is_total()
    ensures
        total_ordering(name_order()),
{
    let r = name_order();
    assert forall|x: Seq<char>| #[trigger] r(x, x) by {
        lemma_precedes_reflexive(x);
    }
    assert forall|x: Seq<char>, y: Seq<char>| #[trigger] r(x, y) && #[trigger] r(y, x) implies x
        == y by {
        lemma_precedes_antisymmetric(x, y);
    }
    assert forall|x: Seq<char>, y: Seq<char>, z: Seq<char>| #[trigger]
        r(x, y) && #[trigger] r(y, z) implies r(x, z) by {
        lemma_precedes_transitive(x, y, z);
    }
    assert forall|x: Seq<char>, y: Seq<char>| #[trigger] r(x, y) || #[trigger] r(y, x) by {
        lemma_precedes_connected(x, y);
    }
}

/// `slot` is the index of the first item that does not precede `x`.
pub proof fn lemma_slot(s: Seq<Seq<char>>, x: Seq<char>, k: int)
    requires
        0 <= k <= s.len(),
        forall|j: int| 0 <= j < k ==> precedes(#[trigger] s[j], x),
        k == s.len() || !precedes(s[k], x),
    ensures
        slot(s, x) == k,
    decreases k,
{
    if k > 0 {
        let t = s.drop_first();
        assert forall|j: int| 0 <= j < k - 1 implies precedes(#[trigger] t[j], x) by {
            assert(t[j] == s[j + 1]);
        }
        lemma_slot(t, x, k - 1);
    }
}

/// `slot` lies within `s`; the items before it precede `x`, the item at it
/// does not.
pub proof fn lemma_slot_bounds(s: Seq<Seq<char>>, x: Seq<char>)
    ensures
        0 <= slot(s, x) <= s.len(),
        forall|j: int| 0 <= j < slot(s, x) ==> precedes(#[trigger] s[j], x),
        slot(s, x) == s.len() || !precedes(s[slot(s, x)], x),
    decreases s.len(),
{
    if !(s.len() == 0 || !precedes(s[0], x)) {
        let t = s.drop_first();
        lemma_slot_bounds(t, x);
        assert forall|j: int| 0 <= j < slot(s, x) implies precedes(#[trigger] s[j], x) by {
            if j > 0 {
                assert(s[j] == t[j - 1]);
            }
        }
        if slot(s, x) != s.len() {
            assert(s[slot(s, x)] == t[slot(t, x)]);
        }
    }
}

/// Ordering keeps every item, as often as it stood, and puts each at or
/// before all that follow it.
pub proof fn lemma_ordered(s: Seq<Seq<char>>)
    ensures
        ordered(s).len() == s.len(),
        ordered(s).to_multiset() == s.to_multiset(),
        sorted_by(ordered(s), name_order()),
    decreases s.len(),
{
    broadcast use vstd::seq_lib::to_multiset_insert, vstd::seq_lib::to_multiset_build;

    if s.len() > 0 {
        let init = s.drop_last();
        let before = ordered(init);
        let x = s.last();
        let at = slot(before, x);
        lemma_ordered(init);
        lemma_slot_bounds(before, x);
        assert(init.push(x) =~= s);
        let after = before.insert(at, x);
        assert forall|i: int, j: int| 0 <= i < j < after.len() implies #[trigger] name_order()(
            after[i],
            after[j],
        ) by {
            if j < at {
                assert(name_order()(before[i], before[j]));
            } else if j == at {
                assert(precedes(before[i], x));
            } else if i < at {
                assert(name_order()(before[i], before[j - 1]));
            } else if i == at {
                lemma_precedes_connected(before[at], x);
                if at < j - 1 {
                    assert(name_order()(before[at], before[j - 1]));
                    lemma_precedes_transitive(x, before[at], before[j - 1]);
                }
            } else {
                assert(name_order()(before[i - 1], before[j - 1]));
            }
        }
    } else {
        assert(ordered(s) =~= s);
    }
}

/// Two lists that hold the same names, each name once, are the same list
/// once ordered.
pub proof fn order_depends_on_the_names_alone(a: Seq<Seq<char>>, b: Seq<Seq<char>>)
    requires
        a.no_duplicates(),
        b.no_duplicates(),
        a.to_set() == b.to_set(),
    ensures
        ordered(a) == ordered(b),
{
    broadcast use vstd::seq_lib::to_multiset_contains;

    lemma_ordered(a);
    lemma_ordered(b);
    lemma_name_order_is_total();
    a.lemma_multiset_has_no_duplicates();
    b.lemma_multiset_has_no_duplicates();
    assert forall|x: Seq<char>| a.to_multiset().count(x) == b.to_multiset().count(x) by {
        if a.contains(x) {
            assert(a.to_set().contains(x));
            assert(b.to_set().contains(x));
        }
        if b.contains(x) {
            assert(b.to_set().contains(x));
            assert(a.to_set().contains(x));
        }
        assert(a.contains(x) <==> a.to_multiset().count(x) > 0);
        assert(b.contains(x) <==> b.to_multiset().count(x) > 0);
    }
    assert(a.to_multiset() =~= b.to_multiset());
    vstd::seq_lib::lemma_sorted_unique(ordered(a), ordered(b), name_order());
}

/// Whether `a` stands at or before `b` in the order of names.
pub fn comes_before(a: &str, b: &str) -> (r: bool)
    ensures
        r == precedes(a@, b@),
{
    let left = chars_of(a);
    let right = chars_of(b);
    let n = left.len();
    let m = right.len();
    let mut i: usize = 0;
    proof {
        assert(a@.skip(0) =~= a@);
        assert(b@.skip(0) =~= b@);
    }
    while i < n && i < m
        invariant
            i <= n,
            i <= m,
            n == a@.len(),
            m == b@.len(),
            left@ == a@,
            right@ == b@,
            precedes(a@, b@) == precedes(a@.skip(i as int), b@.skip(i as int)),
        decreases n - i,
    {
        let x = left[i];
        let y = right[i];
        proof {
            assert(a@.skip(i as int)[0] == x);
            assert(b@.skip(i as int)[0] == y);
            assert(a@.skip(i as int).drop_first() =~= a@.skip(i + 1));
            assert(b@.skip(i as int).drop_first() =~= b@.skip(i + 1));
        }
        if x != y {
            return (x as u32) < (y as u32);
        }
        i += 1;
    }
    i == n
}

/// The names of `items` in the order of names.
pub fn sort_names(items: &[String]) -> (out: Vec<String>)
    ensures
        texts(out@) == ordered(texts(items@)),
        sorted_by(texts(out@), name_order()),
        texts(out@).to_multiset() == texts(items@).to_multiset(),
{
    let mut out: Vec<String> = Vec::new();
    let mut i: usize = 0;
    proof {
        assert(texts(out@) =~= Seq::<Seq<char>>::empty());
    }
    while i < items.len()
        invariant
            i <= items.len(),
            texts(out@) == ordered(texts(items@).take(i as int)),
        decreases items.len() - i,
    {
        let item = items[i].clone();
        let mut at: usize = 0;
        while at < out.len() && comes_before(out[at].as_str(), item.as_str())
            invariant
                at <= out.len(),
                forall|j: int| 0 <= j < at ==> precedes(#[trigger] texts(out@)[j], item@),
            decreases out.len() - at,
        {
            proof {
                assert(texts(out@)[at as int] == out@[at as int]@);
            }
            at += 1;
        }
        proof {
            let next = texts(items@).take(i + 1);
            assert(next.drop_last() =~= texts(items@).take(i as int));
            assert(next.last() == item@);
            if at < out.len() {
                assert(texts(out@)[at as int] == out@[at as int]@);
            }
            lemma_slot(texts(out@), item@, at as int);
            assert(texts(out@.insert(at as int, item)) =~= texts(out@).insert(at as int, item@));
        }
        out.insert(at, item);
        i += 1;
    }
    proof {
        assert(texts(items@).take(items.len() as int) =~= texts(items@));
        lemma_ordered(texts(items@));
    }
    out
}

} // verus!
