//! The diff engine: what a new package list adds to an old one, and what it
//! drops.

use vstd::prelude::*;
use crate::text::texts;

verus! {

/// The items of `a` that `b` lacks, each once, in the order in which `a`
/// first names them.
pub open spec fn picked(a: Seq<Seq<char>>, b: Seq<Seq<char>>) -> Seq<Seq<char>>
    decreases a.len(),
{
    if a.len() == 0 {
        Seq::empty()
    } else {
        let before = picked(a.drop_last(), b);
        if b.contains(a.last()) || before.contains(a.last()) {
            before
        } else {
            before.push(a.last())
        }
    }
}

/// What `s.push(e)` contains.
pub proof fn lemma_push_contains<T>(s: Seq<T>, e: T, x: T)
    ensures
        s.push(e).contains(x) <==> (s.contains(x) || x == e),
{
    let t = s.push(e);
    if t.contains(x) {
        let i = choose|i: int| 0 <= i < t.len() && t[i] == x;
        if i < s.len() {
            assert(s[i] == x);
        }
    }
    if s.contains(x) {
        let i = choose|i: int| 0 <= i < s.len() && s[i] == x;
        assert(t[i] == x);
    }
    if x == e {
        assert(t[s.len() as int] == x);
    }
}

/// `picked(a, b)` holds exactly the items of `a` that `b` lacks, and none
/// twice.
pub proof fn lemma_picked(a: Seq<Seq<char>>, b: Seq<Seq<char>>)
    ensures
        forall|x: Seq<char>| #[trigger]
            picked(a, b).contains(x) <==> (a.contains(x) && !b.contains(x)),
        picked(a, b).no_duplicates(),
        picked(a, b).to_set() == a.to_set().difference(b.to_set()),
    decreases a.len(),
{
    if a.len() > 0 {
        let init = a.drop_last();
        let before = picked(init, b);
        lemma_picked(init, b);
        assert(init.push(a.last()) =~= a);
        assert forall|x: Seq<char>| #[trigger]
            picked(a, b).contains(x) <==> (a.contains(x) && !b.contains(x)) by {
            lemma_push_contains(init, a.last(), x);
            lemma_push_contains(before, a.last(), x);
        }
    }
    assert(picked(a, b).to_set() =~= a.to_set().difference(b.to_set()));
}

/// Whether `list` names `name`.
pub fn contains_name(list: &[String], name: &String) -> (b: bool)
    ensures
        b == texts(list@).contains(name@),
{
    let mut i: usize = 0;
    while i < list.len()
        invariant
            i <= list.len(),
            forall|k: int| 0 <= k < i ==> texts(list@)[k] != name@,
        decreases list.len() - i,
    {
        if list[i] == *name {
            assert(texts(list@)[i as int] == name@);
            return true;
        }
        i += 1;
    }
    false
}

/// The names of `a` that `b` lacks, each once, in the order in which `a`
/// first gives them.
pub fn difference(a: &[String], b: &[String]) -> (out: Vec<String>)
    ensures
        texts(out@) == picked(texts(a@), texts(b@)),
        texts(out@).to_set() == texts(a@).to_set().difference(texts(b@).to_set()),
        texts(out@).no_duplicates(),
{
    let mut out: Vec<String> = Vec::new();
    let mut i: usize = 0;
    proof {
        assert(texts(out@) =~= Seq::<Seq<char>>::empty());
    }
    while i < a.len()
        invariant
            i <= a.len(),
            texts(out@) == picked(texts(a@).take(i as int), texts(b@)),
        decreases a.len() - i,
    {
        proof {
            let next = texts(a@).take(i + 1);
            assert(next.drop_last() =~= texts(a@).take(i as int));
            assert(next.last() == a@[i as int]@);
        }
        if !contains_name(b, &a[i]) && !contains_name(out.as_slice(), &a[i]) {
            let item = a[i].clone();
            proof {
                assert(texts(out@.push(item)) =~= texts(out@).push(item@));
            }
            out.push(item);
        }
        i += 1;
    }
    proof {
        assert(texts(a@).take(a.len() as int) =~= texts(a@));
        lemma_picked(texts(a@), texts(b@));
    }
    out
}

/// Compares two package lists as sets. The first list of the result holds
/// the names that `new` has and `old` lacks, the second those that `old` has
/// and `new` lacks; a name that both have is in neither.
pub fn diff_unique(old: &[String], new: &[String]) -> (d: (Vec<String>, Vec<String>))
    ensures
        texts(d.0@) == picked(texts(new@), texts(old@)),
        texts(d.1@) == picked(texts(old@), texts(new@)),
        texts(d.0@).to_set() == texts(new@).to_set().difference(texts(old@).to_set()),
        texts(d.1@).to_set() == texts(old@).to_set().difference(texts(new@).to_set()),
        texts(d.0@).no_duplicates(),
        texts(d.1@).no_duplicates(),
        texts(d.0@).to_set().disjoint(texts(d.1@).to_set()),
{
    let added = difference(new, old);
    let removed = difference(old, new);
    (added, removed)
}

/// A package list compared with one of the same names adds nothing and
/// removes nothing.
pub proof fn diff_of_equal_sets_is_empty(a: Seq<Seq<char>>, b: Seq<Seq<char>>)
    requires
        a.to_set() == b.to_set(),
    ensures
        picked(a, b) == Seq::<Seq<char>>::empty(),
        picked(b, a) == Seq::<Seq<char>>::empty(),
{
    lemma_picked(a, b);
    lemma_picked(b, a);
    if picked(a, b).len() > 0 {
        let x = picked(a, b)[0];
        assert(picked(a, b).contains(x));
        assert(a.to_set().contains(x));
        assert(b.to_set().contains(x));
    }
    if picked(b, a).len() > 0 {
        let x = picked(b, a)[0];
        assert(picked(b, a).contains(x));
        assert(b.to_set().contains(x));
        assert(a.to_set().contains(x));
    }
    assert(picked(a, b) =~= Seq::<Seq<char>>::empty());
    assert(picked(b, a) =~= Seq::<Seq<char>>::empty());
}

/// A package list compared with itself adds nothing and removes nothing.
pub proof fn diff_with_self_is_empty(a: Seq<Seq<char>>)
    ensures
        picked(a, a) == Seq::<Seq<char>>::empty(),
{
    diff_of_equal_sets_is_empty(a, a);
}

/// What a diff adds and what it removes have nothing in common, and each is
/// the difference of the two lists as sets.
pub proof fn diff_is_set_difference(old: Seq<Seq<char>>, new: Seq<Seq<char>>)
    ensures
        picked(new, old).to_set() == new.to_set().difference(old.to_set()),
        picked(old, new).to_set() == old.to_set().difference(new.to_set()),
        picked(new, old).to_set().disjoint(picked(old, new).to_set()),
{
    lemma_picked(new, old);
    lemma_picked(old, new);
}

} // verus!
