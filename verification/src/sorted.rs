//! A set of strings kept in increasing code-point order, which is the
//! order in which a `BTreeSet<String>` hands out its elements.
use vstd::prelude::*;

use crate::text::{
    lemma_lex_asymmetric, lemma_lex_irreflexive, lemma_lex_total, lemma_lex_transitive, lex_less,
    lex_lt, views,
};

verus! {

/// Every element of `ps` sorts strictly before every later one.
pub open spec fn strictly_sorted(ps: Seq<Seq<char>>) -> bool {
    forall|i: int, j: int| 0 <= i < j < ps.len() ==> lex_lt(#[trigger] ps[i], #[trigger] ps[j])
}

/// The elements of the set `s`, in increasing order.
pub open spec fn sorted_elements(s: Set<Seq<char>>) -> Seq<Seq<char>> {
    choose|ps: Seq<Seq<char>>| strictly_sorted(ps) && ps.to_set() == s
}

proof fn lemma_sorted_drop_first_set(a: Seq<Seq<char>>)
    requires
        strictly_sorted(a),
        a.len() > 0,
    ensures
        a.drop_first().to_set() == a.to_set().remove(a[0]),
        strictly_sorted(a.drop_first()),
{
    let t = a.drop_first();
    assert forall|x: Seq<char>| t.to_set().contains(x) <==> a.to_set().remove(a[0]).contains(x) by {
        if t.to_set().contains(x) {
            let k = choose|k: int| 0 <= k < t.len() && t[k] == x;
            assert(a[k + 1] == x);
            assert(lex_lt(a[0], a[k + 1]));
            lemma_lex_irreflexive(x);
        }
        if a.to_set().remove(a[0]).contains(x) {
            let k = choose|k: int| 0 <= k < a.len() && a[k] == x;
            assert(k != 0);
            assert(t[k - 1] == x);
        }
    }
    assert(t.to_set() =~= a.to_set().remove(a[0]));
    assert forall|i: int, j: int| 0 <= i < j < t.len() implies lex_lt(#[trigger] t[i], #[trigger] t[j]) by {
        assert(t[i] == a[i + 1] && t[j] == a[j + 1]);
    }
}

/// Two increasing sequences with the same elements are equal.
pub proof fn lemma_sorted_unique(a: Seq<Seq<char>>, b: Seq<Seq<char>>)
    requires
        strictly_sorted(a),
        strictly_sorted(b),
        a.to_set() == b.to_set(),
    ensures
        a == b,
    decreases a.len(),
{
    if a.len() == 0 {
        if b.len() > 0 {
            assert(b.to_set().contains(b[0]));
        }
        assert(a =~= b);
    } else {
        assert(a.to_set().contains(a[0]));
        let m = choose|m: int| 0 <= m < b.len() && b[m] == a[0];
        assert(b.to_set().contains(b[0]));
        let k = choose|k: int| 0 <= k < a.len() && a[k] == b[0];
        if a[0] != b[0] {
            assert(k > 0 && m > 0);
            assert(lex_lt(a[0], a[k]));
            assert(lex_lt(b[0], b[m]));
            lemma_lex_asymmetric(a[0], b[0]);
        }
        lemma_sorted_drop_first_set(a);
        lemma_sorted_drop_first_set(b);
        lemma_sorted_unique(a.drop_first(), b.drop_first());
        assert(a =~= seq![a[0]] + a.drop_first());
        assert(b =~= seq![b[0]] + b.drop_first());
    }
}

/// An increasing sequence is the sorted enumeration of its elements.
pub proof fn lemma_sorted_elements(ps: Seq<Seq<char>>)
    requires
        strictly_sorted(ps),
    ensures
        sorted_elements(ps.to_set()) == ps,
{
    let qs = sorted_elements(ps.to_set());
    assert(strictly_sorted(qs) && qs.to_set() == ps.to_set());
    lemma_sorted_unique(qs, ps);
}

/// Where `x` goes in `qs`: after every element that sorts before it.
spec fn insert_pos(qs: Seq<Seq<char>>, x: Seq<char>) -> int
    decreases qs.len(),
{
    if qs.len() == 0 {
        0
    } else if lex_lt(qs.last(), x) {
        qs.len() as int
    } else {
        insert_pos(qs.drop_last(), x)
    }
}

proof fn lemma_insert_pos(qs: Seq<Seq<char>>, x: Seq<char>)
    requires
        strictly_sorted(qs),
    ensures
        0 <= insert_pos(qs, x) <= qs.len(),
        forall|j: int| 0 <= j < insert_pos(qs, x) ==> lex_lt(#[trigger] qs[j], x),
        forall|j: int| insert_pos(qs, x) <= j < qs.len() ==> !lex_lt(#[trigger] qs[j], x),
    decreases qs.len(),
{
    if qs.len() > 0 {
        let init = qs.drop_last();
        assert forall|i: int, j: int| 0 <= i < j < init.len() implies lex_lt(#[trigger] init[i], #[trigger] init[j]) by {
            assert(init[i] == qs[i] && init[j] == qs[j]);
        }
        if lex_lt(qs.last(), x) {
            assert forall|j: int| 0 <= j < qs.len() implies lex_lt(#[trigger] qs[j], x) by {
                if j < qs.len() - 1 {
                    assert(lex_lt(qs[j], qs[qs.len() - 1]));
                    lemma_lex_transitive(qs[j], qs.last(), x);
                }
            }
        } else {
            lemma_insert_pos(init, x);
            let k = insert_pos(qs, x);
            assert forall|j: int| 0 <= j < k implies lex_lt(#[trigger] qs[j], x) by {
                assert(qs[j] == init[j]);
            }
            assert forall|j: int| k <= j < qs.len() implies !lex_lt(#[trigger] qs[j], x) by {
                if j < qs.len() - 1 {
                    assert(qs[j] == init[j]);
                }
            }
        }
    }
}

/// Every finite collection of strings has an increasing enumeration, so
/// `sorted_elements` of it is increasing and holds exactly its elements.
pub proof fn law_sorted_elements(ps: Seq<Seq<char>>)
    ensures
        strictly_sorted(sorted_elements(ps.to_set())),
        sorted_elements(ps.to_set()).to_set() == ps.to_set(),
    decreases ps.len(),
{
    if ps.len() == 0 {
        let e = Seq::<Seq<char>>::empty();
        assert(e.to_set() =~= ps.to_set());
        assert(strictly_sorted(e));
    } else {
        let init = ps.drop_last();
        let x = ps.last();
        law_sorted_elements(init);
        let qs = sorted_elements(init.to_set());
        assert(ps =~= init.push(x));
        assert(ps.to_set() =~= init.to_set().insert(x)) by {
            assert forall|y: Seq<char>| ps.to_set().contains(y) <==> init.to_set().insert(x).contains(y) by {
                if ps.to_set().contains(y) {
                    let k = choose|k: int| 0 <= k < ps.len() && ps[k] == y;
                    if k < init.len() {
                        assert(init[k] == y);
                    }
                }
                if init.to_set().contains(y) {
                    let k = choose|k: int| 0 <= k < init.len() && init[k] == y;
                    assert(ps[k] == y);
                }
                if y == x {
                    assert(ps[ps.len() - 1] == y);
                }
            }
        }
        if qs.to_set().contains(x) {
            assert(qs.to_set() =~= ps.to_set());
        } else {
            lemma_insert_pos(qs, x);
            let k = insert_pos(qs, x);
            let nv = qs.insert(k, x);
            assert forall|a: int, b: int| 0 <= a < b < nv.len() implies lex_lt(#[trigger] nv[a], #[trigger] nv[b]) by {
                if b < k {
                } else if b == k {
                } else if a < k {
                    lemma_lex_total(qs[k], x);
                    assert(qs[k] != x) by {
                        assert(qs.to_set().contains(qs[k]));
                    }
                    if k < b - 1 {
                        lemma_lex_transitive(x, qs[k], qs[b - 1]);
                    }
                    lemma_lex_transitive(qs[a], x, qs[b - 1]);
                } else if a == k {
                    lemma_lex_total(qs[k], x);
                    assert(qs[k] != x) by {
                        assert(qs.to_set().contains(qs[k]));
                    }
                    if k < b - 1 {
                        lemma_lex_transitive(x, qs[k], qs[b - 1]);
                    }
                } else {
                }
            }
            assert forall|y: Seq<char>| nv.to_set().contains(y) <==> ps.to_set().contains(y) by {
                if nv.to_set().contains(y) {
                    let m = choose|m: int| 0 <= m < nv.len() && nv[m] == y;
                    if m < k {
                        assert(qs[m] == y);
                    } else if m > k {
                        assert(qs[m - 1] == y);
                    }
                }
                if qs.to_set().contains(y) {
                    let m = choose|m: int| 0 <= m < qs.len() && qs[m] == y;
                    if m < k {
                        assert(nv[m] == y);
                    } else {
                        assert(nv[m + 1] == y);
                    }
                }
                if y == x {
                    assert(nv[k] == y);
                }
            }
            assert(nv.to_set() =~= ps.to_set());
            lemma_sorted_elements(nv);
        }
    }
}

/// A set of strings kept in increasing order without repetitions.
pub struct SortedStrings {
    items: Vec<Vec<char>>,
}

impl View for SortedStrings {
    type V = Seq<Seq<char>>;

    closed spec fn view(&self) -> Seq<Seq<char>> {
        views(self.items@)
    }
}

impl SortedStrings {
    /// The elements are in strictly increasing order.
    #[verifier::type_invariant]
    spec fn sorted(self) -> bool {
        strictly_sorted(views(self.items@))
    }

    /// The empty set.
    pub fn new() -> (s: Self)
        ensures
            s@ == Seq::<Seq<char>>::empty(),
            strictly_sorted(s@),
    {
        let s = SortedStrings { items: Vec::new() };
        assert(s@ =~= Seq::<Seq<char>>::empty());
        s
    }

    /// Adds `x`; nothing changes when it is already there.
    pub fn insert(&mut self, x: Vec<char>)
        ensures
            strictly_sorted(final(self)@),
            final(self)@.to_set() == old(self)@.to_set().insert(x@),
    {
        proof {
            use_type_invariant(&*self);
        }
        let ghost old_view = self@;
        let mut items: Vec<Vec<char>> = Vec::new();
        std::mem::swap(&mut items, &mut self.items);
        let mut i: usize = 0;
        while i < items.len() && lex_less(&items[i], &x)
            invariant
                old_view == views(items@),
                i <= items@.len(),
                forall|j: int| 0 <= j < i ==> lex_lt(#[trigger] old_view[j], x@),
            decreases items@.len() - i,
        {
            i += 1;
        }
        if i < items.len() && !lex_less(&x, &items[i]) {
            proof {
                lemma_lex_total(old_view[i as int], x@);
                assert(old_view.to_set().contains(x@));
                assert(old_view.to_set().insert(x@) =~= old_view.to_set());
            }
            self.items = items;
            return;
        }
        proof {
            if i < old_view.len() {
                lemma_lex_total(old_view[i as int], x@);
            }
        }
        items.insert(i, x);
        let ghost nv = views(items@);
        assert(nv =~= old_view.insert(i as int, x@));
        assert forall|a: int, b: int| 0 <= a < b < nv.len() implies lex_lt(
            #[trigger] nv[a],
            #[trigger] nv[b],
        ) by {
            if b < i {
            } else if b == i {
            } else if a < i {
                // old[a] < x < old[i] <= old[b - 1]
                if i < b - 1 {
                    lemma_lex_transitive(x@, old_view[i as int], old_view[b - 1]);
                }
                lemma_lex_transitive(old_view[a], x@, old_view[b - 1]);
            } else if a == i {
                if i < b - 1 {
                    lemma_lex_transitive(x@, old_view[i as int], old_view[b - 1]);
                }
            } else {
            }
        }
        assert forall|y: Seq<char>| nv.to_set().contains(y) <==> old_view.to_set().insert(
            x@,
        ).contains(y) by {
            if nv.to_set().contains(y) {
                let k = choose|k: int| 0 <= k < nv.len() && nv[k] == y;
                if k < i {
                    assert(old_view[k] == y);
                } else if k > i {
                    assert(old_view[k - 1] == y);
                }
            }
            if old_view.to_set().contains(y) {
                let k = choose|k: int| 0 <= k < old_view.len() && old_view[k] == y;
                if k < i {
                    assert(nv[k] == y);
                } else {
                    assert(nv[k + 1] == y);
                }
            }
            if y == x@ {
                assert(nv[i as int] == y);
            }
        }
        assert(nv.to_set() =~= old_view.to_set().insert(x@));
        self.items = items;
    }

    /// Number of elements.
    pub fn len(&self) -> (n: usize)
        ensures
            n == self@.len(),
    {
        self.items.len()
    }

    /// The element at position `i`.
    pub fn get(&self, i: usize) -> (r: &Vec<char>)
        requires
            i < self@.len(),
        ensures
            r@ == self@[i as int],
    {
        &self.items[i]
    }
}

} // verus!
