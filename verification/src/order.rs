//! The order of texts, and lists sorted by it.

use vstd::prelude::*;

use crate::text::chars_of;

verus! {

/// Whether `a` stands before `b` in the order of their characters, a text before its
/// continuations.
pub open spec fn before(a: Seq<char>, b: Seq<char>) -> bool
    decreases a.len(),
{
    if b.len() == 0 {
        false
    } else if a.len() == 0 {
        true
    } else if a[0] == b[0] {
        before(a.skip(1), b.skip(1))
    } else {
        a[0] < b[0]
    }
}

/// Whether `a` stands before `b`.
pub fn stands_before(a: &[char], b: &[char]) -> (r: bool)
    ensures
        r == before(a@, b@),
{
    let mut i: usize = 0;
    assert(a@.skip(0) =~= a@);
    assert(b@.skip(0) =~= b@);
    while i < a.len() && i < b.len()
        invariant
            i <= a@.len(),
            i <= b@.len(),
            before(a@, b@) == before(a@.skip(i as int), b@.skip(i as int)),
        decreases a.len() - i,
    {
        assert(a@.skip(i as int)[0] == a@[i as int]);
        assert(b@.skip(i as int)[0] == b@[i as int]);
        if a[i] != b[i] {
            return a[i] < b[i];
        }
        assert(a@.skip(i as int).skip(1) =~= a@.skip(i + 1));
        assert(b@.skip(i as int).skip(1) =~= b@.skip(i + 1));
        i += 1;
    }
    i < b.len()
}

/// A text stands before another if it is a beginning of it, or has the lesser character where the
/// two differ first.
pub proof fn law_order_is_by_the_first_difference(a: Seq<char>, b: Seq<char>, k: int)
    requires
        0 <= k <= a.len(),
        k <= b.len(),
        a.take(k) == b.take(k),
        k < a.len() && k < b.len() ==> a[k] != b[k],
    ensures
        before(a, b) <==> (k == a.len() && k < b.len()) || (k < a.len() && k < b.len() && a[k]
            < b[k]),
    decreases k,
{
    if k > 0 {
        assert(a.take(k)[0] == a[0] && b.take(k)[0] == b[0]);
        assert(a.skip(1).take(k - 1) =~= a.take(k).skip(1));
        assert(b.skip(1).take(k - 1) =~= b.take(k).skip(1));
        law_order_is_by_the_first_difference(a.skip(1), b.skip(1), k - 1);
    }
}

/// Of two texts, one stands before the other, or they are the same.
pub proof fn lemma_before_is_total(a: Seq<char>, b: Seq<char>)
    ensures
        before(a, b) || before(b, a) || a == b,
        !(before(a, b) && before(b, a)),
        a == b ==> !before(a, b),
    decreases a.len(),
{
    if a.len() == 0 {
        assert(b.len() == 0 ==> a =~= b);
    } else if b.len() > 0 && a[0] == b[0] {
        lemma_before_is_total(a.skip(1), b.skip(1));
        if a.skip(1) == b.skip(1) {
            assert(seq![a[0]] + a.skip(1) =~= a);
            assert(seq![b[0]] + b.skip(1) =~= b);
        }
    }
}

/// What stands before a text that stands before a third stands before the third.
pub proof fn lemma_before_is_transitive(a: Seq<char>, b: Seq<char>, c: Seq<char>)
    requires
        before(a, b),
        before(b, c),
    ensures
        before(a, c),
    decreases a.len(),
{
    if a.len() > 0 && a[0] == b[0] && b[0] == c[0] {
        lemma_before_is_transitive(a.skip(1), b.skip(1), c.skip(1));
    }
}

// ---- Sorting ----

/// A list of keys and values, as text and views.
pub open spec fn keyed<T: View>(s: Seq<(String, T)>) -> Seq<(Seq<char>, T::V)> {
    Seq::new(s.len(), |i: int| (s[i].0@, s[i].1@))
}

/// Where `x` is put into the sorted list `s`: behind all whose key does not stand behind its.
pub open spec fn place<V>(s: Seq<(Seq<char>, V)>, x: (Seq<char>, V)) -> int
    decreases s.len(),
{
    if s.len() == 0 || !before(x.0, s.last().0) {
        s.len() as int
    } else {
        place(s.drop_last(), x)
    }
}

/// `s` sorted by key; those with the same key keep their order.
pub open spec fn sorted<V>(s: Seq<(Seq<char>, V)>) -> Seq<(Seq<char>, V)>
    decreases s.len(),
{
    if s.len() == 0 {
        s
    } else {
        let done = sorted(s.drop_last());
        done.insert(place(done, s.last()), s.last())
    }
}

/// Whether no key stands behind a later one.
pub open spec fn in_order<V>(s: Seq<(Seq<char>, V)>) -> bool {
    forall|i: int, j: int| 0 <= i < j < s.len() ==> !before((#[trigger] s[j]).0, (#[trigger] s[i]).0)
}

proof fn lemma_place<V>(s: Seq<(Seq<char>, V)>, x: (Seq<char>, V))
    requires
        in_order(s),
    ensures
        0 <= place(s, x) <= s.len(),
        forall|i: int| 0 <= i < place(s, x) ==> !before(x.0, (#[trigger] s[i]).0),
        forall|i: int| place(s, x) <= i < s.len() ==> before(x.0, (#[trigger] s[i]).0),
    decreases s.len(),
{
    if s.len() > 0 {
        if before(x.0, s.last().0) {
            let init = s.drop_last();
            assert(in_order(init)) by {
                assert forall|i: int, j: int| 0 <= i < j < init.len() implies !before(
                    (#[trigger] init[j]).0,
                    (#[trigger] init[i]).0,
                ) by {
                    assert(init[i] == s[i] && init[j] == s[j]);
                }
            }
            lemma_place(init, x);
            assert forall|i: int| 0 <= i < place(s, x) implies !before(
                x.0,
                (#[trigger] s[i]).0,
            ) by {
                assert(init[i] == s[i]);
            }
            assert forall|i: int| place(s, x) <= i < s.len() implies before(
                x.0,
                (#[trigger] s[i]).0,
            ) by {
                if i < init.len() {
                    assert(init[i] == s[i]);
                }
            }
        } else {
            assert forall|i: int| 0 <= i < place(s, x) implies !before(
                x.0,
                (#[trigger] s[i]).0,
            ) by {
                if i < s.len() - 1 && before(x.0, s[i].0) {
                    assert(!before(s[s.len() - 1].0, s[i].0));
                    lemma_before_is_total(s[i].0, s.last().0);
                    if before(s[i].0, s.last().0) {
                        lemma_before_is_transitive(x.0, s[i].0, s.last().0);
                    }
                }
            }
        }
    }
}

/// A sorted list is in order, and holds what the list held.
pub proof fn law_sorted_is_in_order<V>(s: Seq<(Seq<char>, V)>)
    ensures
        in_order(sorted(s)),
        sorted(s).to_multiset() == s.to_multiset(),
        sorted(s).len() == s.len(),
    decreases s.len(),
{
    broadcast use vstd::seq_lib::group_to_multiset_ensures;

    if s.len() > 0 {
        let x = s.last();
        let done = sorted(s.drop_last());
        law_sorted_is_in_order(s.drop_last());
        lemma_place(done, x);
        let at = place(done, x);
        let out = done.insert(at, x);
        assert forall|i: int, j: int| 0 <= i < j < out.len() implies !before(
            (#[trigger] out[j]).0,
            (#[trigger] out[i]).0,
        ) by {
            if j == at {
                assert(out[i] == done[i]);
            } else if i == at {
                assert(out[j] == done[j - 1]);
                lemma_before_is_total(x.0, done[j - 1].0);
            } else {
                assert(out[i] == done[if i < at {
                    i
                } else {
                    i - 1
                }]);
                assert(out[j] == done[if j < at {
                    j
                } else {
                    j - 1
                }]);
            }
        }
        assert(s =~= s.drop_last().push(x));
        vstd::seq_lib::to_multiset_insert(done, at, x);
    }
}

/// Sorts a list by key.
pub fn sort_by_key<T: View>(items: Vec<(String, T)>) -> (out: Vec<(String, T)>)
    ensures
        keyed(out@) == sorted(keyed(items@)),
        in_order(keyed(out@)),
{
    let mut rest = items;
    let ghost all = keyed(rest@);
    let mut todo: Vec<(String, T)> = Vec::new();
    while rest.len() > 0
        invariant
            todo@.len() + rest@.len() == all.len(),
            keyed(rest@) == all.take(rest@.len() as int),
            forall|i: int|
                0 <= i < todo@.len() ==> (#[trigger] todo@[i].0@, todo@[i].1@) == all[all.len() - 1
                    - i],
        decreases rest.len(),
    {
        let ghost before = rest@;
        let x = rest.pop().unwrap();
        assert(keyed(before)[before.len() - 1] == (x.0@, x.1@));
        todo.push(x);
        assert(keyed(rest@) =~= keyed(before).drop_last());
        assert(keyed(rest@) =~= all.take(rest@.len() as int));
    }
    let mut out: Vec<(String, T)> = Vec::new();
    assert(all.take(0) =~= Seq::empty());
    assert(keyed(out@) =~= Seq::empty());
    while todo.len() > 0
        invariant
            todo@.len() + out@.len() == all.len(),
            forall|i: int|
                0 <= i < todo@.len() ==> (#[trigger] todo@[i].0@, todo@[i].1@) == all[all.len() - 1
                    - i],
            keyed(out@) == sorted(all.take(all.len() - todo@.len())),
        decreases todo.len(),
    {
        let ghost k = all.len() - todo@.len();
        let x = todo.pop().unwrap();
        let ghost x_view = (x.0@, x.1@);
        let ghost done = keyed(out@);
        assert(x_view == all[k]);
        proof {
            assert(all.take(k + 1).drop_last() =~= all.take(k));
            law_sorted_is_in_order(all.take(k));
        }
        let key = chars_of(x.0.as_str());
        let mut at: usize = out.len();
        assert(done.take(at as int) =~= done);
        let mut found: bool = false;
        while !found && at > 0
            invariant
                at <= out@.len(),
                key@ == x_view.0,
                done == keyed(out@),
                !found ==> place(done, x_view) == place(done.take(at as int), x_view),
                found ==> place(done, x_view) == at,
            decreases at,
                if found {
                    0int
                } else {
                    1int
                },
        {
            let other = chars_of(out[at - 1].0.as_str());
            assert(done.take(at as int).last() == done[at - 1]);
            assert(done.take(at as int).drop_last() =~= done.take(at - 1));
            if stands_before(&key, &other) {
                at -= 1;
            } else {
                found = true;
            }
        }
        out.insert(at, x);
        assert(keyed(out@) =~= done.insert(at as int, x_view));
    }
    proof {
        assert(all.take(all.len() as int) =~= all);
        law_sorted_is_in_order(all);
    }
    out
}

/// Of texts that are equal, the one that came first stays first: what is added behind a list stands
/// in order behind all that may stand before it, and the rest keeps its order.
pub proof fn law_first_of_equals_stays_first<V>(s: Seq<(Seq<char>, V)>, x: (Seq<char>, V))
    ensures
        sorted(Seq::<(Seq<char>, V)>::empty()).len() == 0,
        exists|at: int|
            0 <= at <= sorted(s).len() && sorted(s.push(x)) == #[trigger] sorted(s).insert(at, x)
                && (forall|i: int| 0 <= i < at ==> !before(x.0, (#[trigger] sorted(s)[i]).0)) && (
            forall|i: int| at <= i < sorted(s).len() ==> before(x.0, (#[trigger] sorted(s)[i]).0)),
{
    law_sorted_is_in_order(s);
    let done = sorted(s);
    lemma_place(done, x);
    assert(s.push(x).drop_last() =~= s);
    let at = place(done, x);
    assert(sorted(s.push(x)) == done.insert(at, x));
    assert forall|i: int| 0 <= i < at implies !before(x.0, (#[trigger] done[i]).0) by {
        if i < at - 1 && before(x.0, done[i].0) {
            lemma_place_before(done, x);
            lemma_before_is_total(done[i].0, done[at - 1].0);
            if before(done[i].0, done[at - 1].0) {
                lemma_before_is_transitive(x.0, done[i].0, done[at - 1].0);
            }
        } else if i == at - 1 {
            lemma_place_before(done, x);
        }
    }
    assert forall|i: int| at <= i < done.len() implies before(x.0, (#[trigger] done[i]).0) by {
        lemma_place_behind(done, x, i);
    }
}

proof fn lemma_place_before<V>(s: Seq<(Seq<char>, V)>, x: (Seq<char>, V))
    ensures
        0 <= place(s, x) <= s.len(),
        place(s, x) > 0 ==> !before(x.0, s[place(s, x) - 1].0),
    decreases s.len(),
{
    if s.len() > 0 && before(x.0, s.last().0) {
        lemma_place_before(s.drop_last(), x);
    }
}

proof fn lemma_place_behind<V>(s: Seq<(Seq<char>, V)>, x: (Seq<char>, V), i: int)
    requires
        0 <= i < s.len(),
        place(s, x) <= i,
    ensures
        before(x.0, s[i].0),
    decreases s.len(),
{
    if s.len() > 0 && before(x.0, s.last().0) && i < s.len() - 1 {
        lemma_place_behind(s.drop_last(), x, i);
    }
}

} // verus!
