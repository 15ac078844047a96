//! What holds of sequences from which some elements are taken.

use vstd::prelude::*;

verus! {

/// A relation that holds between all elements of `s`, in their order, holds
/// between those that `keep` keeps, and nothing else is in the result.
pub proof fn lemma_filter<A>(s: Seq<A>, keep: spec_fn(A) -> bool, rel: spec_fn(A, A) -> bool)
    requires
        forall|i: int, j: int|
            #![trigger s[i], s[j]]
            0 <= i < j < s.len() ==> rel(s[i], s[j]),
    ensures
        s.filter(keep).len() <= s.len(),
        forall|i: int|
            0 <= i < s.filter(keep).len() ==> keep(#[trigger] s.filter(keep)[i]) && s.contains(
                s.filter(keep)[i],
            ),
        forall|i: int|
            0 <= i < s.len() && keep(#[trigger] s[i]) ==> s.filter(keep).contains(s[i]),
        forall|i: int, j: int|
            #![trigger s.filter(keep)[i], s.filter(keep)[j]]
            0 <= i < j < s.filter(keep).len() ==> rel(s.filter(keep)[i], s.filter(keep)[j]),
    decreases s.len(),
{
    reveal(Seq::filter);
    let f = s.filter(keep);
    if s.len() > 0 {
        let t = s.drop_last();
        let g = t.filter(keep);
        assert forall|i: int, j: int|
            #![trigger t[i], t[j]]
            0 <= i < j < t.len() implies rel(t[i], t[j]) by {
            assert(rel(s[i], s[j]));
        }
        lemma_filter(t, keep, rel);
        assert forall|i: int| 0 <= i < f.len() implies keep(#[trigger] f[i]) && s.contains(f[i]) by {
            if i < g.len() {
                assert(f[i] == g[i]);
                assert(t.contains(g[i]));
                let k = choose|k: int| 0 <= k < t.len() && t[k] == g[i];
                assert(s[k] == f[i]);
            } else {
                assert(s[s.len() - 1] == f[i]);
            }
        }
        assert forall|i: int| 0 <= i < s.len() && keep(#[trigger] s[i]) implies f.contains(
            s[i],
        ) by {
            if i < t.len() {
                assert(keep(t[i]));
                let k = choose|k: int| 0 <= k < g.len() && g[k] == t[i];
                assert(f[k] == s[i]);
            } else {
                assert(f[g.len() as int] == s[i]);
            }
        }
        assert forall|i: int, j: int|
            #![trigger f[i], f[j]]
            0 <= i < j < f.len() implies rel(f[i], f[j]) by {
            if j < g.len() {
                assert(rel(g[i], g[j]));
            } else {
                assert(t.contains(g[i]));
                let k = choose|k: int| 0 <= k < t.len() && t[k] == g[i];
                assert(rel(s[k], s[s.len() - 1]));
            }
        }
    }
}

/// One more element is looked at by a filter.
pub proof fn lemma_filter_step<A>(s: Seq<A>, keep: spec_fn(A) -> bool, i: int)
    requires
        0 <= i < s.len(),
    ensures
        s.take(i + 1).filter(keep) == if keep(s[i]) {
            s.take(i).filter(keep).push(s[i])
        } else {
            s.take(i).filter(keep)
        },
{
    reveal(Seq::filter);
    assert(s.take(i + 1).drop_last() =~= s.take(i));
}

/// A filter that has looked at nothing has kept nothing; one that has looked
/// at everything is done.
pub proof fn lemma_filter_ends<A>(s: Seq<A>, keep: spec_fn(A) -> bool)
    ensures
        s.take(0).filter(keep) == Seq::<A>::empty(),
        s.take(s.len() as int) == s,
{
    reveal(Seq::filter);
    assert(s.take(0) =~= Seq::<A>::empty());
    assert(s.take(s.len() as int) =~= s);
}

/// Taking one element out keeps a relation between the others.
pub proof fn lemma_remove<A>(s: Seq<A>, v: int, rel: spec_fn(A, A) -> bool)
    requires
        0 <= v < s.len(),
        forall|i: int, j: int|
            #![trigger s[i], s[j]]
            0 <= i < j < s.len() ==> rel(s[i], s[j]),
    ensures
        forall|i: int, j: int|
            #![trigger s.remove(v)[i], s.remove(v)[j]]
            0 <= i < j < s.remove(v).len() ==> rel(s.remove(v)[i], s.remove(v)[j]),
{
    let r = s.remove(v);
    assert forall|i: int, j: int|
        #![trigger r[i], r[j]]
        0 <= i < j < r.len() implies rel(r[i], r[j]) by {
        let a = if i < v {
            i
        } else {
            i + 1
        };
        let b = if j < v {
            j
        } else {
            j + 1
        };
        assert(rel(s[a], s[b]));
    }
}

/// A filter keeps exactly the elements that meet the condition.
pub proof fn lemma_filter_members<A>(s: Seq<A>, keep: spec_fn(A) -> bool, x: A)
    ensures
        s.filter(keep).contains(x) <==> s.contains(x) && keep(x),
        s.filter(keep).len() <= s.len(),
    decreases s.len(),
{
    reveal(Seq::filter);
    let r = s.filter(keep);
    if s.len() > 0 {
        let t = s.drop_last();
        let w = t.filter(keep);
        lemma_filter_members(t, keep, x);
        if r.contains(x) {
            let i = choose|i: int| 0 <= i < r.len() && r[i] == x;
            if i < w.len() {
                assert(w[i] == x);
                let j = choose|j: int| 0 <= j < t.len() && t[j] == x;
                assert(s[j] == x);
            } else {
                assert(s[s.len() - 1] == x);
            }
        }
        if s.contains(x) && keep(x) {
            let j = choose|j: int| 0 <= j < s.len() && s[j] == x;
            if j < t.len() {
                assert(t[j] == x);
                let i = choose|i: int| 0 <= i < w.len() && w[i] == x;
                assert(r[i] == x);
            } else {
                assert(r[w.len() as int] == x);
            }
        }
    }
}

} // verus!
