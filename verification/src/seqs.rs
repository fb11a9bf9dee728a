//! Facts about sequences that the other modules share.

use vstd::prelude::*;

verus! {

/// The first `i + 1` items are the first `i` and the item at `i`.
pub proof fn lemma_take_next<A>(s: Seq<A>, i: int)
    requires
        0 <= i < s.len(),
    ensures
        s.take(i + 1) == s.take(i).push(s[i]),
        s.take(i + 1).drop_last() == s.take(i),
        s.take(i + 1).last() == s[i],
{
    assert(s.take(i + 1) =~= s.take(i).push(s[i]));
    assert(s.take(i + 1).drop_last() =~= s.take(i));
}

/// Picking among what was kept is picking outright, where whatever is picked
/// is kept.
pub proof fn lemma_filter_within<A>(s: Seq<A>, keep: spec_fn(A) -> bool, pick: spec_fn(A) -> bool)
    requires
        forall|i: int| 0 <= i < s.len() && pick(#[trigger] s[i]) ==> keep(s[i]),
    ensures
        s.filter(keep).filter(pick) == s.filter(pick),
    decreases s.len(),
{
    reveal(Seq::filter);
    if s.len() > 0 {
        let front = s.drop_last();
        assert forall|i: int| 0 <= i < front.len() && pick(#[trigger] front[i]) implies keep(
            front[i],
        ) by {
            assert(front[i] == s[i]);
        }
        lemma_filter_within(front, keep, pick);
        if keep(s.last()) {
            assert(s.filter(keep).drop_last() =~= s.drop_last().filter(keep));
        }
    }
}

/// Nothing is picked among what was kept, where nothing that is picked is
/// kept.
pub proof fn lemma_filter_apart<A>(s: Seq<A>, keep: spec_fn(A) -> bool, pick: spec_fn(A) -> bool)
    requires
        forall|i: int| 0 <= i < s.len() && pick(#[trigger] s[i]) ==> !keep(s[i]),
    ensures
        s.filter(keep).filter(pick) == Seq::<A>::empty(),
    decreases s.len(),
{
    reveal(Seq::filter);
    if s.len() > 0 {
        let front = s.drop_last();
        assert forall|i: int| 0 <= i < front.len() && pick(#[trigger] front[i]) implies !keep(
            front[i],
        ) by {
            assert(front[i] == s[i]);
        }
        lemma_filter_apart(front, keep, pick);
        if keep(s.last()) {
            assert(s.filter(keep).drop_last() =~= s.drop_last().filter(keep));
        }
    }
}

/// A sequence whose items all meet a condition is kept whole.
pub proof fn lemma_filter_all<A>(s: Seq<A>, pick: spec_fn(A) -> bool)
    requires
        forall|i: int| 0 <= i < s.len() ==> pick(#[trigger] s[i]),
    ensures
        s.filter(pick) == s,
    decreases s.len(),
{
    reveal(Seq::filter);
    if s.len() > 0 {
        let front = s.drop_last();
        assert forall|i: int| 0 <= i < front.len() implies pick(#[trigger] front[i]) by {
            assert(front[i] == s[i]);
        }
        lemma_filter_all(front, pick);
        assert(front.push(s.last()) =~= s);
    }
}

/// The index of the first item that meets a condition, or the length of the
/// sequence where none does.
pub open spec fn first_index<A>(s: Seq<A>, p: spec_fn(A) -> bool) -> int
    decreases s.len(),
{
    if s.len() == 0 {
        0
    } else if p(s[0]) {
        0
    } else {
        1 + first_index(s.skip(1), p)
    }
}

/// No item before the first index meets the condition, and the item at it
/// does, if there is one.
pub proof fn lemma_first_index<A>(s: Seq<A>, p: spec_fn(A) -> bool)
    ensures
        0 <= first_index(s, p) <= s.len(),
        forall|j: int| 0 <= j < first_index(s, p) ==> !p(#[trigger] s[j]),
        first_index(s, p) < s.len() ==> p(s[first_index(s, p)]),
    decreases s.len(),
{
    if s.len() > 0 && !p(s[0]) {
        let rest = s.skip(1);
        lemma_first_index(rest, p);
        assert forall|j: int| 0 <= j < first_index(s, p) implies !p(#[trigger] s[j]) by {
            if j > 0 {
                assert(s[j] == rest[j - 1]);
            }
        }
        if first_index(s, p) < s.len() {
            assert(s[first_index(s, p)] == rest[first_index(rest, p)]);
        }
    }
}

/// An index with no item that meets the condition before it, and with one
/// that does at it or with none there, is the first index.
pub proof fn lemma_first_index_is<A>(s: Seq<A>, p: spec_fn(A) -> bool, k: int)
    requires
        0 <= k <= s.len(),
        forall|j: int| 0 <= j < k ==> !p(#[trigger] s[j]),
        k < s.len() ==> p(s[k]),
    ensures
        first_index(s, p) == k,
{
    lemma_first_index(s, p);
    let f = first_index(s, p);
    if f < k {
        assert(!p(s[f]));
    } else if k < f {
        assert(!p(s[k]));
    }
}

/// The first index among one item more.
pub proof fn lemma_first_index_next<A>(s: Seq<A>, p: spec_fn(A) -> bool, i: int)
    requires
        0 <= i < s.len(),
    ensures
        first_index(s.take(i + 1), p) == if first_index(s.take(i), p) < i {
            first_index(s.take(i), p)
        } else if p(s[i]) {
            i
        } else {
            i + 1
        },
{
    let short = s.take(i);
    let long = s.take(i + 1);
    lemma_first_index(short, p);
    let f = first_index(short, p);
    assert forall|j: int| 0 <= j < f implies !p(#[trigger] long[j]) by {
        assert(long[j] == short[j]);
    }
    if f < i {
        assert(long[f] == short[f]);
        lemma_first_index_is(long, p, f);
    } else if p(s[i]) {
        assert(long[i] == s[i]);
        lemma_first_index_is(long, p, i);
    } else {
        assert forall|j: int| 0 <= j < i + 1 implies !p(#[trigger] long[j]) by {
            if j < i {
                assert(long[j] == short[j]);
            } else {
                assert(long[j] == s[i]);
            }
        }
        lemma_first_index_is(long, p, i + 1);
    }
}

/// The first index among the first `m` items is the first index among all,
/// or `m` where that one comes later.
pub proof fn lemma_first_index_of_prefix<A>(s: Seq<A>, p: spec_fn(A) -> bool, m: int)
    requires
        0 <= m <= s.len(),
    ensures
        first_index(s.take(m), p) == if first_index(s, p) < m {
            first_index(s, p)
        } else {
            m
        },
{
    let part = s.take(m);
    lemma_first_index(s, p);
    let f = first_index(s, p);
    if f < m {
        assert forall|j: int| 0 <= j < f implies !p(#[trigger] part[j]) by {
            assert(part[j] == s[j]);
        }
        assert(part[f] == s[f]);
        lemma_first_index_is(part, p, f);
    } else {
        assert forall|j: int| 0 <= j < m implies !p(#[trigger] part[j]) by {
            assert(part[j] == s[j]);
        }
        lemma_first_index_is(part, p, m);
    }
}

} // verus!
