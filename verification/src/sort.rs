//! Stable sorting.
//!
//! A sort gives the positions of its keys in sorted order; equal keys keep the
//! order of their positions.
use vstd::prelude::*;
use vstd::relations::*;
use vstd::seq_lib::*;

verus! {

/// A key to sort by.
pub trait SortBy: Sized {
    /// What the order of a key depends on.
    type Rank;

    spec fn rank(self) -> Self::Rank;

    /// Whether a key may stand before another.
    spec fn may_precede(a: Self::Rank, b: Self::Rank) -> bool;

    proof fn law_total(a: Self::Rank, b: Self::Rank)
        ensures
            Self::may_precede(a, b) || Self::may_precede(b, a),
    ;

    proof fn law_transitive(a: Self::Rank, b: Self::Rank, c: Self::Rank)
        requires
            Self::may_precede(a, b),
            Self::may_precede(b, c),
        ensures
            Self::may_precede(a, c),
    ;

    fn precedes(&self, other: &Self) -> (r: bool)
        ensures
            r == Self::may_precede(self.rank(), other.rank()),
    ;
}

/// What the order of keys depends on.
pub open spec fn ranked<K: SortBy>(keys: Seq<K>) -> Seq<K::Rank> {
    Seq::new(keys.len(), |i: int| keys[i].rank())
}

/// Whether position `a` comes no later than position `b` in sorted order.
pub open spec fn no_later<K: SortBy>(keys: Seq<K::Rank>) -> spec_fn(int, int) -> bool {
    |a: int, b: int|
        K::may_precede(keys[a], keys[b]) && (!K::may_precede(keys[b], keys[a]) || a <= b)
}

/// The first `n` positions.
pub open spec fn positions(n: nat) -> Seq<int> {
    Seq::new(n, |i: int| i)
}

/// The positions of keys in sorted order.
pub open spec fn ranks<K: SortBy>(keys: Seq<K::Rank>) -> Seq<int> {
    positions(keys.len()).sort_by(no_later::<K>(keys))
}

/// Exec positions in mathematical terms.
pub open spec fn ints(v: Seq<usize>) -> Seq<int> {
    Seq::new(v.len(), |i: int| v[i] as int)
}

proof fn lemma_order<K: SortBy>(keys: Seq<K::Rank>)
    ensures
        total_ordering(no_later::<K>(keys)),
{
    let r = no_later::<K>(keys);
    assert forall|a: int, b: int| #[trigger] r(a, b) || #[trigger] r(b, a) by {
        K::law_total(keys[a], keys[b]);
    }
    assert forall|a: int| #[trigger] r(a, a) by {
        K::law_total(keys[a], keys[a]);
    }
    assert forall|a: int, b: int| #[trigger] r(a, b) && #[trigger] r(b, a) implies a == b by {}
    assert forall|a: int, b: int, c: int| #[trigger] r(a, b) && #[trigger] r(b, c) implies r(
        a,
        c,
    ) by {
        K::law_transitive(keys[a], keys[b], keys[c]);
        if K::may_precede(keys[c], keys[a]) {
            K::law_transitive(keys[c], keys[a], keys[b]);
            K::law_transitive(keys[b], keys[c], keys[a]);
        }
    }
}

/// Sorted positions are a rearrangement of the positions.
pub proof fn lemma_ranks<K: SortBy>(keys: Seq<K::Rank>)
    ensures
        ranks::<K>(keys).len() == keys.len(),
        ranks::<K>(keys).no_duplicates(),
        forall|i: int| 0 <= i < keys.len() ==> 0 <= #[trigger] ranks::<K>(keys)[i] < keys.len(),
        forall|p: int| 0 <= p < keys.len() ==> #[trigger] ranks::<K>(keys).contains(p),
        sorted_by(ranks::<K>(keys), no_later::<K>(keys)),
{
    broadcast use group_to_multiset_ensures;

    let all = positions(keys.len());
    let r = ranks::<K>(keys);
    lemma_order::<K>(keys);
    all.lemma_sort_by_ensures(no_later::<K>(keys));
    assert(all.to_multiset() == r.to_multiset());
    assert(all.len() == all.to_multiset().len());
    assert(r.len() == r.to_multiset().len());
    assert(all.no_duplicates());
    all.lemma_multiset_has_no_duplicates();
    r.lemma_multiset_has_no_duplicates_conv();
    assert forall|i: int| 0 <= i < keys.len() implies 0 <= #[trigger] r[i] < keys.len() by {
        assert(r.contains(r[i]));
        assert(all.contains(r[i]));
    }
    assert forall|p: int| 0 <= p < keys.len() implies #[trigger] r.contains(p) by {
        assert(all[p] == p);
        assert(all.contains(p));
        assert(all.to_multiset().count(p) > 0);
    }
}

/// Merges two sorted lists of positions.
fn merge<K: SortBy>(keys: &Vec<K>, left: &Vec<usize>, right: &Vec<usize>) -> (out: Vec<usize>)
    requires
        forall|i: int| 0 <= i < left@.len() ==> (#[trigger] left@[i]) < keys@.len(),
        forall|i: int| 0 <= i < right@.len() ==> (#[trigger] right@[i]) < keys@.len(),
        sorted_by(ints(left@), no_later::<K>(ranked(keys@))),
        sorted_by(ints(right@), no_later::<K>(ranked(keys@))),
        forall|i: int, j: int|
            0 <= i < left@.len() && 0 <= j < right@.len() ==> #[trigger] left@[i]
                < #[trigger] right@[j],
    ensures
        forall|i: int| 0 <= i < out@.len() ==> (#[trigger] out@[i]) < keys@.len(),
        sorted_by(ints(out@), no_later::<K>(ranked(keys@))),
        out@.to_multiset() == left@.to_multiset().add(right@.to_multiset()),
{
    broadcast use group_to_multiset_ensures;

    let ghost le = no_later::<K>(ranked(keys@));
    let mut out: Vec<usize> = Vec::new();
    let mut i: usize = 0;
    let mut j: usize = 0;
    proof {
        assert(left@.take(0) =~= Seq::<usize>::empty());
        assert(right@.take(0) =~= Seq::<usize>::empty());
        assert(out@.to_multiset() =~= left@.take(0).to_multiset().add(right@.take(0).to_multiset()));
    }
    while i < left.len() || j < right.len()
        invariant
            le == no_later::<K>(ranked(keys@)),
            i <= left@.len(),
            j <= right@.len(),
            forall|k: int| 0 <= k < left@.len() ==> (#[trigger] left@[k]) < keys@.len(),
            forall|k: int| 0 <= k < right@.len() ==> (#[trigger] right@[k]) < keys@.len(),
            sorted_by(ints(left@), le),
            sorted_by(ints(right@), le),
            forall|a: int, b: int|
                0 <= a < left@.len() && 0 <= b < right@.len() ==> #[trigger] left@[a]
                    < #[trigger] right@[b],
            forall|k: int| 0 <= k < out@.len() ==> (#[trigger] out@[k]) < keys@.len(),
            sorted_by(ints(out@), le),
            forall|k: int, a: int|
                0 <= k < out@.len() && i <= a < left@.len() ==> le(
                    (#[trigger] out@[k]) as int,
                    (#[trigger] left@[a]) as int,
                ),
            forall|k: int, b: int|
                0 <= k < out@.len() && j <= b < right@.len() ==> le(
                    (#[trigger] out@[k]) as int,
                    (#[trigger] right@[b]) as int,
                ),
            out@.to_multiset() == left@.take(i as int).to_multiset().add(
                right@.take(j as int).to_multiset(),
            ),
        decreases left@.len() - i + right@.len() - j,
    {
        let from_left = if i < left.len() {
            if j < right.len() {
                keys[left[i]].precedes(&keys[right[j]])
            } else {
                true
            }
        } else {
            false
        };
        let ghost before = out@;
        proof {
            lemma_order::<K>(ranked(keys@));
            if i < left@.len() && j < right@.len() {
                K::law_total(
                    keys@[left@[i as int] as int].rank(),
                    keys@[right@[j as int] as int].rank(),
                );
            }
        }
        let next: usize = if from_left {
            left[i]
        } else {
            right[j]
        };
        proof {
            assert forall|a: int| i <= a < left@.len() implies le(
                next as int,
                (#[trigger] left@[a]) as int,
            ) by {
                if a > i {
                    assert(le(ints(left@)[i as int], ints(left@)[a]));
                }
                if !from_left {
                    assert(le(right@[j as int] as int, left@[i as int] as int));
                }
            }
            assert forall|b: int| j <= b < right@.len() implies le(
                next as int,
                (#[trigger] right@[b]) as int,
            ) by {
                if b > j {
                    assert(le(ints(right@)[j as int], ints(right@)[b]));
                }
                if from_left {
                    assert(le(left@[i as int] as int, right@[j as int] as int));
                }
            }
        }
        out.push(next);
        proof {
            broadcast use group_to_multiset_ensures;

            assert(before.push(next).to_multiset() =~= before.to_multiset().insert(next));
            assert forall|x: int, y: int| 0 <= x < y < ints(out@).len() implies #[trigger] le(
                ints(out@)[x],
                ints(out@)[y],
            ) by {
                if y < before.len() {
                    assert(le(ints(before)[x], ints(before)[y]));
                } else {
                    assert(out@[x] == before[x]);
                    if from_left {
                        assert(le(before[x] as int, left@[i as int] as int));
                    } else {
                        assert(le(before[x] as int, right@[j as int] as int));
                    }
                }
            }
        }
        if from_left {
            proof {
                broadcast use group_to_multiset_ensures;

                assert(left@.take(i + 1) =~= left@.take(i as int).push(next));
                assert(left@.take(i + 1).to_multiset() =~= left@.take(i as int).to_multiset().insert(
                    next,
                ));
                assert(out@.to_multiset() =~= left@.take(i + 1).to_multiset().add(
                    right@.take(j as int).to_multiset(),
                ));
            }
            i = i + 1;
        } else {
            proof {
                broadcast use group_to_multiset_ensures;

                assert(right@.take(j + 1) =~= right@.take(j as int).push(next));
                assert(right@.take(j + 1).to_multiset() =~= right@.take(
                    j as int,
                ).to_multiset().insert(next));
                assert(out@.to_multiset() =~= left@.take(i as int).to_multiset().add(
                    right@.take(j + 1).to_multiset(),
                ));
            }
            j = j + 1;
        }
    }
    proof {
        assert(left@.take(left@.len() as int) =~= left@);
        assert(right@.take(right@.len() as int) =~= right@);
    }
    out
}

/// The positions from `from` up to `to`.
spec fn stretch(from: usize, to: usize) -> Seq<usize> {
    Seq::new((to - from) as nat, |i: int| (from + i) as usize)
}

/// Sorts the positions from `from` up to `to`.
fn sort_range<K: SortBy>(keys: &Vec<K>, from: usize, to: usize) -> (out: Vec<usize>)
    requires
        from <= to <= keys@.len(),
    ensures
        forall|i: int| 0 <= i < out@.len() ==> from <= (#[trigger] out@[i]) < to,
        sorted_by(ints(out@), no_later::<K>(ranked(keys@))),
        out@.to_multiset() == stretch(from, to).to_multiset(),
    decreases to - from,
{
    broadcast use group_to_multiset_ensures;

    if to - from <= 1 {
        let mut out: Vec<usize> = Vec::new();
        if from < to {
            out.push(from);
        }
        proof {
            assert(out@ =~= stretch(from, to));
        }
        return out;
    }
    let mid: usize = from + (to - from) / 2;
    let left = sort_range(keys, from, mid);
    let right = sort_range(keys, mid, to);
    let out = merge(keys, &left, &right);
    proof {
        let whole = stretch(from, to);
        assert(whole =~= stretch(from, mid) + stretch(mid, to));
        lemma_multiset_commutative(stretch(from, mid), stretch(mid, to));
        assert(out@.to_multiset() == whole.to_multiset());
        assert forall|i: int| 0 <= i < out@.len() implies from <= (#[trigger] out@[i]) < to by {
            broadcast use group_to_multiset_ensures;

            assert(out@.contains(out@[i]));
            assert(out@.to_multiset().count(out@[i]) > 0);
            assert(whole.to_multiset().count(out@[i]) > 0);
            assert(whole.contains(out@[i]));
            let k = choose|k: int| 0 <= k < whole.len() && whole[k] == out@[i];
            assert(whole[k] == from + k);
        }
    }
    out
}

proof fn lemma_ints_multiset(a: Seq<usize>, b: Seq<usize>)
    requires
        a.to_multiset() == b.to_multiset(),
    ensures
        ints(a).to_multiset() == ints(b).to_multiset(),
    decreases a.len(),
{
    broadcast use group_to_multiset_ensures;

    assert(a.len() == a.to_multiset().len());
    assert(b.len() == b.to_multiset().len());
    if a.len() > 0 {
        let x = a.last();
        assert(a.contains(x));
        assert(b.to_multiset().count(x) > 0);
        assert(b.contains(x));
        let k = choose|k: int| 0 <= k < b.len() && b[k] == x;
        let rest = b.remove(k);
        assert(a.drop_last().push(x) =~= a);
        assert(a.to_multiset() =~= a.drop_last().to_multiset().insert(x));
        assert(rest.to_multiset() =~= b.to_multiset().remove(x));
        assert(a.drop_last().to_multiset() =~= rest.to_multiset());
        lemma_ints_multiset(a.drop_last(), rest);
        assert(ints(a) =~= ints(a.drop_last()).push(x as int));
        assert(ints(rest) =~= ints(b).remove(k));
        assert(ints(b)[k] == x as int);
        assert(ints(rest).to_multiset() =~= ints(b).to_multiset().remove(x as int));
        assert(ints(a).to_multiset() =~= ints(a.drop_last()).to_multiset().insert(x as int));
        assert(ints(b).contains(x as int));
        assert(ints(b).to_multiset() =~= ints(rest).to_multiset().insert(x as int));
    } else {
        assert(ints(a) =~= ints(b));
    }
}

/// The positions of keys in sorted order.
pub fn sorted_positions<K: SortBy>(keys: &Vec<K>) -> (out: Vec<usize>)
    ensures
        ints(out@) == ranks::<K>(ranked(keys@)),
{
    let n: usize = keys.len();
    let out = sort_range(keys, 0, n);
    proof {
        let all = positions(keys@.len());
        lemma_order::<K>(ranked(keys@));
        all.lemma_sort_by_ensures(no_later::<K>(ranked(keys@)));
        lemma_ints_multiset(out@, stretch(0, n));
        assert(ints(stretch(0, n)) =~= all);
        lemma_sorted_unique(ints(out@), ranks::<K>(ranked(keys@)), no_later::<K>(ranked(keys@)));
    }
    out
}

} // verus!
