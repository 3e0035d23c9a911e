use vstd::prelude::*;

verus! {

/// Strategy that extracts the sort key ("rank") of an item. Both merge inputs
/// must already be sorted in strictly increasing rank order for the ordering
/// guarantees below to hold; the merge itself never checks this.
pub trait Ranker<T>: Sized {
    /// The rank of an item, as the contracts see it.
    spec fn spec_rank(&self, item: T) -> usize;

    /// The rank of an item, as the merge computes it.
    fn rank(&self, item: &T) -> (r: usize)
        ensures
            r == self.spec_rank(*item),
    ;
}

/// Strategy that picks the one surviving item when both inputs carry the same
/// rank. Both candidates are consumed; only the chosen one is emitted.
pub trait Decider<T>: Sized {
    /// The survivor of a rank collision, as the contracts see it.
    spec fn spec_decide(&self, left: T, right: T) -> T;

    /// The survivor of a rank collision, as the merge computes it.
    fn decide(&self, left: T, right: T) -> (r: T)
        ensures
            r == self.spec_decide(left, right),
    ;
}

/// Ranks a `usize` item by its own value.
pub struct IdentityRanker;

impl Ranker<usize> for IdentityRanker {
    open spec fn spec_rank(&self, item: usize) -> usize {
        item
    }

    fn rank(&self, item: &usize) -> (r: usize) {
        *item
    }
}

/// On a rank collision, keeps the item from the left input.
pub struct PreferLeft;

impl<T> Decider<T> for PreferLeft {
    open spec fn spec_decide(&self, left: T, right: T) -> T {
        left
    }

    fn decide(&self, left: T, right: T) -> (r: T) {
        left
    }
}

/// On a rank collision, keeps the item from the right input.
pub struct PreferRight;

impl<T> Decider<T> for PreferRight {
    open spec fn spec_decide(&self, left: T, right: T) -> T {
        right
    }

    fn decide(&self, left: T, right: T) -> (r: T) {
        right
    }
}

/// Once the right input is exhausted first, does this trail policy drain the
/// remaining left input? Trail 2 stops once the right side is exhausted and
/// trail 3 stops once either side is; every other value drains.
pub open spec fn drains_left(trail: usize) -> bool {
    trail != 2 && trail != 3
}

/// Once the left input is exhausted first, does this trail policy drain the
/// remaining right input? Trail 1 stops once the left side is exhausted and
/// trail 3 stops once either side is; every other value drains.
pub open spec fn drains_right(trail: usize) -> bool {
    trail != 1 && trail != 3
}

/// The full output of the merge: items whose rank appears on only one side
/// pass through in rank order, a rank collision emits exactly the decider's
/// pick, and once one side is exhausted the trail policy chooses between
/// draining the other side and stopping.
pub open spec fn merge_seq<T, R: Ranker<T>, D: Decider<T>>(
    ranker: R,
    decider: D,
    trail: usize,
    left: Seq<T>,
    right: Seq<T>,
) -> Seq<T>
    decreases left.len() + right.len(),
{
    if left.len() == 0 && right.len() == 0 {
        Seq::empty()
    } else if left.len() == 0 {
        if drains_right(trail) {
            right
        } else {
            Seq::empty()
        }
    } else if right.len() == 0 {
        if drains_left(trail) {
            left
        } else {
            Seq::empty()
        }
    } else if ranker.spec_rank(left[0]) == ranker.spec_rank(right[0]) {
        seq![decider.spec_decide(left[0], right[0])] + merge_seq(
            ranker,
            decider,
            trail,
            left.drop_first(),
            right.drop_first(),
        )
    } else if ranker.spec_rank(left[0]) < ranker.spec_rank(right[0]) {
        seq![left[0]] + merge_seq(ranker, decider, trail, left.drop_first(), right)
    } else {
        seq![right[0]] + merge_seq(ranker, decider, trail, left, right.drop_first())
    }
}

/// The items of `s` appear in strictly increasing rank order: the well-formed
/// shape that both merge inputs are expected to have.
pub open spec fn sorted_by_rank<T, R: Ranker<T>>(ranker: R, s: Seq<T>) -> bool {
    forall|i: int, j: int|
        0 <= i < j < s.len() ==> #[trigger] ranker.spec_rank(s[i]) < #[trigger] ranker.spec_rank(
            s[j],
        )
}

/// Every item of `s` has a rank strictly above `bound`.
pub open spec fn ranks_above<T, R: Ranker<T>>(ranker: R, s: Seq<T>, bound: usize) -> bool {
    forall|i: int| 0 <= i < s.len() ==> #[trigger] ranker.spec_rank(s[i]) > bound
}

/// No rank of `left` appears in `right`: the two inputs never collide.
pub open spec fn rank_disjoint<T, R: Ranker<T>>(ranker: R, left: Seq<T>, right: Seq<T>) -> bool {
    forall|i: int, j: int|
        0 <= i < left.len() && 0 <= j < right.len() ==> #[trigger] ranker.spec_rank(left[i])
            != #[trigger] ranker.spec_rank(right[j])
}

/// The decider never changes the rank of a collision: whatever it picks for
/// two same-rank items carries that same rank. Every decider that returns one
/// of its two arguments has this property.
pub open spec fn preserves_rank<T, R: Ranker<T>, D: Decider<T>>(ranker: R, decider: D) -> bool {
    forall|x: T, y: T|
        ranker.spec_rank(x) == ranker.spec_rank(y) ==> ranker.spec_rank(
            #[trigger] decider.spec_decide(x, y),
        ) == ranker.spec_rank(x)
}

/// A rank bound on both inputs carries over to the merge output, as long as a
/// collision cannot invent a rank (the decider preserves it, or the inputs
/// never collide).
proof fn lemma_merge_ranks_above<T, R: Ranker<T>, D: Decider<T>>(
    ranker: R,
    decider: D,
    trail: usize,
    left: Seq<T>,
    right: Seq<T>,
    bound: usize,
)
    requires
        preserves_rank(ranker, decider) || rank_disjoint(ranker, left, right),
        ranks_above(ranker, left, bound),
        ranks_above(ranker, right, bound),
    ensures
        ranks_above(ranker, merge_seq(ranker, decider, trail, left, right), bound),
    decreases left.len() + right.len(),
{
    let out = merge_seq(ranker, decider, trail, left, right);
    if left.len() == 0 || right.len() == 0 {
        // the output is one of the inputs or empty
    } else {
        let ra = ranker.spec_rank(left[0]);
        let rb = ranker.spec_rank(right[0]);
        if ra == rb {
            assert(rank_disjoint(ranker, left, right) ==> false) by {
                if rank_disjoint(ranker, left, right) {
                    assert(ranker.spec_rank(left[0]) != ranker.spec_rank(right[0]));
                }
            }
            let rest = merge_seq(ranker, decider, trail, left.drop_first(), right.drop_first());
            lemma_merge_ranks_above(
                ranker,
                decider,
                trail,
                left.drop_first(),
                right.drop_first(),
                bound,
            );
            assert forall|i: int| 0 <= i < out.len() implies #[trigger] ranker.spec_rank(out[i])
                > bound by {
                if i > 0 {
                    assert(out[i] == rest[i - 1]);
                }
            }
        } else {
            let (l2, r2) = if ra < rb {
                (left.drop_first(), right)
            } else {
                (left, right.drop_first())
            };
            let rest = merge_seq(ranker, decider, trail, l2, r2);
            assert(rank_disjoint(ranker, left, right) ==> rank_disjoint(ranker, l2, r2)) by {
                if rank_disjoint(ranker, left, right) {
                    assert forall|i: int, j: int|
                        0 <= i < l2.len() && 0 <= j < r2.len() implies #[trigger] ranker.spec_rank(
                        l2[i],
                    ) != #[trigger] ranker.spec_rank(r2[j]) by {
                        if ra < rb {
                            assert(l2[i] == left[i + 1]);
                        } else {
                            assert(r2[j] == right[j + 1]);
                        }
                    }
                }
            }
            lemma_merge_ranks_above(ranker, decider, trail, l2, r2, bound);
            assert forall|i: int| 0 <= i < out.len() implies #[trigger] ranker.spec_rank(out[i])
                > bound by {
                if i > 0 {
                    assert(out[i] == rest[i - 1]);
                }
            }
        }
    }
}

/// The merge never reorders: if both inputs are sorted in strictly increasing
/// rank order and a collision cannot invent a rank, the output is sorted in
/// strictly increasing rank order too — in particular it never holds two items
/// of the same rank.
proof fn lemma_merge_sorted_core<T, R: Ranker<T>, D: Decider<T>>(
    ranker: R,
    decider: D,
    trail: usize,
    left: Seq<T>,
    right: Seq<T>,
)
    requires
        preserves_rank(ranker, decider) || rank_disjoint(ranker, left, right),
        sorted_by_rank(ranker, left),
        sorted_by_rank(ranker, right),
    ensures
        sorted_by_rank(ranker, merge_seq(ranker, decider, trail, left, right)),
    decreases left.len() + right.len(),
{
    let out = merge_seq(ranker, decider, trail, left, right);
    if left.len() == 0 || right.len() == 0 {
        // the output is one of the inputs or empty
    } else {
        let ra = ranker.spec_rank(left[0]);
        let rb = ranker.spec_rank(right[0]);
        let bound = if ra < rb {
            ra
        } else {
            rb
        };
        let (head, l2, r2) = if ra == rb {
            (decider.spec_decide(left[0], right[0]), left.drop_first(), right.drop_first())
        } else if ra < rb {
            (left[0], left.drop_first(), right)
        } else {
            (right[0], left, right.drop_first())
        };
        if ra == rb && rank_disjoint(ranker, left, right) {
            assert(ranker.spec_rank(left[0]) != ranker.spec_rank(right[0]));
        }
        assert(ranker.spec_rank(head) == bound);
        assert(sorted_by_rank(ranker, l2) && sorted_by_rank(ranker, r2)) by {
            lemma_drop_first_sorted(ranker, left);
            lemma_drop_first_sorted(ranker, right);
        }
        assert(rank_disjoint(ranker, left, right) ==> rank_disjoint(ranker, l2, r2)) by {
            if rank_disjoint(ranker, left, right) {
                lemma_drop_first_disjoint(ranker, left, right);
            }
        }
        assert(ranks_above(ranker, l2, bound)) by {
            assert forall|i: int| 0 <= i < l2.len() implies #[trigger] ranker.spec_rank(l2[i])
                > bound by {
                if l2.len() < left.len() {
                    assert(l2[i] == left[i + 1]);
                    assert(ranker.spec_rank(left[0]) < ranker.spec_rank(left[i + 1]));
                } else {
                    assert(i == 0 || ranker.spec_rank(left[0]) < ranker.spec_rank(left[i]));
                }
            }
        }
        assert(ranks_above(ranker, r2, bound)) by {
            assert forall|i: int| 0 <= i < r2.len() implies #[trigger] ranker.spec_rank(r2[i])
                > bound by {
                if r2.len() < right.len() {
                    assert(r2[i] == right[i + 1]);
                    assert(ranker.spec_rank(right[0]) < ranker.spec_rank(right[i + 1]));
                } else {
                    assert(i == 0 || ranker.spec_rank(right[0]) < ranker.spec_rank(right[i]));
                }
            }
        }
        let rest = merge_seq(ranker, decider, trail, l2, r2);
        lemma_merge_sorted_core(ranker, decider, trail, l2, r2);
        lemma_merge_ranks_above(ranker, decider, trail, l2, r2, bound);
        assert forall|i: int, j: int| 0 <= i < j < out.len() implies #[trigger] ranker.spec_rank(
            out[i],
        ) < #[trigger] ranker.spec_rank(out[j]) by {
            assert(out[j] == rest[j - 1]);
            if i > 0 {
                assert(out[i] == rest[i - 1]);
            }
        }
    }
}

/// Dropping the head of a rank-sorted sequence leaves it rank-sorted.
proof fn lemma_drop_first_sorted<T, R: Ranker<T>>(ranker: R, s: Seq<T>)
    requires
        sorted_by_rank(ranker, s),
        s.len() > 0,
    ensures
        sorted_by_rank(ranker, s.drop_first()),
{
    assert forall|i: int, j: int|
        0 <= i < j < s.drop_first().len() implies #[trigger] ranker.spec_rank(s.drop_first()[i])
        < #[trigger] ranker.spec_rank(s.drop_first()[j]) by {
        assert(s.drop_first()[i] == s[i + 1]);
        assert(s.drop_first()[j] == s[j + 1]);
    }
}

/// Dropping the head on either side of two rank-disjoint sequences leaves
/// them rank-disjoint.
proof fn lemma_drop_first_disjoint<T, R: Ranker<T>>(ranker: R, left: Seq<T>, right: Seq<T>)
    requires
        rank_disjoint(ranker, left, right),
    ensures
        left.len() > 0 ==> rank_disjoint(ranker, left.drop_first(), right),
        right.len() > 0 ==> rank_disjoint(ranker, left, right.drop_first()),
        left.len() > 0 && right.len() > 0 ==> rank_disjoint(
            ranker,
            left.drop_first(),
            right.drop_first(),
        ),
{
    if left.len() > 0 {
        assert forall|i: int, j: int|
            0 <= i < left.drop_first().len() && 0 <= j < right.len() implies #[trigger] ranker
            .spec_rank(left.drop_first()[i]) != #[trigger] ranker.spec_rank(right[j]) by {
            assert(left.drop_first()[i] == left[i + 1]);
        }
    }
    if right.len() > 0 {
        assert forall|i: int, j: int|
            0 <= i < left.len() && 0 <= j < right.drop_first().len() implies #[trigger] ranker
            .spec_rank(left[i]) != #[trigger] ranker.spec_rank(right.drop_first()[j]) by {
            assert(right.drop_first()[j] == right[j + 1]);
        }
    }
    if left.len() > 0 && right.len() > 0 {
        assert forall|i: int, j: int|
            0 <= i < left.drop_first().len() && 0 <= j < right.drop_first().len() implies #[trigger] ranker
            .spec_rank(left.drop_first()[i]) != #[trigger] ranker.spec_rank(
            right.drop_first()[j],
        ) by {
            assert(left.drop_first()[i] == left[i + 1]);
            assert(right.drop_first()[j] == right[j + 1]);
        }
    }
}

/// Law: the merge keeps strictly increasing rank order. Whenever both inputs
/// are rank-sorted and the decider never changes the rank of a collision, the
/// output is rank-sorted — so it neither reorders items nor emits two items
/// of one rank.
pub proof fn lemma_merge_sorted<T, R: Ranker<T>, D: Decider<T>>(
    ranker: R,
    decider: D,
    trail: usize,
    left: Seq<T>,
    right: Seq<T>,
)
    requires
        preserves_rank(ranker, decider),
        sorted_by_rank(ranker, left),
        sorted_by_rank(ranker, right),
    ensures
        sorted_by_rank(ranker, merge_seq(ranker, decider, trail, left, right)),
{
    lemma_merge_sorted_core(ranker, decider, trail, left, right);
}

/// Law: merging two rank-sorted inputs with no rank in common under the
/// drain-both trail policy yields exactly the ascending interleaving of the
/// two — a rank-sorted output holding precisely the items of both inputs.
pub proof fn lemma_merge_disjoint<T, R: Ranker<T>, D: Decider<T>>(
    ranker: R,
    decider: D,
    left: Seq<T>,
    right: Seq<T>,
)
    requires
        sorted_by_rank(ranker, left),
        sorted_by_rank(ranker, right),
        rank_disjoint(ranker, left, right),
    ensures
        sorted_by_rank(ranker, merge_seq(ranker, decider, 0, left, right)),
        merge_seq(ranker, decider, 0, left, right).to_multiset() == left.to_multiset().add(
            right.to_multiset(),
        ),
    decreases left.len() + right.len(),
{
    broadcast use vstd::seq_lib::group_seq_properties;
    broadcast use vstd::seq_lib::lemma_multiset_commutative;
    broadcast use vstd::multiset::group_multiset_axioms;
    broadcast use vstd::multiset::lemma_multiset_empty_len;

    lemma_merge_sorted_core(ranker, decider, 0, left, right);
    let out = merge_seq(ranker, decider, 0, left, right);
    if left.len() == 0 {
        assert(left.to_multiset().len() == 0);
        assert(out.to_multiset() =~= left.to_multiset().add(right.to_multiset()));
    } else if right.len() == 0 {
        assert(right.to_multiset().len() == 0);
        assert(out.to_multiset() =~= left.to_multiset().add(right.to_multiset()));
    } else {
        let ra = ranker.spec_rank(left[0]);
        let rb = ranker.spec_rank(right[0]);
        assert(ra != rb);
        lemma_drop_first_sorted(ranker, left);
        lemma_drop_first_sorted(ranker, right);
        lemma_drop_first_disjoint(ranker, left, right);
        if ra < rb {
            let l2 = left.drop_first();
            lemma_merge_disjoint(ranker, decider, l2, right);
            let rest = merge_seq(ranker, decider, 0, l2, right);
            assert(out =~= seq![left[0]] + rest);
            assert(left =~= seq![left[0]] + l2);
            vstd::seq_lib::lemma_multiset_commutative(seq![left[0]], rest);
            vstd::seq_lib::lemma_multiset_commutative(seq![left[0]], l2);
            assert(out.to_multiset() =~= seq![left[0]].to_multiset().add(rest.to_multiset()));
            assert(left.to_multiset() =~= seq![left[0]].to_multiset().add(l2.to_multiset()));
            assert forall|v: T|
                #[trigger] out.to_multiset().count(v) == left.to_multiset().add(
                    right.to_multiset(),
                ).count(v) by {
                assert(out.to_multiset().count(v) == seq![left[0]].to_multiset().count(v)
                    + rest.to_multiset().count(v));
                assert(rest.to_multiset().count(v) == l2.to_multiset().count(v)
                    + right.to_multiset().count(v));
                assert(left.to_multiset().count(v) == seq![left[0]].to_multiset().count(v)
                    + l2.to_multiset().count(v));
            }
            assert(out.to_multiset() =~= left.to_multiset().add(right.to_multiset()));
        } else {
            let r2 = right.drop_first();
            lemma_merge_disjoint(ranker, decider, left, r2);
            let rest = merge_seq(ranker, decider, 0, left, r2);
            assert(out =~= seq![right[0]] + rest);
            assert(right =~= seq![right[0]] + r2);
            vstd::seq_lib::lemma_multiset_commutative(seq![right[0]], rest);
            vstd::seq_lib::lemma_multiset_commutative(seq![right[0]], r2);
            assert(out.to_multiset() =~= seq![right[0]].to_multiset().add(rest.to_multiset()));
            assert(right.to_multiset() =~= seq![right[0]].to_multiset().add(r2.to_multiset()));
            assert forall|v: T|
                #[trigger] out.to_multiset().count(v) == left.to_multiset().add(
                    right.to_multiset(),
                ).count(v) by {
                assert(out.to_multiset().count(v) == seq![right[0]].to_multiset().count(v)
                    + rest.to_multiset().count(v));
                assert(rest.to_multiset().count(v) == left.to_multiset().count(v)
                    + r2.to_multiset().count(v));
                assert(right.to_multiset().count(v) == seq![right[0]].to_multiset().count(v)
                    + r2.to_multiset().count(v));
            }
            assert(out.to_multiset() =~= left.to_multiset().add(right.to_multiset()));
        }
    }
}

/// Law: when the two inputs collide at every position — equal length, equal
/// rank pair by pair — every output item is the decider's pick for that pair
/// and exactly one item per collision appears, so the output length is the
/// length of the longer input.
pub proof fn lemma_merge_paired<T, R: Ranker<T>, D: Decider<T>>(
    ranker: R,
    decider: D,
    trail: usize,
    left: Seq<T>,
    right: Seq<T>,
)
    requires
        left.len() == right.len(),
        forall|i: int|
            0 <= i < left.len() ==> #[trigger] ranker.spec_rank(left[i]) == #[trigger] ranker
                .spec_rank(right[i]),
    ensures
        merge_seq(ranker, decider, trail, left, right).len() == left.len(),
        forall|i: int|
            0 <= i < left.len() ==> #[trigger] merge_seq(ranker, decider, trail, left, right)[i]
                == decider.spec_decide(left[i], right[i]),
    decreases left.len(),
{
    let out = merge_seq(ranker, decider, trail, left, right);
    if left.len() > 0 {
        let l2 = left.drop_first();
        let r2 = right.drop_first();
        assert forall|i: int|
            0 <= i < l2.len() implies #[trigger] ranker.spec_rank(l2[i]) == #[trigger] ranker
            .spec_rank(r2[i]) by {
            assert(l2[i] == left[i + 1]);
            assert(r2[i] == right[i + 1]);
        }
        lemma_merge_paired(ranker, decider, trail, l2, r2);
        let rest = merge_seq(ranker, decider, trail, l2, r2);
        assert forall|i: int| 0 <= i < left.len() implies #[trigger] out[i] == decider.spec_decide(
            left[i],
            right[i],
        ) by {
            if i > 0 {
                assert(out[i] == rest[i - 1]);
                assert(l2[i - 1] == left[i]);
                assert(r2[i - 1] == right[i]);
            }
        }
    }
}

/// Law: a merge with one empty input degrades to the trail policy alone. The
/// non-empty side is drained unchanged exactly when the policy drains it —
/// for the right side empty, under trails 0 and 1; for the left side empty,
/// under trails 0 and 2 — and under trail 3 the output is empty as soon as
/// either side is.
pub proof fn lemma_merge_empty_side<T, R: Ranker<T>, D: Decider<T>>(
    ranker: R,
    decider: D,
    trail: usize,
    left: Seq<T>,
    right: Seq<T>,
)
    ensures
        right.len() == 0 && drains_left(trail) ==> merge_seq(ranker, decider, trail, left, right)
            == left,
        left.len() == 0 && drains_right(trail) ==> merge_seq(ranker, decider, trail, left, right)
            == right,
        right.len() == 0 && !drains_left(trail) ==> merge_seq(ranker, decider, trail, left, right)
            == Seq::<T>::empty(),
        left.len() == 0 && !drains_right(trail) ==> merge_seq(ranker, decider, trail, left, right)
            == Seq::<T>::empty(),
{
    if left.len() == 0 && right.len() == 0 {
        assert(merge_seq(ranker, decider, trail, left, right) =~= left);
        assert(merge_seq(ranker, decider, trail, left, right) =~= right);
    }
}

/// Law: the merge emits at most one item per input item, and under the
/// drain-both trail policy at least as many items as the longer input holds.
pub proof fn lemma_merge_len<T, R: Ranker<T>, D: Decider<T>>(
    ranker: R,
    decider: D,
    trail: usize,
    left: Seq<T>,
    right: Seq<T>,
)
    ensures
        merge_seq(ranker, decider, trail, left, right).len() <= left.len() + right.len(),
        trail == 0 ==> merge_seq(ranker, decider, trail, left, right).len() >= left.len()
            && merge_seq(ranker, decider, trail, left, right).len() >= right.len(),
    decreases left.len() + right.len(),
{
    if left.len() == 0 || right.len() == 0 {
        // the output is one of the inputs or empty
    } else {
        let ra = ranker.spec_rank(left[0]);
        let rb = ranker.spec_rank(right[0]);
        if ra == rb {
            lemma_merge_len(ranker, decider, trail, left.drop_first(), right.drop_first());
        } else if ra < rb {
            lemma_merge_len(ranker, decider, trail, left.drop_first(), right);
        } else {
            lemma_merge_len(ranker, decider, trail, left, right.drop_first());
        }
    }
}

/// A lazy two-way merge of two rank-sorted inputs: each `next` call peeks both
/// heads, consumes the minimum necessary amount of state and emits one item,
/// until both inputs are exhausted or the trail policy stops it early.
pub struct Zort<T, R: Ranker<T>, D: Decider<T>> {
    pub a: Vec<T>,
    pub b: Vec<T>,
    pub ranker: R,
    pub decider: D,
    pub trail: usize,
}

impl<T, R: Ranker<T>, D: Decider<T>> Zort<T, R, D> {
    /// Everything this merge has yet to emit.
    pub open spec fn remaining(self) -> Seq<T> {
        merge_seq(self.ranker, self.decider, self.trail, self.a@, self.b@)
    }

    pub fn new(a: Vec<T>, b: Vec<T>, ranker: R, decider: D, trail: usize) -> (z: Self)
        ensures
            z.a@ == a@,
            z.b@ == b@,
            z.ranker == ranker,
            z.decider == decider,
            z.trail == trail,
    {
        Zort { a, b, ranker, decider, trail }
    }

    /// Replaces the rank-collision strategy; the inputs and the trail policy
    /// stay as they are.
    pub fn set_decider(&mut self, decider: D)
        ensures
            final(self).decider == decider,
            final(self).a@ == old(self).a@,
            final(self).b@ == old(self).b@,
            final(self).ranker == old(self).ranker,
            final(self).trail == old(self).trail,
    {
        self.decider = decider;
    }

    /// Replaces the trail policy; the inputs and the strategies stay as they
    /// are.
    pub fn set_trail(&mut self, trail: usize)
        ensures
            final(self).trail == trail,
            final(self).a@ == old(self).a@,
            final(self).b@ == old(self).b@,
            final(self).ranker == old(self).ranker,
            final(self).decider == old(self).decider,
    {
        self.trail = trail;
    }

    /// The left item of a pair, whatever the right one is.
    pub fn prefer_left(left: T, _right: T) -> (r: T)
        ensures
            r == left,
    {
        left
    }

    /// The right item of a pair, whatever the left one is.
    pub fn prefer_right(_left: T, right: T) -> (r: T)
        ensures
            r == right,
    {
        right
    }

    /// Emits the next merged item, or `None` once the merge is over: the
    /// emitted items, in order, are exactly `remaining()` as it stood before
    /// the first call.
    pub fn next(&mut self) -> (r: Option<T>)
        ensures
            final(self).ranker == old(self).ranker,
            final(self).decider == old(self).decider,
            final(self).trail == old(self).trail,
            (match r {
                Some(item) => old(self).remaining() == seq![item] + final(self).remaining()
                    && final(self).a@.len() + final(self).b@.len() < old(self).a@.len()
                    + old(self).b@.len(),
                None => old(self).remaining() == Seq::<T>::empty() && final(self).a@ == old(
                    self,
                ).a@ && final(self).b@ == old(self).b@,
            }),
    {
        if self.a.len() == 0 && self.b.len() == 0 {
            None
        } else if self.a.len() == 0 {
            if self.trail != 1 && self.trail != 3 {
                let item = self.b.remove(0);
                proof {
                    assert(old(self).b@ =~= seq![item] + self.b@);
                    assert(old(self).remaining() =~= seq![item] + self.remaining());
                }
                Some(item)
            } else {
                None
            }
        } else if self.b.len() == 0 {
            if self.trail != 2 && self.trail != 3 {
                let item = self.a.remove(0);
                proof {
                    assert(old(self).a@ =~= seq![item] + self.a@);
                    assert(old(self).remaining() =~= seq![item] + self.remaining());
                }
                Some(item)
            } else {
                None
            }
        } else {
            let rank_a = self.ranker.rank(&self.a[0]);
            let rank_b = self.ranker.rank(&self.b[0]);
            if rank_a == rank_b {
                let x = self.a.remove(0);
                let y = self.b.remove(0);
                proof {
                    assert(self.a@ =~= old(self).a@.drop_first());
                    assert(self.b@ =~= old(self).b@.drop_first());
                }
                let item = self.decider.decide(x, y);
                Some(item)
            } else if rank_a < rank_b {
                let item = self.a.remove(0);
                proof {
                    assert(self.a@ =~= old(self).a@.drop_first());
                }
                Some(item)
            } else {
                let item = self.b.remove(0);
                proof {
                    assert(self.b@ =~= old(self).b@.drop_first());
                }
                Some(item)
            }
        }
    }
}

} // verus!

