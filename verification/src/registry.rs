//! The tree registry and the tick driver.
//!
//! [`BehaviourTrees`] owns every finished tree under an index-based
//! [`BehaviourId`] handle and remembers which handles have completed their
//! one-time initialization. Each logic tick the host hands the driver the
//! active `(subject, handle)` pairs; the driver sorts them by handle (ties
//! keep their arrival order, so a pass is deterministic), lazily initializes
//! each tree the first time any subject reaches it, and ticks the tree once
//! per active subject.

use vstd::prelude::*;

use std::collections::HashSet;

use crate::behaviour::Behaviour;

verus! {

broadcast use vstd::std_specs::hash::group_hash_axioms;

/// An ID for a behaviour tree: the index of one stored root node. Many
/// subjects may share one ID; they then play the same tree structure with
/// independent progress.
#[derive(PartialEq, Eq, Structural, Clone, Copy, PartialOrd, Ord, Hash, Debug, Default)]
pub struct BehaviourId(pub usize);

/// Host-visible marker: while a subject carries it, the host leaves that
/// subject out of the active pairs it hands to
/// [`run_ticks`](BehaviourTrees::run_ticks), so the subject's trees are not
/// processed until the marker is removed.
#[derive(PartialEq, Eq, Structural, Debug, Default)]
pub struct Skip;

/// Whether the registry slot for `id` holds a tree.
pub open spec fn live_slot<T>(slots: Seq<Option<T>>, id: usize) -> bool {
    id < slots.len() && slots[id as int] is Some
}

/// Whether some active pair names the handle `id`.
pub open spec fn pairs_contain_id(pairs: Seq<(u64, BehaviourId)>, id: usize) -> bool {
    exists|k: int| 0 <= k < pairs.len() && (#[trigger] pairs[k]).1.0 == id
}

/// The handles a pass actually processes: those named by an active pair
/// whose registry slot holds a tree.
pub open spec fn ticked_ids<T>(slots: Seq<Option<T>>, pairs: Seq<(u64, BehaviourId)>) -> Set<
    usize,
> {
    Set::new(|id: usize| live_slot(slots, id) && pairs_contain_id(pairs, id))
}

/// Where a pair lands when added to an already-ordered pass: after every
/// pair with a handle at most its own, so that equal handles keep their
/// arrival order.
pub open spec fn id_sorted_insert(
    sorted: Seq<(u64, BehaviourId)>,
    pair: (u64, BehaviourId),
) -> Seq<(u64, BehaviourId)>
    decreases sorted.len(),
{
    if sorted.len() == 0 {
        seq![pair]
    } else if sorted.last().1.0 <= pair.1.0 {
        sorted.push(pair)
    } else {
        id_sorted_insert(sorted.drop_last(), pair).push(sorted.last())
    }
}

/// The deterministic order of one pass: pairs sorted by handle, with ties
/// broken by arrival order.
pub open spec fn id_sorted(pairs: Seq<(u64, BehaviourId)>) -> Seq<(u64, BehaviourId)>
    decreases pairs.len(),
{
    if pairs.len() == 0 {
        Seq::empty()
    } else {
        id_sorted_insert(id_sorted(pairs.drop_last()), pairs.last())
    }
}

/// Inserting into an ordered pass only adds the new pair: nothing else
/// appears or disappears.
proof fn lemma_id_sorted_insert_contains(
    sorted: Seq<(u64, BehaviourId)>,
    pair: (u64, BehaviourId),
    other: (u64, BehaviourId),
)
    ensures
        id_sorted_insert(sorted, pair).contains(other) <==> (sorted.contains(other) || other
            == pair),
    decreases sorted.len(),
{
    if sorted.len() == 0 {
        assert(id_sorted_insert(sorted, pair) =~= seq![pair]);
        if id_sorted_insert(sorted, pair).contains(other) {
            let k = choose|k: int|
                0 <= k < seq![pair].len() && #[trigger] seq![pair][k] == other;
            assert(other == pair);
        }
        if other == pair {
            assert(seq![pair][0] == other);
        }
    } else if sorted.last().1.0 <= pair.1.0 {
        lemma_push_contains(sorted, pair, other);
    } else {
        lemma_id_sorted_insert_contains(sorted.drop_last(), pair, other);
        lemma_push_contains(id_sorted_insert(sorted.drop_last(), pair), sorted.last(), other);
        lemma_drop_last_contains(sorted, other);
    }
}

/// A sequence with one pair pushed contains exactly what it contained before
/// plus that pair.
proof fn lemma_push_contains(
    pairs: Seq<(u64, BehaviourId)>,
    pair: (u64, BehaviourId),
    other: (u64, BehaviourId),
)
    ensures
        pairs.push(pair).contains(other) <==> (pairs.contains(other) || other == pair),
{
    if pairs.contains(other) {
        let k = choose|k: int| 0 <= k < pairs.len() && #[trigger] pairs[k] == other;
        assert(pairs.push(pair)[k] == other);
    }
    if other == pair {
        assert(pairs.push(pair)[pairs.len() as int] == other);
    }
    if pairs.push(pair).contains(other) {
        let k = choose|k: int|
            0 <= k < pairs.push(pair).len() && #[trigger] pairs.push(pair)[k] == other;
        if k < pairs.len() {
            assert(pairs[k] == other);
        }
    }
}

/// A sequence contains exactly what remains without its last pair, plus that
/// last pair.
proof fn lemma_drop_last_contains(pairs: Seq<(u64, BehaviourId)>, other: (u64, BehaviourId))
    requires
        pairs.len() > 0,
    ensures
        pairs.contains(other) <==> (pairs.drop_last().contains(other) || other == pairs.last()),
{
    if pairs.drop_last().contains(other) {
        let k = choose|k: int|
            0 <= k < pairs.drop_last().len() && #[trigger] pairs.drop_last()[k] == other;
        assert(pairs[k] == other);
    }
    if other == pairs.last() {
        assert(pairs[pairs.len() - 1] == other);
    }
    if pairs.contains(other) {
        let k = choose|k: int| 0 <= k < pairs.len() && #[trigger] pairs[k] == other;
        if k < pairs.len() - 1 {
            assert(pairs.drop_last()[k] == other);
        }
    }
}

/// Sorting a pass reorders it and nothing more: the sorted pass holds
/// exactly the pairs of the original.
pub proof fn lemma_id_sorted_contains(pairs: Seq<(u64, BehaviourId)>, other: (u64, BehaviourId))
    ensures
        id_sorted(pairs).contains(other) <==> pairs.contains(other),
    decreases pairs.len(),
{
    if pairs.len() == 0 {
        if id_sorted(pairs).contains(other) {
            let k = choose|k: int|
                0 <= k < id_sorted(pairs).len() && #[trigger] id_sorted(pairs)[k] == other;
        }
    } else {
        lemma_id_sorted_contains(pairs.drop_last(), other);
        lemma_id_sorted_insert_contains(id_sorted(pairs.drop_last()), pairs.last(), other);
        lemma_drop_last_contains(pairs, other);
    }
}

/// Sorting a pass keeps the same set of handles.
pub proof fn lemma_id_sorted_same_ids(pairs: Seq<(u64, BehaviourId)>, id: usize)
    ensures
        pairs_contain_id(id_sorted(pairs), id) <==> pairs_contain_id(pairs, id),
{
    let sorted = id_sorted(pairs);
    if pairs_contain_id(sorted, id) {
        let k = choose|k: int| 0 <= k < sorted.len() && (#[trigger] sorted[k]).1.0 == id;
        assert(sorted.contains(sorted[k]));
        lemma_id_sorted_contains(pairs, sorted[k]);
        let j = choose|j: int| 0 <= j < pairs.len() && #[trigger] pairs[j] == sorted[k];
        assert((pairs[j]).1.0 == id);
    }
    if pairs_contain_id(pairs, id) {
        let k = choose|k: int| 0 <= k < pairs.len() && (#[trigger] pairs[k]).1.0 == id;
        assert(pairs.contains(pairs[k]));
        lemma_id_sorted_contains(pairs, pairs[k]);
        let j = choose|j: int| 0 <= j < sorted.len() && #[trigger] sorted[j] == pairs[k];
        assert((sorted[j]).1.0 == id);
    }
}

/// Extending a pass by one pair extends the processed handles by that pair's
/// handle, when its slot is live.
proof fn lemma_ticked_ids_push<T>(
    slots: Seq<Option<T>>,
    pairs: Seq<(u64, BehaviourId)>,
    pair: (u64, BehaviourId),
)
    ensures
        ticked_ids(slots, pairs.push(pair)) == if live_slot(slots, pair.1.0) {
            ticked_ids(slots, pairs).insert(pair.1.0)
        } else {
            ticked_ids(slots, pairs)
        },
{
    let with_pair = ticked_ids(slots, pairs.push(pair));
    let without = ticked_ids(slots, pairs);
    assert forall|id: usize|
        pairs_contain_id(pairs.push(pair), id) <==> (pairs_contain_id(pairs, id) || pair.1.0
            == id) by {
        if pairs_contain_id(pairs, id) {
            let k = choose|k: int| 0 <= k < pairs.len() && (#[trigger] pairs[k]).1.0 == id;
            assert((pairs.push(pair)[k]).1.0 == id);
        }
        if pair.1.0 == id {
            assert((pairs.push(pair)[pairs.len() as int]).1.0 == id);
        }
        if pairs_contain_id(pairs.push(pair), id) {
            let k = choose|k: int|
                0 <= k < pairs.push(pair).len() && (#[trigger] pairs.push(pair)[k]).1.0 == id;
            if k < pairs.len() {
                assert((pairs[k]).1.0 == id);
            }
        }
    }
    if live_slot(slots, pair.1.0) {
        assert forall|id: usize| with_pair.contains(id) <==> without.insert(pair.1.0).contains(
            id,
        ) by {
            assert(pairs_contain_id(pairs.push(pair), id) <==> (pairs_contain_id(pairs, id)
                || pair.1.0 == id));
        }
        assert(with_pair =~= without.insert(pair.1.0));
    } else {
        assert forall|id: usize| with_pair.contains(id) <==> without.contains(id) by {
            assert(pairs_contain_id(pairs.push(pair), id) <==> (pairs_contain_id(pairs, id)
                || pair.1.0 == id));
        }
        assert(with_pair =~= without);
    }
}

/// The handles a pass initializes, in processing order: a handle is
/// initialized when its slot is live and it is not yet recorded as
/// initialized, by an earlier pass or earlier in this one.
pub open spec fn pass_inits<T>(
    slots: Seq<Option<T>>,
    recorded: Set<usize>,
    pairs: Seq<(u64, BehaviourId)>,
) -> Seq<usize>
    decreases pairs.len(),
{
    if pairs.len() == 0 {
        Seq::empty()
    } else {
        let id = pairs[0].1.0;
        let rest = pairs.drop_first();
        if live_slot(slots, id) && !recorded.contains(id) {
            seq![id] + pass_inits(slots, recorded.insert(id), rest)
        } else {
            pass_inits(slots, recorded, rest)
        }
    }
}

/// The recorded handles once a pass has been processed.
pub open spec fn pass_recorded<T>(
    slots: Seq<Option<T>>,
    recorded: Set<usize>,
    pairs: Seq<(u64, BehaviourId)>,
) -> Set<usize>
    decreases pairs.len(),
{
    if pairs.len() == 0 {
        recorded
    } else {
        let id = pairs[0].1.0;
        let rest = pairs.drop_first();
        if live_slot(slots, id) && !recorded.contains(id) {
            pass_recorded(slots, recorded.insert(id), rest)
        } else {
            pass_recorded(slots, recorded, rest)
        }
    }
}

/// A pass with one more pair in front processes that pair's handle first.
proof fn lemma_pairs_contain_id_first(pairs: Seq<(u64, BehaviourId)>, id: usize)
    requires
        pairs.len() > 0,
    ensures
        pairs_contain_id(pairs, id) <==> (pairs[0].1.0 == id || pairs_contain_id(
            pairs.drop_first(),
            id,
        )),
{
    if pairs_contain_id(pairs, id) {
        let k = choose|k: int| 0 <= k < pairs.len() && (#[trigger] pairs[k]).1.0 == id;
        if k > 0 {
            assert((pairs.drop_first()[k - 1]).1.0 == id);
        }
    }
    if pairs_contain_id(pairs.drop_first(), id) {
        let k = choose|k: int|
            0 <= k < pairs.drop_first().len() && (#[trigger] pairs.drop_first()[k]).1.0 == id;
        assert((pairs[k + 1]).1.0 == id);
    }
}

/// What a pass records is exactly what it was handed plus the handles it
/// processed: recording does not depend on which of them were initialized.
pub proof fn lemma_pass_recorded_is_ticked<T>(
    slots: Seq<Option<T>>,
    recorded: Set<usize>,
    pairs: Seq<(u64, BehaviourId)>,
)
    ensures
        pass_recorded(slots, recorded, pairs) == recorded.union(ticked_ids(slots, pairs)),
    decreases pairs.len(),
{
    if pairs.len() == 0 {
        assert forall|id: usize| !ticked_ids(slots, pairs).contains(id) by {
            if pairs_contain_id(pairs, id) {
                let k = choose|k: int| 0 <= k < pairs.len() && (#[trigger] pairs[k]).1.0 == id;
            }
        }
        assert(pass_recorded(slots, recorded, pairs) =~= recorded.union(ticked_ids(slots, pairs)));
    } else {
        let id = pairs[0].1.0;
        let rest = pairs.drop_first();
        assert forall|other: usize|
            pairs_contain_id(pairs, other) <==> (id == other || pairs_contain_id(
                rest,
                other,
            )) by {
            lemma_pairs_contain_id_first(pairs, other);
        }
        if live_slot(slots, id) && !recorded.contains(id) {
            lemma_pass_recorded_is_ticked(slots, recorded.insert(id), rest);
            assert(recorded.insert(id).union(ticked_ids(slots, rest)) =~= recorded.union(
                ticked_ids(slots, pairs),
            ));
        } else {
            lemma_pass_recorded_is_ticked(slots, recorded, rest);
            assert(recorded.union(ticked_ids(slots, rest)) =~= recorded.union(
                ticked_ids(slots, pairs),
            ));
        }
    }
}

/// Splitting a pass: processing `left + right` initializes what `left`
/// initializes, then what `right` initializes once `left` is recorded.
pub proof fn lemma_pass_inits_append<T>(
    slots: Seq<Option<T>>,
    recorded: Set<usize>,
    left: Seq<(u64, BehaviourId)>,
    right: Seq<(u64, BehaviourId)>,
)
    ensures
        pass_inits(slots, recorded, left + right) == pass_inits(slots, recorded, left)
            + pass_inits(slots, pass_recorded(slots, recorded, left), right),
        pass_recorded(slots, recorded, left + right) == pass_recorded(
            slots,
            pass_recorded(slots, recorded, left),
            right,
        ),
    decreases left.len(),
{
    if left.len() == 0 {
        assert(left + right =~= right);
        assert(Seq::<usize>::empty() + pass_inits(slots, recorded, right) =~= pass_inits(
            slots,
            recorded,
            right,
        ));
    } else {
        let id = left[0].1.0;
        assert((left + right)[0] == left[0]);
        assert((left + right).drop_first() =~= left.drop_first() + right);
        if live_slot(slots, id) && !recorded.contains(id) {
            lemma_pass_inits_append(slots, recorded.insert(id), left.drop_first(), right);
            assert(seq![id] + (pass_inits(slots, recorded.insert(id), left.drop_first())
                + pass_inits(
                slots,
                pass_recorded(slots, recorded.insert(id), left.drop_first()),
                right,
            )) =~= (seq![id] + pass_inits(slots, recorded.insert(id), left.drop_first()))
                + pass_inits(
                slots,
                pass_recorded(slots, recorded.insert(id), left.drop_first()),
                right,
            ));
        } else {
            lemma_pass_inits_append(slots, recorded, left.drop_first(), right);
        }
    }
}

/// One pass never initializes a handle twice, and never a handle that was
/// recorded before the pass began.
pub proof fn lemma_pass_initializes_at_most_once<T>(
    slots: Seq<Option<T>>,
    recorded: Set<usize>,
    pairs: Seq<(u64, BehaviourId)>,
)
    ensures
        pass_inits(slots, recorded, pairs).no_duplicates(),
        forall|k: int|
            0 <= k < pass_inits(slots, recorded, pairs).len() ==> !recorded.contains(
                #[trigger] pass_inits(slots, recorded, pairs)[k],
            ),
    decreases pairs.len(),
{
    if pairs.len() == 0 {
    } else {
        let id = pairs[0].1.0;
        let rest = pairs.drop_first();
        if live_slot(slots, id) && !recorded.contains(id) {
            lemma_pass_initializes_at_most_once(slots, recorded.insert(id), rest);
            let inits = pass_inits(slots, recorded, pairs);
            let tail = pass_inits(slots, recorded.insert(id), rest);
            assert forall|k: int| 0 <= k < inits.len() implies !recorded.contains(
                inits[k],
            ) && (k > 0 ==> inits[k] != id) by {
                if k > 0 {
                    assert(inits[k] == tail[k - 1]);
                    assert(!recorded.insert(id).contains(tail[k - 1]));
                }
            }
            assert(inits.drop_first() =~= tail);
        } else {
            lemma_pass_initializes_at_most_once(slots, recorded, rest);
        }
    }
}

/// Every handle a pass initializes is processed by that pass, so the
/// driver's contract records it.
pub proof fn lemma_pass_inits_are_ticked<T>(
    slots: Seq<Option<T>>,
    recorded: Set<usize>,
    pairs: Seq<(u64, BehaviourId)>,
)
    ensures
        forall|k: int|
            0 <= k < pass_inits(slots, recorded, pairs).len() ==> ticked_ids(
                slots,
                pairs,
            ).contains(#[trigger] pass_inits(slots, recorded, pairs)[k]),
    decreases pairs.len(),
{
    if pairs.len() == 0 {
    } else {
        let id = pairs[0].1.0;
        let rest = pairs.drop_first();
        assert forall|other: usize|
            pairs_contain_id(pairs, other) <==> (id == other || pairs_contain_id(
                rest,
                other,
            )) by {
            lemma_pairs_contain_id_first(pairs, other);
        }
        let inits = pass_inits(slots, recorded, pairs);
        if live_slot(slots, id) && !recorded.contains(id) {
            lemma_pass_inits_are_ticked(slots, recorded.insert(id), rest);
            let tail = pass_inits(slots, recorded.insert(id), rest);
            assert forall|k: int| 0 <= k < inits.len() implies ticked_ids(slots, pairs).contains(
                inits[k],
            ) by {
                if k > 0 {
                    assert(inits[k] == tail[k - 1]);
                    assert(ticked_ids(slots, rest).contains(tail[k - 1]));
                }
            }
        } else {
            lemma_pass_inits_are_ticked(slots, recorded, rest);
            let tail = pass_inits(slots, recorded, rest);
            assert forall|k: int| 0 <= k < inits.len() implies ticked_ids(slots, pairs).contains(
                inits[k],
            ) by {
                assert(inits[k] == tail[k]);
                assert(ticked_ids(slots, rest).contains(tail[k]));
            }
        }
    }
}

/// Initialization happens exactly once per handle, however many subjects
/// share it and however many passes run: a handle initialized by one pass is
/// recorded, and no later pass, whatever its active pairs, initializes a
/// recorded handle again.
pub proof fn lemma_initialize_once_across_passes<T>(
    slots: Seq<Option<T>>,
    recorded: Set<usize>,
    first: Seq<(u64, BehaviourId)>,
    second: Seq<(u64, BehaviourId)>,
)
    ensures
        forall|id: usize|
            pass_inits(slots, recorded, first).contains(id) ==> !pass_inits(
                slots,
                recorded.union(ticked_ids(slots, first)),
                second,
            ).contains(id),
{
    lemma_pass_inits_are_ticked(slots, recorded, first);
    lemma_pass_initializes_at_most_once(slots, recorded.union(ticked_ids(slots, first)), second);
    assert forall|id: usize| pass_inits(slots, recorded, first).contains(id) implies !pass_inits(
        slots,
        recorded.union(ticked_ids(slots, first)),
        second,
    ).contains(id) by {
        let k = choose|k: int|
            0 <= k < pass_inits(slots, recorded, first).len() && pass_inits(
                slots,
                recorded,
                first,
            )[k] == id;
        assert(ticked_ids(slots, first).contains(id));
        let later = pass_inits(slots, recorded.union(ticked_ids(slots, first)), second);
        if later.contains(id) {
            let j = choose|j: int| 0 <= j < later.len() && later[j] == id;
            assert(!recorded.union(ticked_ids(slots, first)).contains(later[j]));
        }
    }
}

/// Puts one pass of active pairs into the driver's deterministic order:
/// ascending handle, ties keeping their arrival order.
fn sort_pairs(pairs: Vec<(u64, BehaviourId)>) -> (sorted: Vec<(u64, BehaviourId)>)
    ensures
        sorted@ == id_sorted(pairs@),
{
    let mut sorted: Vec<(u64, BehaviourId)> = Vec::new();
    let mut done: usize = 0;
    while done < pairs.len()
        invariant
            done <= pairs@.len(),
            sorted@ == id_sorted(pairs@.take(done as int)),
        decreases pairs@.len() - done,
    {
        let pair = pairs[done];
        let mut position = sorted.len();
        while position > 0 && sorted[position - 1].1.0 > pair.1.0
            invariant
                position <= sorted@.len(),
                forall|j: int|
                    position <= j < sorted@.len() ==> (#[trigger] sorted@[j]).1.0 > pair.1.0,
            decreases position,
        {
            position = position - 1;
        }
        proof {
            lemma_id_sorted_insert_splices(sorted@, pair, position as int);
            assert(pairs@.take(done as int + 1).drop_last() =~= pairs@.take(done as int));
            assert(pairs@.take(done as int + 1).last() == pair);
        }
        sorted.insert(position, pair);
        done = done + 1;
    }
    proof {
        assert(pairs@.take(pairs@.len() as int) =~= pairs@);
    }
    sorted
}

/// Where the ordered insertion lands, described by its boundary: every pair
/// from `position` on has a greater handle, and the pair just before it, if
/// any, has a handle at most the new one.
proof fn lemma_id_sorted_insert_splices(
    sorted: Seq<(u64, BehaviourId)>,
    pair: (u64, BehaviourId),
    position: int,
)
    requires
        0 <= position <= sorted.len(),
        forall|j: int| position <= j < sorted.len() ==> (#[trigger] sorted[j]).1.0 > pair.1.0,
        position > 0 ==> sorted[position - 1].1.0 <= pair.1.0,
    ensures
        id_sorted_insert(sorted, pair) == sorted.insert(position, pair),
    decreases sorted.len(),
{
    if sorted.len() == 0 {
        assert(id_sorted_insert(sorted, pair) =~= sorted.insert(position, pair));
    } else if position == sorted.len() {
        assert(id_sorted_insert(sorted, pair) == sorted.push(pair));
        assert(sorted.insert(position, pair) =~= sorted.push(pair));
    } else {
        assert(sorted.last().1.0 > pair.1.0);
        lemma_id_sorted_insert_splices(sorted.drop_last(), pair, position);
        assert(id_sorted_insert(sorted, pair) == id_sorted_insert(sorted.drop_last(), pair).push(
            sorted.last(),
        ));
        assert(sorted.drop_last().insert(position, pair).push(sorted.last()) =~= sorted.insert(
            position,
            pair,
        ));
    }
}

/// Resource holding every created tree. Trees are stored boxed behind
/// index-based handles; a slot is vacated while its tree is being ticked and
/// restored afterwards, so indices never shift.
pub struct BehaviourTrees<T> {
    /// The stored root nodes. `Option` so a behaviour can be moved out of
    /// the resource temporarily without shifting indices.
    trees: Vec<Option<T>>,
    /// The handles whose one-time initialization has run.
    initialized: HashSet<usize>,
}

impl<T> BehaviourTrees<T> {
    /// The stored slots, in handle order.
    pub closed spec fn slots(&self) -> Seq<Option<T>> {
        self.trees@
    }

    /// The handles that have completed their one-time initialization.
    pub closed spec fn initialized_ids(&self) -> Set<usize> {
        self.initialized@
    }

    /// Every recorded handle names a slot that exists: the registry records
    /// no id at or past the end of its storage. Registries start this way
    /// and every operation keeps it, so the contracts carry it as a
    /// conditional clause instead of demanding it of callers.
    pub open spec fn wf(&self) -> bool {
        forall|id: usize| self.initialized_ids().contains(id) ==> id < self.slots().len()
    }

    /// Create a new behaviour tree from a finished root node and hand back
    /// its ID. No initialization happens here: the tree is lazily
    /// initialized by the first driver pass that reaches it.
    pub fn create(&mut self, behaviour: T) -> (id: BehaviourId)
        ensures
            id.0 == old(self).slots().len(),
            final(self).slots() == old(self).slots().push(Some(behaviour)),
            final(self).initialized_ids() == old(self).initialized_ids(),
            // a fresh handle has never been initialized, so the first driver
            // pass that reaches it will initialize it lazily
            old(self).wf() ==> !final(self).initialized_ids().contains(id.0),
            old(self).wf() ==> final(self).wf(),
    {
        self.trees.push(Some(behaviour));
        let id = BehaviourId(self.trees.len() - 1);
        proof {
            if old(self).wf() {
                assert(!old(self).initialized_ids().contains(id.0));
                assert forall|recorded: usize|
                    self.initialized_ids().contains(recorded) implies recorded
                    < self.slots().len() by {
                    assert(old(self).initialized_ids().contains(recorded));
                }
            }
        }
        id
    }

    /// Temporarily moves the behaviour stored under `id` out of the
    /// registry, leaving its slot vacant but in place, so that the caller
    /// can run the behaviour while reaching back into the registry without
    /// aliasing its own storage. Answers nothing when the handle is unknown
    /// or its slot is already vacant; the caller is expected to hand a
    /// vacated behaviour back with [`restore`](BehaviourTrees::restore) on
    /// every path, or the handle stays unresolvable.
    pub fn vacate(&mut self, id: BehaviourId) -> (node: Option<T>)
        ensures
            final(self).initialized_ids() == old(self).initialized_ids(),
            final(self).slots().len() == old(self).slots().len(),
            old(self).wf() ==> final(self).wf(),
            id.0 < old(self).slots().len() ==> node == old(self).slots()[id.0 as int]
                && final(self).slots() == old(self).slots().update(id.0 as int, None),
            id.0 >= old(self).slots().len() ==> node is None && final(self).slots() == old(
                self,
            ).slots(),
    {
        if id.0 < self.trees.len() {
            self.trees[id.0].take()
        } else {
            None
        }
    }

    /// Puts a behaviour back into the slot it was vacated from.
    pub fn restore(&mut self, id: BehaviourId, node: T)
        requires
            id.0 < old(self).slots().len(),
        ensures
            final(self).initialized_ids() == old(self).initialized_ids(),
            final(self).slots() == old(self).slots().update(id.0 as int, Some(node)),
            old(self).wf() ==> final(self).wf(),
    {
        self.trees.set(id.0, Some(node));
        proof {
            if old(self).wf() {
                assert forall|recorded: usize|
                    self.initialized_ids().contains(recorded) implies recorded
                    < self.slots().len() by {
                    assert(old(self).initialized_ids().contains(recorded));
                }
            }
        }
    }

    /// Runs one driver pass: the active `(subject, handle)` pairs, in
    /// ascending handle order with ties keeping their arrival order, each
    /// tick the tree stored under their handle once. A handle that has never
    /// been initialized is initialized first, exactly once however many
    /// subjects share it; a handle with no stored tree is silently skipped.
    /// Each tree's status answers are consumed here: surfacing them is host
    /// policy, and the host that wants them ticks trees itself.
    ///
    /// The returned ghost value lists the handles whose one-time
    /// initialization ran during this pass, in order; together with the
    /// lemmas about [`pass_inits`] it shows that initialization happens
    /// exactly once per handle, never once per subject, however many passes
    /// run.
    pub fn run_ticks<Ctx>(&mut self, active: Vec<(u64, BehaviourId)>, ctx: &mut Ctx) -> (inits:
        Ghost<Seq<usize>>) where T: Behaviour<Ctx>
        ensures
            final(self).slots().len() == old(self).slots().len(),
            forall|i: int|
                0 <= i < old(self).slots().len() ==> ((#[trigger] final(self).slots()[i]) is Some
                    <==> old(self).slots()[i] is Some),
            final(self).initialized_ids() == old(self).initialized_ids().union(
                ticked_ids(old(self).slots(), active@),
            ),
            inits@ == pass_inits(
                old(self).slots(),
                old(self).initialized_ids(),
                id_sorted(active@),
            ),
            old(self).wf() ==> final(self).wf(),
    {
        let ghost slots0 = self.trees@;
        let ghost init0 = self.initialized@;
        let ghost mut init_log: Seq<usize> = Seq::empty();
        let sorted = sort_pairs(active);
        let mut done: usize = 0;
        while done < sorted.len()
            invariant
                done <= sorted@.len(),
                self.trees@.len() == slots0.len(),
                forall|i: int|
                    0 <= i < slots0.len() ==> ((#[trigger] self.trees@[i]) is Some <==> slots0[i]
                        is Some),
                self.initialized@ == init0.union(ticked_ids(slots0, sorted@.take(done as int))),
                init_log == pass_inits(slots0, init0, sorted@.take(done as int)),
            decreases sorted@.len() - done,
        {
            let (subject, id) = sorted[done];
            let ghost seen = ticked_ids(slots0, sorted@.take(done as int));
            let ghost seen_next = ticked_ids(slots0, sorted@.take(done as int + 1));
            let ghost recorded = self.initialized@;
            proof {
                assert(sorted@.take(done as int + 1) =~= sorted@.take(done as int).push(
                    (subject, id),
                ));
                assert(sorted@.take(done as int + 1) =~= sorted@.take(done as int) + seq![
                    (subject, id),
                ]);
                lemma_ticked_ids_push(slots0, sorted@.take(done as int), (subject, id));
                lemma_pass_inits_append(slots0, init0, sorted@.take(done as int), seq![
                    (subject, id),
                ]);
                lemma_pass_recorded_is_ticked(slots0, init0, sorted@.take(done as int));
                assert(pass_recorded(slots0, init0, sorted@.take(done as int)) =~= recorded);
                reveal_with_fuel(pass_inits, 2);
            }
            let taken = self.vacate(id);
            match taken {
                Some(mut node) => {
                    proof {
                        assert(live_slot(slots0, id.0));
                        assert(seen_next == seen.insert(id.0));
                    }
                    if !self.initialized.contains(&id.0) {
                        proof {
                            assert(!recorded.contains(id.0));
                            assert(pass_inits(slots0, recorded, seq![(subject, id)]) =~= seq![
                                id.0,
                            ]);
                            init_log = init_log + seq![id.0];
                            assert(init_log =~= pass_inits(
                                slots0,
                                init0,
                                sorted@.take(done as int + 1),
                            ));
                        }
                        node.initialize(ctx);
                        self.initialized.insert(id.0);
                        proof {
                            assert(self.initialized@ =~= init0.union(seen_next));
                        }
                    } else {
                        proof {
                            assert(recorded.contains(id.0));
                            assert(pass_inits(slots0, recorded, seq![(subject, id)])
                                =~= Seq::<usize>::empty());
                            assert(init_log + Seq::<usize>::empty() =~= init_log);
                            assert(init_log =~= pass_inits(
                                slots0,
                                init0,
                                sorted@.take(done as int + 1),
                            ));
                            assert(init0.union(seen).contains(id.0));
                            assert(self.initialized@ =~= init0.union(seen_next));
                        }
                    }
                    let _ = node.run(subject, ctx);
                    self.restore(id, node);
                },
                None => {
                    proof {
                        assert(!live_slot(slots0, id.0));
                        assert(pass_inits(slots0, recorded, seq![(subject, id)])
                            =~= Seq::<usize>::empty());
                        assert(init_log + Seq::<usize>::empty() =~= init_log);
                        assert(init_log =~= pass_inits(
                            slots0,
                            init0,
                            sorted@.take(done as int + 1),
                        ));
                        assert(self.initialized@ =~= init0.union(seen_next));
                    }
                },
            }
            done = done + 1;
        }
        proof {
            assert(sorted@.take(sorted@.len() as int) =~= sorted@);
            assert forall|id: usize|
                pairs_contain_id(sorted@, id) <==> pairs_contain_id(active@, id) by {
                lemma_id_sorted_same_ids(active@, id);
            }
            assert(ticked_ids(slots0, sorted@) =~= ticked_ids(slots0, active@));
            if old(self).wf() {
                assert forall|id: usize|
                    self.initialized_ids().contains(id) implies id < self.slots().len() by {
                    if init0.contains(id) {
                        assert(old(self).initialized_ids().contains(id));
                    } else {
                        assert(ticked_ids(slots0, active@).contains(id));
                        assert(live_slot(slots0, id));
                    }
                }
            }
        }
        Ghost(init_log)
    }
}

impl<T> Default for BehaviourTrees<T> {
    /// An empty registry: no trees stored, nothing initialized.
    fn default() -> (trees: BehaviourTrees<T>)
        ensures
            trees.slots() == Seq::<Option<T>>::empty(),
            trees.initialized_ids() == Set::<usize>::empty(),
            trees.wf(),
    {
        BehaviourTrees { trees: Vec::new(), initialized: HashSet::new() }
    }
}

} // verus!
