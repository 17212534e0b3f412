use crate::graph::{status_of, WordStatus};
use crate::ladder::{connected, is_ladder, joins, marked, searched, shortest, trail};
use crate::word::{adjacent, Word};
use vstd::prelude::*;

verus! {

broadcast use vstd::seq_lib::lemma_seq_contains_after_push;

/// The bookkeeping of a breadth-first sweep, kept beside the store.
pub struct Sweep {
    /// The words reached so far, in the order in which they were reached.
    pub order: Seq<Word>,
    /// For each word reached, the number of links from it to the root.
    pub dist: Map<Word, nat>,
    /// How many words of `order`, from its start, have had all their
    /// neighbours reached.
    pub done: nat,
}

/// `w` has a link to a word reached before it, one step closer to the root.
pub closed spec fn linked(store: Map<Word, WordStatus>, sweep: Sweep, w: Word) -> bool {
    &&& status_of(store, w) matches WordStatus::NextTo(p)
    &&& sweep.order.contains(p)
    &&& adjacent(w, p)
    &&& sweep.dist[w] == sweep.dist[p] + 1
}

/// Every member adjacent to `w` has been reached, at most one step further
/// from the root than `w`.
pub closed spec fn closed_around(store: Map<Word, WordStatus>, sweep: Sweep, w: Word) -> bool {
    forall|u: Word|
        store.contains_key(u) && #[trigger] adjacent(u, w) ==> sweep.order.contains(u)
            && sweep.dist[u] <= sweep.dist[w] + 1
}

/// What holds of the store and the bookkeeping throughout a sweep rooted at
/// `root`.
pub closed spec fn sweeping(store: Map<Word, WordStatus>, root: Word, sweep: Sweep) -> bool {
    let order = sweep.order;
    let dist = sweep.dist;
    &&& store.dom().finite()
    &&& order.no_duplicates()
    &&& order.len() > 0
    &&& order[0] == root
    &&& sweep.done <= order.len()
    &&& status_of(store, root) is Target
    &&& dist[root] == 0
    &&& forall|w: Word| #[trigger] marked(store, w) <==> order.contains(w)
    &&& forall|i: int| 0 <= i < order.len() ==> dist[#[trigger] order[i]] <= i
    &&& forall|i: int| 1 <= i < order.len() ==> linked(store, sweep, #[trigger] order[i])
    &&& forall|i: int, j: int|
        0 <= i <= j < order.len() ==> dist[#[trigger] order[i]] <= dist[#[trigger] order[j]]
    &&& sweep.done < order.len() ==> dist[order.last()] <= dist[order[sweep.done as int]] + 1
    &&& forall|i: int| 0 <= i < sweep.done ==> closed_around(store, sweep, #[trigger] order[i])
}

/// The bookkeeping with which a sweep rooted at `root` starts.
pub open spec fn first_sweep(root: Word) -> Sweep {
    Sweep { order: seq![root], dist: map![root => 0nat], done: 0 }
}

/// The bookkeeping after `next` was reached from the word being expanded.
pub open spec fn discover(sweep: Sweep, next: Word) -> Sweep {
    Sweep {
        order: sweep.order.push(next),
        dist: sweep.dist.insert(next, sweep.dist[sweep.order[sweep.done as int]] + 1),
        done: sweep.done,
    }
}

/// The bookkeeping after the word being expanded has had all its neighbours
/// reached.
pub open spec fn advance(sweep: Sweep) -> Sweep {
    Sweep { order: sweep.order, dist: sweep.dist, done: sweep.done + 1 }
}

/// A store in which the root alone is marked is at the start of a sweep.
pub proof fn lemma_sweep_starts(store: Map<Word, WordStatus>, root: Word)
    requires
        store.dom().finite(),
        status_of(store, root) is Target,
        forall|w: Word| w != root ==> !marked(store, w),
    ensures
        sweeping(store, root, first_sweep(root)),
{
    let sweep = first_sweep(root);
    assert forall|w: Word| #[trigger] marked(store, w) <==> sweep.order.contains(w) by {
        if w == root {
            assert(sweep.order[0] == root);
        }
    }
}

/// Linking an unmarked neighbour of the word being expanded to that word
/// goes on with the sweep.
pub proof fn lemma_sweep_discovers(
    store: Map<Word, WordStatus>,
    root: Word,
    sweep: Sweep,
    next: Word,
)
    requires
        sweeping(store, root, sweep),
        sweep.done < sweep.order.len(),
        status_of(store, next) is Unmarked,
        adjacent(next, sweep.order[sweep.done as int]),
    ensures
        sweeping(
            store.insert(next, WordStatus::NextTo(sweep.order[sweep.done as int])),
            root,
            discover(sweep, next),
        ),
{
    let from = sweep.order[sweep.done as int];
    let after = store.insert(next, WordStatus::NextTo(from));
    let grown = discover(sweep, next);
    let order = sweep.order;
    assert(!marked(store, next));
    assert(!order.contains(next));
    assert(after.dom() =~= store.dom());
    assert forall|i: int| 0 <= i < order.len() implies #[trigger] grown.order[i] == order[i]
        && order[i] != next && grown.dist[order[i]] == sweep.dist[order[i]] by {
        assert(order.contains(order[i]));
    }
    assert(order.contains(from));
    assert(order.contains(root));
    assert forall|w: Word| #[trigger] marked(after, w) <==> grown.order.contains(w) by {
        if w != next {
            assert(marked(after, w) == marked(store, w));
        }
    }
    assert forall|i: int| 1 <= i < grown.order.len() implies linked(
        after,
        grown,
        #[trigger] grown.order[i],
    ) by {
        if i < order.len() {
            let w = order[i];
            assert(linked(store, sweep, w));
            let p = status_of(store, w)->NextTo_0;
            assert(order.contains(p));
            assert(p != next);
        }
    }
    assert forall|i: int, j: int| 0 <= i <= j < grown.order.len() implies grown.dist[#[trigger] grown.order[i]]
        <= grown.dist[#[trigger] grown.order[j]] by {
        if j == order.len() {
            if i < order.len() {
                assert(sweep.dist[order[i]] <= sweep.dist[order.last()]);
            }
        }
    }
    assert forall|i: int| 0 <= i < grown.done implies closed_around(
        after,
        grown,
        #[trigger] grown.order[i],
    ) by {
        assert(closed_around(store, sweep, order[i]));
        assert forall|u: Word| after.contains_key(u) && #[trigger] adjacent(u, order[i]) implies grown.order.contains(u)
            && grown.dist[u] <= grown.dist[order[i]] + 1 by {
            assert(order.contains(u));
            assert(u != next);
        }
    }
}

/// Once every member adjacent to the word being expanded is marked, the
/// sweep goes on to the word reached next.
pub proof fn lemma_sweep_advances(store: Map<Word, WordStatus>, root: Word, sweep: Sweep)
    requires
        sweeping(store, root, sweep),
        sweep.done < sweep.order.len(),
        forall|u: Word|
            store.contains_key(u) && #[trigger] adjacent(u, sweep.order[sweep.done as int])
                ==> marked(store, u),
    ensures
        sweeping(store, root, advance(sweep)),
{
    let order = sweep.order;
    let from = order[sweep.done as int];
    let next = advance(sweep);
    assert(closed_around(store, next, from)) by {
        assert forall|u: Word| store.contains_key(u) && #[trigger] adjacent(u, from) implies order.contains(u)
            && sweep.dist[u] <= sweep.dist[from] + 1 by {
            assert(marked(store, u));
            let j = choose|j: int| 0 <= j < order.len() && order[j] == u;
            assert(sweep.dist[order[j]] <= sweep.dist[order[order.len() - 1]]);
        }
    }
    assert forall|i: int| 0 <= i < next.done implies closed_around(store, next, #[trigger] order[i]) by {
        if i < sweep.done {
            assert(closed_around(store, sweep, order[i]));
        }
    }
    assert forall|i: int| 1 <= i < order.len() implies linked(store, next, #[trigger] order[i]) by {
        assert(linked(store, sweep, order[i]));
    }
    if next.done < order.len() {
        assert(sweep.dist[order[sweep.done as int]] <= sweep.dist[order[next.done as int]]);
    }
}

/// The words reached are members, so there are no more of them than
/// members.
pub proof fn lemma_reached_are_members(store: Map<Word, WordStatus>, root: Word, sweep: Sweep)
    requires
        sweeping(store, root, sweep),
    ensures
        sweep.done <= sweep.order.len() <= store.dom().len(),
{
    let order = sweep.order;
    order.unique_seq_to_set();
    assert(order.to_set().subset_of(store.dom())) by {
        assert forall|w: Word| order.to_set().contains(w) implies store.dom().contains(w) by {
            assert(order.contains(w));
            assert(marked(store, w));
        }
    }
    vstd::set_lib::lemma_len_subset(order.to_set(), store.dom());
}

/// The links from a word that was reached lead to the root in as many
/// steps as the bookkeeping says.
pub proof fn lemma_trail_leads_to_root(
    store: Map<Word, WordStatus>,
    root: Word,
    sweep: Sweep,
    w: Word,
    fuel: nat,
)
    requires
        sweeping(store, root, sweep),
        sweep.order.contains(w),
        fuel > sweep.dist[w],
    ensures
        joins(store.dom(), trail(store, w, fuel), w, root),
        trail(store, w, fuel).len() == sweep.dist[w] + 1,
    decreases sweep.dist[w],
{
    let order = sweep.order;
    assert(marked(store, w));
    if w == root {
        assert(trail(store, w, fuel) =~= seq![w]);
    } else {
        let i = choose|i: int| 0 <= i < order.len() && order[i] == w;
        assert(linked(store, sweep, order[i]));
        let p = status_of(store, w)->NextTo_0;
        let rest = trail(store, p, (fuel - 1) as nat);
        lemma_trail_leads_to_root(store, root, sweep, p, (fuel - 1) as nat);
        let rungs = trail(store, w, fuel);
        assert(rungs =~= seq![w] + rest);
        assert forall|k: int| 0 <= k < rungs.len() implies store.dom().contains(
            #[trigger] rungs[k],
        ) by {
            if k > 0 {
                assert(rungs[k] == rest[k - 1]);
            }
        }
        assert forall|k: int| 0 <= k < rungs.len() - 1 implies adjacent(
            #[trigger] rungs[k],
            rungs[k + 1],
        ) by {
            if k > 0 {
                assert(rungs[k] == rest[k - 1]);
                assert(rungs[k + 1] == rest[k]);
            } else {
                assert(rungs[1] == rest[0]);
            }
        }
        assert(rungs.last() == rest.last());
    }
}

/// A ladder that ends at the root cannot outrun the sweep: the word `steps`
/// rungs before its end has been reached, within `steps` links of the root,
/// as long as `steps` does not pass the level of the word being expanded.
pub proof fn lemma_ladder_stays_behind(
    store: Map<Word, WordStatus>,
    root: Word,
    sweep: Sweep,
    rungs: Seq<Word>,
    steps: nat,
)
    requires
        sweeping(store, root, sweep),
        is_ladder(store.dom(), rungs),
        rungs.last() == root,
        steps < rungs.len(),
        sweep.done < sweep.order.len() ==> steps <= sweep.dist[sweep.order[sweep.done as int]],
    ensures
        sweep.order.contains(rungs[rungs.len() - 1 - steps]),
        sweep.dist[rungs[rungs.len() - 1 - steps]] <= steps,
    decreases steps,
{
    let order = sweep.order;
    if steps == 0 {
        assert(order[0] == root);
    } else {
        lemma_ladder_stays_behind(store, root, sweep, rungs, (steps - 1) as nat);
        let at = rungs.len() - 1 - steps;
        let near = rungs[at + 1];
        let far = rungs[at];
        let j = choose|j: int| 0 <= j < order.len() && order[j] == near;
        if j >= sweep.done {
            assert(sweep.dist[order[sweep.done as int]] <= sweep.dist[order[j]]);
        }
        assert(closed_around(store, sweep, order[j]));
        assert(store.dom().contains(far));
        assert(adjacent(far, near));
    }
}

/// No ladder from a word that was reached to the root has fewer rungs than
/// the bookkeeping says.
pub proof fn lemma_no_shorter_ladder(
    store: Map<Word, WordStatus>,
    root: Word,
    sweep: Sweep,
    w: Word,
    rungs: Seq<Word>,
)
    requires
        sweeping(store, root, sweep),
        sweep.order.contains(w),
        joins(store.dom(), rungs, w, root),
    ensures
        sweep.dist[w] + 1 <= rungs.len(),
{
    let order = sweep.order;
    let steps = (rungs.len() - 1) as nat;
    if sweep.done < order.len() && steps > sweep.dist[order[sweep.done as int]] {
        let j = choose|j: int| 0 <= j < order.len() && order[j] == w;
        assert(sweep.dist[order[j]] <= sweep.dist[order[order.len() - 1]]);
    } else {
        lemma_ladder_stays_behind(store, root, sweep, rungs, steps);
    }
}

/// A sweep that has expanded every word it reached, or is about to expand
/// `origin`, has done what a search for `origin` is to do.
pub proof fn lemma_sweep_ends(
    store: Map<Word, WordStatus>,
    root: Word,
    sweep: Sweep,
    origin: Word,
)
    requires
        sweeping(store, root, sweep),
        sweep.done == sweep.order.len() || sweep.order[sweep.done as int] == origin,
    ensures
        searched(store, root, origin),
{
    let order = sweep.order;
    let dict = store.dom();
    lemma_reached_are_members(store, root, sweep);
    assert forall|w: Word| #[trigger] status_of(store, w) is Target <==> w == root by {
        if status_of(store, w) is Target && w != root {
            assert(marked(store, w));
            let i = choose|i: int| 0 <= i < order.len() && order[i] == w;
            assert(linked(store, sweep, order[i]));
        }
    }
    assert forall|w: Word| #[trigger] marked(store, w) implies shortest(
        dict,
        trail(store, w, dict.len()),
        w,
        root,
    ) by {
        let i = choose|i: int| 0 <= i < order.len() && order[i] == w;
        assert(sweep.dist[order[i]] <= i);
        lemma_trail_leads_to_root(store, root, sweep, w, dict.len());
        assert forall|other: Seq<Word>| #[trigger] joins(dict, other, w, root) implies trail(
            store,
            w,
            dict.len(),
        ).len() <= other.len() by {
            lemma_no_shorter_ladder(store, root, sweep, w, other);
        }
    }
    assert forall|w: Word, rungs: Seq<Word>|
        marked(store, origin) && #[trigger] joins(dict, rungs, w, root) && rungs.len() <= trail(
            store,
            origin,
            dict.len(),
        ).len() implies marked(store, w) by {
        let i = choose|i: int| 0 <= i < order.len() && order[i] == origin;
        assert(sweep.dist[order[i]] <= i);
        lemma_trail_leads_to_root(store, root, sweep, origin, dict.len());
        lemma_ladder_stays_behind(store, root, sweep, rungs, (rungs.len() - 1) as nat);
    }
    if sweep.done == order.len() {
        assert forall|w: Word| #[trigger] connected(dict, w, root) implies marked(store, w) by {
            let rungs = choose|rungs: Seq<Word>| joins(dict, rungs, w, root);
            lemma_ladder_stays_behind(store, root, sweep, rungs, (rungs.len() - 1) as nat);
        }
    } else {
        assert(order.contains(origin));
    }
}

} // verus!
