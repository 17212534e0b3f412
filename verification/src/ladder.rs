use crate::graph::{status_of, WordStatus};
use crate::word::{adjacent, Word};
use vstd::prelude::*;

verus! {

/// A ladder over `dict`: one or more dictionary words, each adjacent to the
/// one after it.
pub open spec fn is_ladder(dict: Set<Word>, rungs: Seq<Word>) -> bool {
    &&& rungs.len() > 0
    &&& forall|i: int| 0 <= i < rungs.len() ==> dict.contains(#[trigger] rungs[i])
    &&& forall|i: int| 0 <= i < rungs.len() - 1 ==> adjacent(#[trigger] rungs[i], rungs[i + 1])
}

/// `rungs` is a ladder over `dict` that starts at `from` and ends at `to`.
pub open spec fn joins(dict: Set<Word>, rungs: Seq<Word>, from: Word, to: Word) -> bool {
    &&& is_ladder(dict, rungs)
    &&& rungs.first() == from
    &&& rungs.last() == to
}

/// Some ladder over `dict` leads from `from` to `to`.
pub open spec fn connected(dict: Set<Word>, from: Word, to: Word) -> bool {
    exists|rungs: Seq<Word>| joins(dict, rungs, from, to)
}

/// `rungs` is a ladder from `from` to `to`, and no ladder between them has
/// fewer words.
pub open spec fn shortest(dict: Set<Word>, rungs: Seq<Word>, from: Word, to: Word) -> bool {
    &&& joins(dict, rungs, from, to)
    &&& forall|other: Seq<Word>| #[trigger] joins(dict, other, from, to) ==> rungs.len() <= other.len()
}

/// The words met by following the links of `store` from `w`, taking at most
/// `fuel` words: the walk ends after the root, and before a word that is
/// unmarked or no member.
pub open spec fn trail(store: Map<Word, WordStatus>, w: Word, fuel: nat) -> Seq<Word>
    decreases fuel,
{
    if fuel == 0 {
        Seq::empty()
    } else {
        match status_of(store, w) {
            WordStatus::Target => seq![w],
            WordStatus::NextTo(next) => seq![w] + trail(store, next, (fuel - 1) as nat),
            _ => Seq::empty(),
        }
    }
}

/// `rungs` is what a query for a ladder from `origin` to `target` is to
/// return on `store`: a shortest ladder over its members if any ladder joins
/// the two, and nothing otherwise, which is also the case when one of the
/// two is no member. The marks in `store` play no part.
pub open spec fn answers(
    store: Map<Word, WordStatus>,
    origin: Word,
    target: Word,
    rungs: Seq<Word>,
) -> bool {
    if connected(store.dom(), origin, target) {
        shortest(store.dom(), rungs, origin, target)
    } else {
        rungs.len() == 0
    }
}

/// The search has reached `w`: it is the root or has a link.
pub open spec fn marked(store: Map<Word, WordStatus>, w: Word) -> bool {
    status_of(store, w) is Target || status_of(store, w) is NextTo
}

/// What holds of `store` when a search rooted at `target` that looked for
/// `origin` has ended.
///
/// `target` is the only root. The links of every word that was reached lead
/// to the root along a shortest ladder. `origin` was reached if any ladder
/// joins it to `target`, and then so was every word that is no further from
/// `target` than `origin` is. If `origin` was not reached, the search went
/// on until nothing was left, so the words reached are exactly those that
/// some ladder joins to `target`.
pub open spec fn searched(store: Map<Word, WordStatus>, target: Word, origin: Word) -> bool {
    let dict = store.dom();
    &&& forall|w: Word| #[trigger] status_of(store, w) is Target <==> w == target
    &&& forall|w: Word| #[trigger]
        marked(store, w) ==> shortest(dict, trail(store, w, dict.len()), w, target)
    &&& connected(dict, origin, target) ==> marked(store, origin)
    &&& marked(store, origin) ==> forall|w: Word, rungs: Seq<Word>| #[trigger]
        joins(dict, rungs, w, target) && rungs.len() <= trail(store, origin, dict.len()).len()
            ==> marked(store, w)
    &&& !marked(store, origin) ==> forall|w: Word| #[trigger]
        connected(dict, w, target) ==> marked(store, w)
}

/// A ladder joins only members.
pub proof fn lemma_connected_are_members(dict: Set<Word>, from: Word, to: Word)
    requires
        connected(dict, from, to),
    ensures
        dict.contains(from),
        dict.contains(to),
{
    let rungs = choose|rungs: Seq<Word>| joins(dict, rungs, from, to);
    assert(dict.contains(rungs[0]));
    assert(dict.contains(rungs[rungs.len() - 1]));
}

/// What a query is to return depends on the members alone: two stores with
/// the same members, whatever marks an earlier search left in them, call for
/// the same answers.
pub proof fn lemma_answers_ignore_marks(
    before: Map<Word, WordStatus>,
    after: Map<Word, WordStatus>,
    origin: Word,
    target: Word,
    rungs: Seq<Word>,
)
    requires
        before.dom() == after.dom(),
    ensures
        answers(before, origin, target, rungs) == answers(after, origin, target, rungs),
{
}

} // verus!
