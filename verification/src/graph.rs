use crate::bfs::{
    advance, discover, first_sweep, lemma_reached_are_members, lemma_sweep_advances,
    lemma_sweep_discovers, lemma_sweep_ends, lemma_sweep_starts, sweeping,
};
use crate::ladder::{
    answers, connected, lemma_connected_are_members, marked, searched, shortest, trail,
};
use crate::word::{adjacent, Word};
use std::collections::HashMap;
use std::collections::VecDeque;
use vstd::prelude::*;

verus! {

broadcast use vstd::seq_lib::lemma_seq_contains_after_push;

/// What the store answers about a word.
#[derive(Debug, PartialEq, Eq, Structural)]
pub enum WordStatus {
    /// Not a dictionary word.
    Unknown,
    /// A dictionary word that the current search has not reached.
    Unmarked,
    /// The dictionary word at which the current search is rooted.
    Target,
    /// A dictionary word that the current search has reached, with the
    /// neighbour one step closer to the root.
    NextTo(Word),
}

/// What the store holds for a dictionary word. A word that is no member has
/// no entry, so `Unknown` is never stored.
#[derive(Debug)]
enum Mark {
    Unmarked,
    Target,
    NextTo(Word),
}

impl Mark {
    spec fn status(self) -> WordStatus {
        match self {
            Mark::Unmarked => WordStatus::Unmarked,
            Mark::Target => WordStatus::Target,
            Mark::NextTo(w) => WordStatus::NextTo(w),
        }
    }
}

/// The status of `w` in `store`: what is recorded for a member, `Unknown`
/// for any other word.
pub open spec fn status_of(store: Map<Word, WordStatus>, w: Word) -> WordStatus {
    if store.contains_key(w) {
        store[w]
    } else {
        WordStatus::Unknown
    }
}

/// The store with every member unmarked.
pub open spec fn unmarked(store: Map<Word, WordStatus>) -> Map<Word, WordStatus> {
    Map::new(|w: Word| store.contains_key(w), |w: Word| WordStatus::Unmarked)
}

/// The store whose members are the given words, all unmarked.
pub open spec fn dictionary(words: Seq<Word>) -> Map<Word, WordStatus> {
    Map::new(|w: Word| words.contains(w), |w: Word| WordStatus::Unmarked)
}

/// The dictionary together with the marks of the current search.
#[derive(Debug)]
pub struct WordGraph {
    container: HashMap<u64, Mark>,
}

impl View for WordGraph {
    type V = Map<Word, WordStatus>;

    closed spec fn view(&self) -> Map<Word, WordStatus> {
        Map::new(
            |w: Word| self.container@.contains_key(w.inner),
            |w: Word| self.container@[w.inner].status(),
        )
    }
}

impl Default for WordGraph {
    fn default() -> (graph: WordGraph)
        ensures
            graph@ == Map::<Word, WordStatus>::empty(),
    {
        let graph = WordGraph { container: HashMap::new() };
        assert(graph@ =~= Map::<Word, WordStatus>::empty());
        graph
    }
}

impl WordGraph {
    /// The store of the given words, each a member once however often it
    /// is given.
    pub fn from_iter(words: Vec<Word>) -> (graph: WordGraph)
        ensures
            graph@ == dictionary(words@),
    {
        let mut graph = WordGraph::default();
        let mut i: usize = 0;
        while i < words.len()
            invariant
                i <= words.len(),
                graph@ == dictionary(words@.subrange(0, i as int)),
            decreases words.len() - i,
        {
            graph.add_word(words[i]);
            proof {
                assert(words@.subrange(0, i + 1) =~= words@.subrange(0, i as int).push(
                    words@[i as int],
                ));
                assert(graph@ =~= dictionary(words@.subrange(0, i + 1)));
            }
            i = i + 1;
        }
        assert(words@.subrange(0, i as int) =~= words@);
        graph
    }

    /// Makes `word` a member, unmarked, whatever was recorded for it before.
    pub fn add_word(&mut self, word: Word)
        ensures
            final(self)@ == old(self)@.insert(word, WordStatus::Unmarked),
    {
        self.container.insert(word.inner, Mark::Unmarked);
        assert(self@ =~= old(self)@.insert(word, WordStatus::Unmarked));
    }

    /// The status of `word`.
    pub fn get_word(&self, word: Word) -> (status: WordStatus)
        ensures
            status == status_of(self@, word),
    {
        match self.container.get(&word.inner) {
            Some(Mark::Unmarked) => WordStatus::Unmarked,
            Some(Mark::NextTo(w)) => WordStatus::NextTo(*w),
            Some(Mark::Target) => WordStatus::Target,
            None => WordStatus::Unknown,
        }
    }

    /// Makes the unmarked member `word` the root of a search.
    pub fn target(&mut self, word: Word)
        requires
            status_of(old(self)@, word) == WordStatus::Unmarked,
        ensures
            final(self)@ == old(self)@.insert(word, WordStatus::Target),
    {
        self.container.insert(word.inner, Mark::Target);
        assert(self@ =~= old(self)@.insert(word, WordStatus::Target));
    }

    /// Records that the unmarked member `word` was reached from `other`.
    pub fn link(&mut self, word: Word, other: Word)
        requires
            status_of(old(self)@, word) == WordStatus::Unmarked,
        ensures
            final(self)@ == old(self)@.insert(word, WordStatus::NextTo(other)),
    {
        self.container.insert(word.inner, Mark::NextTo(other));
        assert(self@ =~= old(self)@.insert(word, WordStatus::NextTo(other)));
    }

    /// Forgets the marks of the last search: every member is unmarked again.
    pub fn unmark_all(&mut self)
        ensures
            final(self)@ == unmarked(old(self)@),
    {
        let keys = self.keys();
        let mut i: usize = 0;
        while i < keys.len()
            invariant
                i <= keys.len(),
                keys@.to_set() == old(self).container@.dom(),
                self.container@.dom() == old(self).container@.dom(),
                forall|j: int| 0 <= j < i ==> self.container@[#[trigger] keys@[j]] is Unmarked,
            decreases keys.len() - i,
        {
            assert(keys@.to_set().contains(keys@[i as int]));
            self.container.insert(keys[i], Mark::Unmarked);
            i = i + 1;
        }
        assert(self@ =~= unmarked(old(self)@)) by {
            assert forall|w: Word| self@.contains_key(w) implies self@[w]
                == WordStatus::Unmarked by {
                assert(keys@.to_set().contains(w.inner));
                let j = choose|j: int| 0 <= j < keys@.len() && keys@[j] == w.inner;
                assert(self.container@[keys@[j]] is Unmarked);
            }
        }
    }

    /// The members adjacent to `word`, each once, in no particular order.
    pub fn adjacents(&self, word: Word) -> (found: Vec<Word>)
        ensures
            found@.no_duplicates(),
            forall|w: Word|
                #![trigger found@.contains(w)]
                found@.contains(w) <==> self@.contains_key(w) && adjacent(w, word),
    {
        let mut found: Vec<Word> = Vec::new();
        let ghost mut seen: Seq<u64> = Seq::empty();
        for k in it: self.container.keys()
            invariant
                it.seq().no_duplicates(),
                it.seq().unref().to_set() == self.container@.dom(),
                seen == it.seq().unref().subrange(0, it.index() as int),
                it.index() == it.seq().len() ==> seen.to_set() == self.container@.dom(),
                found@.no_duplicates(),
                forall|w: Word|
                    #![trigger found@.contains(w)]
                    found@.contains(w) <==> seen.contains(w.inner) && adjacent(w, word),
        {
            let w = Word { inner: *k };
            proof {
                assert(!seen.contains(w.inner));
                assert(!found@.contains(w));
                seen = seen.push(w.inner);
            }
            assert(it.index() + 1 == it.seq().len() ==> seen =~= it.seq().unref());
            if w.is_adjacent(word) {
                found.push(w);
            }
        }
        proof {
            assert(seen.to_set() == self.container@.dom());
            assert forall|w: Word| self@.contains_key(w) <==> seen.contains(w.inner) by {
                assert(seen.to_set().contains(w.inner) <==> seen.contains(w.inner));
            }
        }
        found
    }

    /// The unmarked members adjacent to `word`, each once, in no particular
    /// order.
    pub fn unvisited_adjacents(&self, word: Word) -> (found: Vec<Word>)
        ensures
            found@.no_duplicates(),
            forall|w: Word|
                #![trigger found@.contains(w)]
                found@.contains(w) <==> status_of(self@, w) == WordStatus::Unmarked && adjacent(
                    w,
                    word,
                ),
    {
        let near = self.adjacents(word);
        let mut found: Vec<Word> = Vec::new();
        let mut i: usize = 0;
        while i < near.len()
            invariant
                i <= near.len(),
                near@.no_duplicates(),
                found@.no_duplicates(),
                forall|w: Word|
                    #![trigger found@.contains(w)]
                    found@.contains(w) <==> near@.subrange(0, i as int).contains(w) && status_of(
                        self@,
                        w,
                    ) == WordStatus::Unmarked,
            decreases near.len() - i,
        {
            let w = near[i];
            proof {
                assert(near@.subrange(0, i + 1) =~= near@.subrange(0, i as int).push(w));
                assert(!near@.subrange(0, i as int).contains(w));
                assert(!found@.contains(w));
            }
            if self.get_word(w) == WordStatus::Unmarked {
                found.push(w);
            }
            i = i + 1;
        }
        assert(near@.subrange(0, i as int) =~= near@);
        found
    }

    /// The words from `word` along the links to the root of the last search.
    /// Empty when `word` is unmarked or no member. At most as many words as
    /// the store has members are followed, so the walk ends whatever the
    /// links are.
    pub fn path(&self, word: Word) -> (rungs: Vec<Word>)
        ensures
            rungs@ == trail(self@, word, self@.dom().len()),
    {
        proof {
            self.lemma_as_many_members_as_entries();
        }
        let mut rungs: Vec<Word> = Vec::new();
        let mut current = word;
        let mut left: usize = self.container.len();
        while left > 0
            invariant
                trail(self@, word, self@.dom().len()) == rungs@ + trail(self@, current, left as nat),
            decreases left,
        {
            match self.get_word(current) {
                WordStatus::Target => {
                    rungs.push(current);
                    return rungs;
                },
                WordStatus::NextTo(next) => {
                    proof {
                        assert(rungs@.push(current) + trail(self@, next, (left - 1) as nat)
                            =~= rungs@ + (seq![current] + trail(self@, next, (left - 1) as nat)));
                    }
                    rungs.push(current);
                    current = next;
                    left = left - 1;
                },
                _ => {
                    return rungs;
                },
            }
        }
        rungs
    }

    /// Searches breadth first from `target` through the unmarked neighbours
    /// of each word reached, linking each word to the one that it was
    /// reached from, until `origin` comes up for expansion or nothing is
    /// left. The marks of an earlier search are forgotten first.
    pub fn search(&mut self, target: Word, origin: Word)
        requires
            old(self)@.contains_key(target),
        ensures
            final(self)@.dom() == old(self)@.dom(),
            searched(final(self)@, target, origin),
    {
        let mut to_visit: VecDeque<Word> = VecDeque::new();
        self.unmark_all();
        self.target(target);
        to_visit.push_back(target);
        let ghost mut sweep = first_sweep(target);
        proof {
            self.lemma_members_are_known();
            assert(self@.dom() =~= old(self)@.dom());
            lemma_sweep_starts(self@, target);
            assert(to_visit@ =~= sweep.order.subrange(0, 1));
        }
        loop
            invariant_except_break
                self@.dom() == old(self)@.dom(),
                sweeping(self@, target, sweep),
                to_visit@ == sweep.order.subrange(sweep.done as int, sweep.order.len() as int),
            ensures
                self@.dom() == old(self)@.dom(),
                searched(self@, target, origin),
            decreases self@.dom().len() - sweep.done,
        {
            proof {
                lemma_reached_are_members(self@, target, sweep);
            }
            let word = match to_visit.pop_front() {
                Some(word) => word,
                None => {
                    proof {
                        lemma_sweep_ends(self@, target, sweep, origin);
                    }
                    break ;
                },
            };
            assert(word == sweep.order[sweep.done as int]);
            if word == origin {
                proof {
                    lemma_sweep_ends(self@, target, sweep, origin);
                }
                break ;
            }
            let near = self.unvisited_adjacents(word);
            let ghost expanding = sweep.done;
            let mut i: usize = 0;
            proof {
                assert forall|k: int| 0 <= k < near@.len() implies self@.contains_key(
                    #[trigger] near@[k],
                ) && adjacent(near@[k], word) by {
                    assert(near@.contains(near@[k]));
                }
                assert(near@.subrange(0, near@.len() as int) =~= near@);
                self.lemma_members_are_known();
            }
            while i < near.len()
                invariant
                    i <= near.len(),
                    self@.dom() == old(self)@.dom(),
                    sweeping(self@, target, sweep),
                    sweep.done == expanding,
                    sweep.done < sweep.order.len(),
                    word == sweep.order[sweep.done as int],
                    to_visit@ == sweep.order.subrange(
                        sweep.done as int + 1,
                        sweep.order.len() as int,
                    ),
                    forall|k: int|
                        0 <= k < near@.len() ==> self@.contains_key(#[trigger] near@[k])
                            && adjacent(near@[k], word),
                    forall|u: Word|
                        self@.contains_key(u) && #[trigger] adjacent(u, word) ==> marked(self@, u)
                            || near@.subrange(i as int, near@.len() as int).contains(u),
                decreases near.len() - i,
            {
                let next = near[i];
                let ghost before = self@;
                let ghost rest = near@.subrange(i as int, near@.len() as int);
                if self.get_word(next) == WordStatus::Unmarked {
                    to_visit.push_back(next);
                    self.link(next, word);
                    proof {
                        lemma_sweep_discovers(before, target, sweep, next);
                        sweep = discover(sweep, next);
                        assert(self@.dom() =~= before.dom());
                        assert(to_visit@ =~= sweep.order.subrange(
                            sweep.done as int + 1,
                            sweep.order.len() as int,
                        ));
                    }
                } else {
                    proof {
                        self.lemma_members_are_known();
                    }
                }
                i = i + 1;
                proof {
                    assert(marked(self@, next));
                    assert forall|u: Word|
                        self@.contains_key(u) && #[trigger] adjacent(u, word) implies marked(
                        self@,
                        u,
                    ) || near@.subrange(i as int, near@.len() as int).contains(u) by {
                        if !marked(self@, u) {
                            assert(!marked(before, u));
                            assert(rest.contains(u));
                            let k = choose|k: int| 0 <= k < rest.len() && rest[k] == u;
                            assert(k != 0);
                            assert(near@.subrange(i as int, near@.len() as int)[k - 1] == u);
                        }
                    }
                }
            }
            proof {
                assert forall|u: Word|
                    self@.contains_key(u) && #[trigger] adjacent(u, word) implies marked(
                    self@,
                    u,
                ) by {
                    assert(near@.subrange(i as int, near@.len() as int).len() == 0);
                }
                lemma_sweep_advances(self@, target, sweep);
                sweep = advance(sweep);
                lemma_reached_are_members(self@, target, sweep);
                assert(to_visit@ =~= sweep.order.subrange(
                    sweep.done as int,
                    sweep.order.len() as int,
                ));
            }
        }
    }

    /// A shortest ladder from `origin` to `target`, or nothing when no
    /// ladder joins them. A member joins itself by the ladder of one rung.
    /// When one of the two is no member, nothing is searched and the store
    /// stays as it was; otherwise the store holds the marks of the search
    /// from `target`.
    pub fn ladder(&mut self, origin: Word, target: Word) -> (rungs: Vec<Word>)
        ensures
            final(self)@.dom() == old(self)@.dom(),
            answers(old(self)@, origin, target, rungs@),
            !old(self)@.contains_key(origin) || !old(self)@.contains_key(target) ==> final(self)@
                == old(self)@,
            old(self)@.contains_key(origin) && old(self)@.contains_key(target) ==> searched(
                final(self)@,
                target,
                origin,
            ) && rungs@ == trail(final(self)@, origin, final(self)@.dom().len()),
    {
        proof {
            self.lemma_members_are_known();
            if connected(self@.dom(), origin, target) {
                lemma_connected_are_members(self@.dom(), origin, target);
            }
        }
        if self.get_word(origin) == WordStatus::Unknown || self.get_word(target)
            == WordStatus::Unknown {
            return Vec::new();
        }
        self.unmark_all();
        self.target(target);
        self.search(target, origin);
        let rungs = self.path(origin);
        proof {
            let dict = self@.dom();
            assert(dict =~= old(self)@.dom());
            if marked(self@, origin) {
                assert(shortest(dict, rungs@, origin, target));
                assert(connected(dict, origin, target));
            }
        }
        rungs
    }

    /// The keys of the container, each once, in the order in which the
    /// container hands them out.
    fn keys(&self) -> (keys: Vec<u64>)
        ensures
            keys@.no_duplicates(),
            keys@.to_set() == self.container@.dom(),
    {
        let mut keys: Vec<u64> = Vec::new();
        for k in it: self.container.keys()
            invariant
                keys@ == it.seq().unref().subrange(0, it.index() as int),
                it.index() == it.seq().len() ==> keys@ == it.seq().unref(),
                it.seq().no_duplicates(),
                it.seq().unref().to_set() == self.container@.dom(),
        {
            keys.push(*k);
        }
        keys
    }

    /// Every member has a status other than `Unknown`, and there are
    /// finitely many members.
    pub proof fn lemma_members_are_known(&self)
        ensures
            self@.dom().finite(),
            forall|w: Word| self@.contains_key(w) ==> self@[w] != WordStatus::Unknown,
    {
        self.lemma_as_many_members_as_entries();
    }

    /// Adding a word that is a member already changes nothing but its mark:
    /// added twice, a word is a member once, unmarked.
    pub proof fn lemma_add_word_is_idempotent(store: Map<Word, WordStatus>, word: Word)
        ensures
            store.insert(word, WordStatus::Unmarked).insert(word, WordStatus::Unmarked)
                == store.insert(word, WordStatus::Unmarked),
            status_of(store.insert(word, WordStatus::Unmarked), word) == WordStatus::Unmarked,
            store.insert(word, WordStatus::Unmarked).dom() == store.dom().insert(word),
    {
        assert(store.insert(word, WordStatus::Unmarked).insert(word, WordStatus::Unmarked)
            =~= store.insert(word, WordStatus::Unmarked));
        assert(store.insert(word, WordStatus::Unmarked).dom() =~= store.dom().insert(word));
    }

    /// The members correspond one to one to the entries of the container.
    proof fn lemma_as_many_members_as_entries(&self)
        ensures
            self@.dom().finite(),
            self@.dom().len() == self.container@.dom().len(),
    {
        let keys = self.container@.dom();
        let wrap = |k: u64| Word { inner: k };
        assert(keys.map(wrap) =~= self@.dom()) by {
            assert forall|w: Word| self@.dom().contains(w) implies keys.map(wrap).contains(w) by {
                assert(keys.contains(w.inner) && w == wrap(w.inner));
            }
        }
        assert(vstd::relations::injective_on(wrap, keys));
        vstd::set_lib::lemma_map_size(keys, self@.dom(), wrap);
    }
}

} // verus!
