use crate::graph::{WordGraph, WordStatus};
use crate::ladder::answers;
use crate::word::{pack, spelled, Word};
use vstd::prelude::*;
use vstd::slice::slice_subrange;
use vstd::string::StringSliceAdditionalSpecFns;

verus! {

/// A line without the carriage return that may stand before its line feed.
pub open spec fn without_return(line: Seq<u8>) -> Seq<u8> {
    if line.len() > 0 && line.last() == 13 {
        line.drop_last()
    } else {
        line
    }
}

/// The lines of `text` from `start` on, when the bytes from `start` up to
/// `at` are known to hold no line feed.
pub open spec fn lines_from(text: Seq<u8>, start: int, at: int) -> Seq<Seq<u8>>
    decreases text.len() - at,
{
    if at >= text.len() {
        if start < text.len() {
            seq![text.subrange(start, text.len() as int)]
        } else {
            Seq::empty()
        }
    } else if text[at] == 10 {
        seq![without_return(text.subrange(start, at))] + lines_from(text, at + 1, at + 1)
    } else {
        lines_from(text, start, at + 1)
    }
}

/// The lines of a dictionary text. Each line feed ends a line; a carriage
/// return directly before it belongs to the ending. What follows the last
/// line feed is a last line, unless nothing follows it.
pub open spec fn lines(text: Seq<u8>) -> Seq<Seq<u8>> {
    lines_from(text, 0, 0)
}

/// `w` is the word of one of `lines` that has `length` bytes.
pub open spec fn listed(lines: Seq<Seq<u8>>, length: nat, w: Word) -> bool {
    exists|i: int| 0 <= i < lines.len() && #[trigger] lines[i].len() == length && w.inner == pack(lines[i])
}

/// The store of the words that `lines` lists with `length` bytes, all
/// unmarked.
pub open spec fn listing(lines: Seq<Seq<u8>>, length: nat) -> Map<Word, WordStatus> {
    Map::new(|w: Word| listed(lines, length, w), |w: Word| WordStatus::Unmarked)
}

/// The store of the words of `length` bytes among the lines of `text`.
pub fn load(text: &str, length: usize) -> (graph: WordGraph)
    ensures
        graph@ == listing(lines(text.spec_bytes()), length as nat),
{
    let bytes = text.as_bytes();
    let mut graph = WordGraph::default();
    let mut start: usize = 0;
    let mut at: usize = 0;
    let ghost mut read: Seq<Seq<u8>> = Seq::empty();
    proof {
        assert(graph@ =~= listing(read, length as nat));
    }
    while at < bytes.len()
        invariant
            start <= at <= bytes.len(),
            lines(bytes@) == read + lines_from(bytes@, start as int, at as int),
            graph@ == listing(read, length as nat),
        decreases bytes.len() - at,
    {
        if bytes[at] == 10 {
            let mut end: usize = at;
            if end > start && bytes[end - 1] == 13 {
                end = end - 1;
            }
            let ghost line = without_return(bytes@.subrange(start as int, at as int));
            assert(line =~= bytes@.subrange(start as int, end as int));
            if end - start == length {
                let word = Word::from_bytes(slice_subrange(bytes, start, end));
                graph.add_word(word);
            }
            proof {
                let longer = read.push(line);
                assert(longer + lines_from(bytes@, at + 1, at + 1) =~= read + lines_from(
                    bytes@,
                    start as int,
                    at as int,
                ));
                lemma_listing_grows(read, line, length as nat);
                assert(graph@ =~= listing(longer, length as nat));
                read = longer;
            }
            start = at + 1;
        }
        at = at + 1;
    }
    if start < bytes.len() {
        let ghost line = bytes@.subrange(start as int, bytes@.len() as int);
        if bytes.len() - start == length {
            let word = Word::from_bytes(slice_subrange(bytes, start, bytes.len()));
            graph.add_word(word);
        }
        proof {
            lemma_listing_grows(read, line, length as nat);
            assert(graph@ =~= listing(read.push(line), length as nat));
            assert(read.push(line) =~= lines(bytes@));
        }
    } else {
        assert(read =~= lines(bytes@));
    }
    graph
}

/// The texts that the words of `steps` spell, in their order.
pub open spec fn spelled_out(steps: Seq<Word>) -> Seq<Seq<char>> {
    steps.map_values(|w: Word| spelled(w@))
}

/// What the strings of `rungs` hold, in their order.
pub open spec fn texts(rungs: Seq<String>) -> Seq<Seq<char>> {
    rungs.map_values(|rung: String| rung@)
}

/// A shortest ladder from `origin` to `target`, each rung spelled out, over
/// the words of `text` that have as many bytes as `origin`; nothing when no
/// ladder joins the two.
pub fn ladder_between(text: &str, origin: &str, target: &str) -> (rungs: Vec<String>)
    ensures
        exists|steps: Seq<Word>|
            {
                &&& #[trigger] answers(
                    listing(lines(text.spec_bytes()), origin.spec_bytes().len()),
                    Word { inner: pack(origin.spec_bytes()) },
                    Word { inner: pack(target.spec_bytes()) },
                    steps,
                )
                &&& texts(rungs@) == spelled_out(steps)
            },
{
    let mut graph = load(text, origin.as_bytes().len());
    let ghost store = graph@;
    let steps = graph.ladder(Word::from(origin), Word::from(target));
    let mut rungs: Vec<String> = Vec::new();
    let mut i: usize = 0;
    while i < steps.len()
        invariant
            i <= steps.len(),
            texts(rungs@) == spelled_out(steps@.subrange(0, i as int)),
        decreases steps.len() - i,
    {
        let rung = steps[i].to_string();
        proof {
            let upto = steps@.subrange(0, i as int);
            assert(steps@.subrange(0, i + 1) =~= upto.push(steps@[i as int]));
            assert(texts(rungs@.push(rung)) =~= texts(rungs@).push(rung@));
            assert(spelled_out(upto.push(steps@[i as int])) =~= spelled_out(upto).push(
                spelled(steps@[i as int]@),
            ));
        }
        rungs.push(rung);
        i = i + 1;
    }
    proof {
        assert(steps@.subrange(0, i as int) =~= steps@);
        assert(answers(
            store,
            Word { inner: pack(origin.spec_bytes()) },
            Word { inner: pack(target.spec_bytes()) },
            steps@,
        ));
    }
    rungs
}

/// One more line lists its word if it has the length asked for, and
/// nothing otherwise.
proof fn lemma_listing_grows(read: Seq<Seq<u8>>, line: Seq<u8>, length: nat)
    ensures
        line.len() == length ==> listing(read.push(line), length) == listing(read, length).insert(
            Word { inner: pack(line) },
            WordStatus::Unmarked,
        ),
        line.len() != length ==> listing(read.push(line), length) == listing(read, length),
{
    let longer = read.push(line);
    assert forall|w: Word|
        listed(longer, length, w) <==> listed(read, length, w) || (line.len() == length && w.inner
            == pack(line)) by {
        if listed(longer, length, w) {
            let i = choose|i: int|
                0 <= i < longer.len() && #[trigger] longer[i].len() == length && w.inner == pack(
                    longer[i],
                );
            if i < read.len() {
                assert(read[i].len() == length && w.inner == pack(read[i]));
            }
        }
        if listed(read, length, w) {
            let i = choose|i: int|
                0 <= i < read.len() && #[trigger] read[i].len() == length && w.inner == pack(
                    read[i],
                );
            assert(longer[i].len() == length && w.inner == pack(longer[i]));
        }
        if line.len() == length && w.inner == pack(line) {
            assert(longer[read.len() as int].len() == length);
        }
    }
    if line.len() == length {
        assert(listing(longer, length) =~= listing(read, length).insert(
            Word { inner: pack(line) },
            WordStatus::Unmarked,
        ));
    } else {
        assert(listing(longer, length) =~= listing(read, length));
    }
}

} // verus!
