use word_ladder::{Word, WordGraph, WordStatus};
use word_ladder::WordStatus::{NextTo, Target, Unknown, Unmarked};

fn sorted(mut words: Vec<Word>) -> Vec<Word> {
    words.sort_by_key(|w| w.inner);
    words
}

fn words_of(texts: &[&str]) -> Vec<Word> {
    texts.iter().map(|s| Word::from(s)).collect()
}

#[test]
fn lib_should_not_contain_a_word_when_empty() {
    let graph = WordGraph::default();
    let dog = Word::from("dog");
    assert_eq!(Unknown, graph.get_word(dog))
}

#[test]
fn lib_should_contain_an_unmarked_word_that_was_added() {
    let dog = Word::from("dog");
    let cat = Word::from("cat");
    let mut graph: WordGraph = WordGraph::default();
    graph.add_word(dog);
    assert_eq!(Unmarked, graph.get_word(dog));
    assert_eq!(Unknown, graph.get_word(cat))
}

#[test]
fn lib_should_mark_a_word_as_linked_to_another() {
    let dog = Word::from("dog");
    let fog = Word::from("fog");
    let mut graph: WordGraph = WordGraph::default();
    graph.add_word(dog);
    graph.add_word(fog);
    graph.link(fog, dog);
    assert_eq!(NextTo(dog), graph.get_word(fog))
}

// A path ends at the root of a search: a word that is merely a member has
// none, and links that lead to such a word give only the words before it.
#[test]
fn should_find_a_one_step_path_to_an_unmarked_word() {
    let dog = Word::from("dog");
    let mut graph: WordGraph = WordGraph::default();
    graph.add_word(dog);
    assert_eq!(Vec::<Word>::new(), graph.path(dog))
}

#[test]
fn should_find_a_two_step_path_to_a_unmarked_word() {
    let dog = Word::from("dog");
    let fog = Word::from("fog");
    let mut graph: WordGraph = WordGraph::default();
    graph.add_word(dog);
    graph.add_word(fog);
    graph.link(fog, dog);
    assert_eq!(vec![fog], graph.path(fog))
}

#[test]
fn lib_should_unmark_all_the_words_before_a_search() {
    let dog = Word::from("dog");
    let fog = Word::from("fog");
    let mut graph = WordGraph::default();
    graph.add_word(dog);
    graph.add_word(fog);
    graph.link(dog, fog);
    graph.link(fog, dog);
    assert_eq!(NextTo(dog), graph.get_word(fog));
    assert_eq!(NextTo(fog), graph.get_word(dog));
    graph.unmark_all();
    assert_eq!(Unmarked, graph.get_word(dog));
    assert_eq!(Unmarked, graph.get_word(fog));
}

#[test]
fn word_graph_should_not_contain_a_word_when_empty() {
    let graph = WordGraph::default();
    let dog = Word::from("dog");
    assert_eq!(Unknown, graph.get_word(dog))
}

#[test]
fn word_graph_should_contain_an_unmarked_word_that_was_added() {
    let dog = Word::from("dog");
    let cat = Word::from("cat");
    let mut graph: WordGraph = WordGraph::default();
    graph.add_word(dog);
    assert_eq!(Unmarked, graph.get_word(dog));
    assert_eq!(Unknown, graph.get_word(cat))
}

#[test]
fn should_mark_a_word_as_the_target() {
    let dog = Word::from("dog");
    let fog = Word::from("fog");
    let mut graph: WordGraph = WordGraph::default();
    graph.add_word(dog);
    graph.add_word(fog);
    graph.target(dog);
    assert_eq!(Target, graph.get_word(dog));
}

#[test]
fn word_graph_should_mark_a_word_as_linked_to_another() {
    let dog = Word::from("dog");
    let fog = Word::from("fog");
    let mut graph: WordGraph = WordGraph::default();
    graph.add_word(dog);
    graph.add_word(fog);
    graph.link(fog, dog);
    assert_eq!(NextTo(dog), graph.get_word(fog))
}

#[test]
fn should_find_a_one_step_path_to_a_target_word() {
    let dog = Word::from("dog");
    let mut graph: WordGraph = WordGraph::default();
    graph.add_word(dog);
    graph.target(dog);
    assert_eq!(vec![dog], graph.path(dog))
}

#[test]
fn should_find_a_two_step_path_to_a_target_word() {
    let dog = Word::from("dog");
    let fog = Word::from("fog");
    let mut graph: WordGraph = WordGraph::default();
    graph.add_word(dog);
    graph.add_word(fog);
    graph.target(dog);
    graph.link(fog, dog);
    assert_eq!(vec![fog, dog], graph.path(fog))
}

#[test]
fn word_graph_should_unmark_all_the_words_before_a_search() {
    let dog = Word::from("dog");
    let fog = Word::from("fog");
    let mut graph: WordGraph = WordGraph::from_iter(words_of(&["dog", "fog", "cog", "cot", "cat"]));
    graph.link(dog, fog);
    graph.target(fog);
    graph.unmark_all();
    assert_eq!(Unmarked, graph.get_word(dog));
    assert_eq!(Unmarked, graph.get_word(fog));
}

#[test]
fn should_search_the_graph_starting_from_a_target_until_origin_is_found() {
    let dog = Word::from("dog");
    let cog = Word::from("cog");
    let cot = Word::from("cot");
    let fog = Word::from("fog");
    let cat = Word::from("cat");
    let mut graph: WordGraph = WordGraph::from_iter(vec![dog, fog, cog, cot, cat]);
    graph.search(cat, dog);
    assert_eq!(Target, graph.get_word(cat));
    assert_eq!(NextTo(cat), graph.get_word(cot));
    assert_eq!(NextTo(cot), graph.get_word(cog));
    assert_eq!(NextTo(cog), graph.get_word(dog));
}

#[test]
fn should_not_mark_nodes_to_a_path_when_there_is_not_a_path() {
    let dog = Word::from("dog");
    let cog = Word::from("cog");
    let cot = Word::from("cot");
    let fog = Word::from("fog");
    let cat = Word::from("cat");
    let qux = Word::from("qux");
    let mut graph: WordGraph = WordGraph::from_iter(vec![dog, fog, cog, cot, cat, qux]);
    graph.search(qux, dog);
    assert_eq!(Target, graph.get_word(qux));
    assert_eq!(Unmarked, graph.get_word(cat));
}

#[test]
fn a_search_that_fails_leaves_every_other_word_unmarked() {
    let mut graph = WordGraph::from_iter(words_of(&["dog", "fog", "cog", "cot", "cat", "qux"]));
    graph.search(Word::from("qux"), Word::from("dog"));
    for text in ["dog", "fog", "cog", "cot", "cat"] {
        assert_eq!(Unmarked, graph.get_word(Word::from(text)));
    }
    assert_eq!(Vec::<Word>::new(), graph.path(Word::from("dog")));
}

#[test]
fn a_search_that_runs_out_marks_all_that_a_ladder_joins_to_the_target() {
    let mut graph = WordGraph::from_iter(words_of(&["cat", "cot", "cog", "dog", "qux", "quo"]));
    graph.search(Word::from("cat"), Word::from("zzz"));
    assert_eq!(Target, graph.get_word(Word::from("cat")));
    assert_eq!(NextTo(Word::from("cat")), graph.get_word(Word::from("cot")));
    assert_eq!(NextTo(Word::from("cot")), graph.get_word(Word::from("cog")));
    assert_eq!(NextTo(Word::from("cog")), graph.get_word(Word::from("dog")));
    assert_eq!(Unmarked, graph.get_word(Word::from("qux")));
    assert_eq!(Unmarked, graph.get_word(Word::from("quo")));
    assert_eq!(Unknown, graph.get_word(Word::from("zzz")));
}

#[test]
fn a_search_forgets_the_marks_of_the_search_before() {
    let mut graph = WordGraph::from_iter(words_of(&["cat", "cot", "cog", "dog"]));
    graph.search(Word::from("cat"), Word::from("dog"));
    graph.search(Word::from("dog"), Word::from("cog"));
    assert_eq!(Target, graph.get_word(Word::from("dog")));
    assert_eq!(NextTo(Word::from("dog")), graph.get_word(Word::from("cog")));
    assert_eq!(Unmarked, graph.get_word(Word::from("cat")));
}

#[test]
fn adding_a_word_twice_leaves_one_unmarked_member() {
    let cat = Word::from("cat");
    let mut graph = WordGraph::default();
    graph.add_word(cat);
    graph.add_word(cat);
    assert_eq!(Unmarked, graph.get_word(cat));
    assert_eq!(vec![cat], graph.adjacents(Word::from("bat")));
}

#[test]
fn adding_a_marked_word_again_unmarks_it() {
    let cat = Word::from("cat");
    let mut graph = WordGraph::default();
    graph.add_word(cat);
    graph.target(cat);
    graph.add_word(cat);
    assert_eq!(Unmarked, graph.get_word(cat));
}

#[test]
fn from_iter_holds_each_given_word_once() {
    let graph = WordGraph::from_iter(words_of(&["cat", "cat", "bat", "bag"]));
    assert_eq!(Unmarked, graph.get_word(Word::from("cat")));
    assert_eq!(Unmarked, graph.get_word(Word::from("bat")));
    assert_eq!(Unmarked, graph.get_word(Word::from("bag")));
    assert_eq!(Unknown, graph.get_word(Word::from("cog")));
    assert_eq!(sorted(words_of(&["bat", "cat"])), sorted(graph.adjacents(Word::from("rat"))));
}

#[test]
fn adjacents_are_the_members_one_letter_away() {
    let graph = WordGraph::from_iter(words_of(&["cat", "bat", "bag", "cog", "cot", "dog", "cats"]));
    assert_eq!(sorted(words_of(&["bat", "cot"])), sorted(graph.adjacents(Word::from("cat"))));
    assert_eq!(sorted(words_of(&["cog"])), sorted(graph.adjacents(Word::from("dog"))));
    assert_eq!(sorted(words_of(&["cot", "dog"])), sorted(graph.adjacents(Word::from("cog"))));
    assert_eq!(Vec::<Word>::new(), graph.adjacents(Word::from("qux")));
    assert_eq!(Vec::<Word>::new(), WordGraph::default().adjacents(Word::from("cat")));
}

#[test]
fn unvisited_adjacents_leave_out_the_marked() {
    let mut graph = WordGraph::from_iter(words_of(&["cat", "bat", "cot", "cut"]));
    graph.target(Word::from("bat"));
    graph.link(Word::from("cot"), Word::from("cat"));
    assert_eq!(words_of(&["cut"]), graph.unvisited_adjacents(Word::from("cat")));
    graph.unmark_all();
    assert_eq!(
        sorted(words_of(&["bat", "cot", "cut"])),
        sorted(graph.unvisited_adjacents(Word::from("cat")))
    );
}

#[test]
fn path_of_a_word_that_is_no_member_is_empty() {
    let graph = WordGraph::from_iter(words_of(&["cat"]));
    assert_eq!(Vec::<Word>::new(), graph.path(Word::from("dog")));
    assert_eq!(Vec::<Word>::new(), WordGraph::default().path(Word::from("dog")));
}

#[test]
fn path_stops_after_as_many_words_as_there_are_members() {
    let dog = Word::from("dog");
    let fog = Word::from("fog");
    let mut graph = WordGraph::from_iter(vec![dog, fog]);
    graph.link(dog, fog);
    graph.link(fog, dog);
    assert_eq!(vec![dog, fog], graph.path(dog));
}

#[test]
fn status_is_comparable_and_printable() {
    let dog = Word::from("dog");
    assert_eq!(WordStatus::NextTo(dog), NextTo(dog));
    assert_ne!(WordStatus::Target, WordStatus::Unmarked);
    assert_eq!("Unknown", format!("{:?}", WordStatus::Unknown));
}
