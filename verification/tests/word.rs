use word_ladder::Word;

#[test]
fn lib_should_be_created_from_a_string_and_converted_into_a_string() {
    let dog = Word::from("dog");
    let cat = Word::from("cat");
    assert_eq!(String::from("dog"), dog.to_string());
    assert_eq!(String::from("cat"), cat.to_string())
}

#[test]
fn lib_should_be_comparable_for_equality() {
    let dog1 = Word::from("dog");
    let dog2 = Word::from("dog");
    let cat = Word::from("cat");
    assert_eq!(dog1, dog2);
    assert_ne!(dog1, cat)
}

#[test]
fn lib_should_be_false_if_words_are_identical() {
    let dog = Word::from("dog");
    assert_eq!(false, dog.is_adjacent(dog))
}

#[test]
fn lib_should_be_true_if_words_are_different_by_their_last_letter() {
    let dog = Word::from("dog");
    let dot = Word::from("dot");
    assert_eq!(true, dog.is_adjacent(dot));
}

#[test]
fn lib_should_be_true_if_words_are_different_by_only_a_letter() {
    let dog = Word::from("dog");
    let dig = Word::from("dig");
    let fog = Word::from("fog");
    assert_eq!(true, dog.is_adjacent(dig));
    assert_eq!(true, dog.is_adjacent(fog));
}

#[test]
fn lib_should_be_false_if_words_are_different_by_more_than_one_letter() {
    let dog = Word::from("dog");
    let dib = Word::from("dib");
    let got = Word::from("got");
    assert_eq!(false, dog.is_adjacent(dib));
    assert_eq!(false, dog.is_adjacent(got));
}

#[test]
fn lib_should_be_false_if_words_have_different_size() {
    let dog = Word::from("dog");
    let doge = Word::from("doge");
    let bat = Word::from("bat");
    let bath = Word::from("bath");
    assert_eq!(false, doge.is_adjacent(dog));
    assert_eq!(false, bat.is_adjacent(bath));
}

#[test]
fn word_graph_should_be_created_from_a_string_and_converted_into_a_string() {
    let dog = Word::from("dog");
    let cat = Word::from("cat");
    assert_eq!(String::from("dog"), dog.to_string());
    assert_eq!(String::from("cat"), cat.to_string())
}

#[test]
fn word_graph_should_be_comparable_for_equality() {
    let dog1 = Word::from("dog");
    let dog2 = Word::from("dog");
    let cat = Word::from("cat");
    assert_eq!(dog1, dog2);
    assert_ne!(dog1, cat)
}

#[test]
fn word_graph_should_be_false_if_words_are_identical() {
    let dog = Word::from("dog");
    assert_eq!(false, dog.is_adjacent(dog))
}

#[test]
fn word_graph_should_be_true_if_words_are_different_by_their_last_letter() {
    let dog = Word::from("dog");
    let dot = Word::from("dot");
    assert_eq!(true, dog.is_adjacent(dot));
}

#[test]
fn word_graph_should_be_true_if_words_are_different_by_only_a_letter() {
    let dog = Word::from("dog");
    let dig = Word::from("dig");
    let fog = Word::from("fog");
    assert_eq!(true, dog.is_adjacent(dig));
    assert_eq!(true, dog.is_adjacent(fog));
}

#[test]
fn word_graph_should_be_false_if_words_are_different_by_more_than_one_letter() {
    let dog = Word::from("dog");
    let dib = Word::from("dib");
    let got = Word::from("got");
    assert_eq!(false, dog.is_adjacent(dib));
    assert_eq!(false, dog.is_adjacent(got));
}

#[test]
fn word_graph_should_be_false_if_words_have_different_size() {
    let dog = Word::from("dog");
    let doge = Word::from("doge");
    let bat = Word::from("bat");
    let bath = Word::from("bath");
    assert_eq!(false, doge.is_adjacent(dog));
    assert_eq!(false, bat.is_adjacent(bath));
}

#[test]
fn code_packs_the_first_letter_highest() {
    assert_eq!(0x646f67, Word::from("dog").inner);
    assert_eq!(0x61, Word::from("a").inner);
    assert_eq!(0x6162636465666768, Word::from("abcdefgh").inner);
}

#[test]
fn empty_text_is_code_zero_and_spells_nothing() {
    let empty = Word::from("");
    assert_eq!(0, empty.inner);
    assert_eq!(String::new(), empty.to_string());
}

#[test]
fn text_of_up_to_eight_letters_survives_the_codec() {
    for text in ["", "a", "at", "cat", "bath", "words", "ladder", "letters", "alphabet", "A-z 0~9!"] {
        assert_eq!(String::from(text), Word::from(text).to_string());
    }
}

#[test]
fn text_of_more_than_eight_letters_keeps_its_last_eight() {
    let long = Word::from("dictionary");
    assert_eq!(Word::from("ctionary"), long);
    assert_eq!(String::from("ctionary"), long.to_string());
}

#[test]
fn a_leading_null_byte_is_lost_and_an_inner_one_is_kept() {
    assert_eq!(Word::from("ab"), Word::from("\0ab"));
    assert_eq!(String::from("ab"), Word::from("\0ab").to_string());
    assert_eq!(String::from("a\0b"), Word::from("a\0b").to_string());
}

#[test]
fn a_byte_above_ascii_is_spelled_as_the_character_with_its_number() {
    let word = Word { inner: 0xe9 };
    assert_eq!(String::from("\u{e9}"), word.to_string());
}

#[test]
fn adjacency_is_irreflexive() {
    for text in ["", "a", "dog", "alphabet"] {
        let word = Word::from(text);
        assert!(!word.is_adjacent(word));
    }
}

#[test]
fn adjacency_is_symmetric() {
    let texts = ["", "a", "b", "dog", "dot", "cot", "cat", "doge", "bath", "bat"];
    for a in texts {
        for b in texts {
            assert_eq!(Word::from(a).is_adjacent(Word::from(b)), Word::from(b).is_adjacent(Word::from(a)));
        }
    }
}

#[test]
fn adjacency_asks_for_equal_length_and_one_differing_letter() {
    assert!(Word::from("a").is_adjacent(Word::from("b")));
    assert!(Word::from("cat").is_adjacent(Word::from("bat")));
    assert!(Word::from("cat").is_adjacent(Word::from("cot")));
    assert!(Word::from("cat").is_adjacent(Word::from("cab")));
    assert!(!Word::from("cat").is_adjacent(Word::from("dog")));
    assert!(!Word::from("cat").is_adjacent(Word::from("act")));
    assert!(!Word::from("cat").is_adjacent(Word::from("cats")));
    assert!(!Word::from("cat").is_adjacent(Word::from("at")));
    assert!(!Word::from("").is_adjacent(Word::from("a")));
    assert!(!Word::from("").is_adjacent(Word::from("")));
}
