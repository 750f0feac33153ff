use ai_training::data::tokenizer::CharTokenizer;

#[test]
fn vocabulary_is_sorted_and_distinct() {
    let tok = CharTokenizer::build("banana");
    assert_eq!(tok.vocab(), &vec!['a', 'b', 'n']);
    assert_eq!(tok.vocab_size(), 3);
    assert_eq!(tok.id('a'), Some(0));
    assert_eq!(tok.id('n'), Some(2));
    assert_eq!(tok.id('z'), None);
}

#[test]
fn own_text_round_trips() {
    let text = "Grüße, 世界!\n>>tool:calculate(1+2)";
    let tok = CharTokenizer::build(text);
    assert_eq!(tok.decode(&tok.encode(text)), text);
}

#[test]
fn unknown_characters_and_ids_are_dropped() {
    let tok = CharTokenizer::build("abc");
    assert_eq!(tok.encode("axbyc"), vec![0, 1, 2]);
    assert_eq!(tok.decode(&[2, 7, 0]), "ca");
    assert_eq!(tok.decode(&[]), "");
}

#[test]
fn ids_round_trip() {
    let tok = CharTokenizer::build("hello world");
    let ids: Vec<u32> = vec![0, 3, 3, 1];
    assert_eq!(tok.encode(&tok.decode(&ids)), ids);
    assert_eq!(tok.encode(&tok.decode(&[0, 99, 3, 8, 1])), vec![0, 3, 1]);
}

#[test]
fn a_stored_vocabulary_is_rebuilt() {
    let mut tok = CharTokenizer::from_vocab(vec!['x', 'a', 'm']);
    assert_eq!(tok.id('a'), None);
    assert_eq!(tok.encode("max"), Vec::<u32>::new());
    tok.rebuild();
    assert_eq!(tok.encode("max"), vec![2, 1, 0]);
    assert_eq!(tok.decode(&[0, 1, 2]), "xam");
}

#[test]
fn an_empty_text_has_an_empty_vocabulary() {
    let tok = CharTokenizer::build("");
    assert_eq!(tok.vocab_size(), 0);
    assert_eq!(tok.encode("abc"), Vec::<u32>::new());
}
