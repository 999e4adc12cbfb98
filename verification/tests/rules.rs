use std::cell::Cell;
use wordplay::chain::Chain;
use wordplay::dictionary::{Def, DictionaryError, WordInfo};
use wordplay::embeddings::EmbeddingIndex;
use wordplay::rhyme::{load_cmu_dict, PhoneticDict};
use wordplay::rules::{
    check_move, check_word, judge_resolved, normalize_input, validate_move, Constraints,
    MoveError, Rule,
};

fn strings(v: &[&str]) -> Vec<String> {
    v.iter().map(|s| s.to_string()).collect()
}

fn info(word: &str, stems: &[&str]) -> WordInfo {
    WordInfo {
        word: word.to_string(),
        stems: strings(stems),
        defs: vec![Def { definitions: strings(&["a thing"]), functional_label: "noun".to_string() }],
    }
}

fn no_rules() -> Constraints {
    Constraints {
        starting_char: None,
        forbidden_chars: vec![],
        min_shared_chars: None,
        required_length: None,
        rhyme_with: None,
        similarity_floor: None,
    }
}

fn index() -> EmbeddingIndex {
    EmbeddingIndex::load("cat 1 0\ncar 0.9 0.1\ndog 0 1\ncot 0.8 0.6\n")
}

fn chain_of(word: &str) -> Chain {
    Chain::new().push(info(word, &[word])).0
}

#[test]
fn shared_characters_with_stone() {
    let rules = Constraints { min_shared_chars: Some(2), ..no_rules() };
    let index = EmbeddingIndex::new();
    let dict = PhoneticDict::new();
    let chain = chain_of("stone");
    assert_eq!(check_move("tons", &chain, &rules, &index, &dict), Ok(()));
    assert_eq!(
        check_move("pie", &chain, &rules, &index, &dict),
        Err(MoveError::ConstraintViolation(Rule::SharedChars))
    );
    let found = validate_move("tons", &chain, &rules, &index, &dict, |w| Ok(info(w, &[w])));
    assert_eq!(found, Ok(info("tons", &["tons"])));
    let found = validate_move("pie", &chain, &rules, &index, &dict, |w| Ok(info(w, &[w])));
    assert_eq!(found, Err(MoveError::ConstraintViolation(Rule::SharedChars)));
}

#[test]
fn apple_again_is_already_used() {
    let index = EmbeddingIndex::new();
    let dict = PhoneticDict::new();
    let chain = chain_of("apple");
    let found = validate_move("apple", &chain, &no_rules(), &index, &dict, |w| Ok(info(w, &[])));
    assert_eq!(found, Err(MoveError::AlreadyUsed));
    let found = validate_move("Apple", &chain, &no_rules(), &index, &dict, |w| Ok(info(w, &[w])));
    assert_eq!(found, Err(MoveError::AlreadyUsed));
    assert_eq!(chain.len(), 1);
}

#[test]
fn inflected_repeat_is_already_used() {
    let index = EmbeddingIndex::new();
    let dict = PhoneticDict::new();
    let chain = Chain::new().push(info("run", &["run", "running", "ran"])).0;
    let found = validate_move("running", &chain, &no_rules(), &index, &dict, |w| {
        Ok(info(w, &["run", "running"]))
    });
    assert_eq!(found, Err(MoveError::AlreadyUsed));
}

#[test]
fn text_must_be_one_word() {
    assert_eq!(normalize_input(""), Err(MoveError::InvalidInput));
    assert_eq!(normalize_input("   "), Err(MoveError::InvalidInput));
    assert_eq!(normalize_input("two words"), Err(MoveError::InvalidInput));
    assert_eq!(normalize_input("one"), Ok("one".to_string()));
    assert_eq!(normalize_input("  One\n"), Ok("one".to_string()));
    assert_eq!(normalize_input("ÉCOLE"), Ok("école".to_string()));
}

#[test]
fn invalid_input_comes_before_the_dictionary() {
    let index = EmbeddingIndex::new();
    let dict = PhoneticDict::new();
    let calls = Cell::new(0);
    let resolve = |w: &str| {
        calls.set(calls.get() + 1);
        Ok(info(w, &[w]))
    };
    let chain = Chain::new();
    assert_eq!(
        validate_move("two words", &chain, &no_rules(), &index, &dict, &resolve),
        Err(MoveError::InvalidInput)
    );
    assert_eq!(
        validate_move("", &chain, &no_rules(), &index, &dict, &resolve),
        Err(MoveError::InvalidInput)
    );
    let rules = Constraints { starting_char: Some('x'), ..no_rules() };
    assert_eq!(
        validate_move("apple", &chain, &rules, &index, &dict, &resolve),
        Err(MoveError::ConstraintViolation(Rule::StartingChar))
    );
    assert_eq!(calls.get(), 0);
    assert_eq!(
        validate_move("Apple", &chain, &no_rules(), &index, &dict, &resolve),
        Ok(info("apple", &["apple"]))
    );
    assert_eq!(calls.get(), 1);
}

#[test]
fn failed_lookups_are_told_apart() {
    let index = EmbeddingIndex::new();
    let dict = PhoneticDict::new();
    let chain = Chain::new();
    let found = validate_move("apple", &chain, &no_rules(), &index, &dict, |w| {
        Err(DictionaryError::NotFound(w.to_string()))
    });
    assert_eq!(found, Err(MoveError::NotFound));
    let found = validate_move("apple", &chain, &no_rules(), &index, &dict, |w| {
        Err(DictionaryError::LookupFailed(w.to_string()))
    });
    assert_eq!(found, Err(MoveError::LookupFailed));
    assert_eq!(
        judge_resolved(Err(DictionaryError::StoreFailed("disk".to_string())), &chain),
        Err(MoveError::LookupFailed)
    );
    assert_eq!(judge_resolved(Ok(info("a", &[])), &chain), Ok(info("a", &[])));
}

#[test]
fn starting_character_rule() {
    let rules = Constraints { starting_char: Some('e'), ..no_rules() };
    let index = EmbeddingIndex::new();
    let dict = PhoneticDict::new();
    assert_eq!(check_word("egg", None, &rules, &index, &dict), None);
    assert_eq!(check_word("leg", None, &rules, &index, &dict), Some(Rule::StartingChar));
    assert_eq!(check_word("", None, &rules, &index, &dict), Some(Rule::StartingChar));
}

#[test]
fn required_length_rule() {
    let rules = Constraints { required_length: Some(3), ..no_rules() };
    let index = EmbeddingIndex::new();
    let dict = PhoneticDict::new();
    assert_eq!(check_word("egg", None, &rules, &index, &dict), None);
    assert_eq!(check_word("eggs", None, &rules, &index, &dict), Some(Rule::RequiredLength));
    assert_eq!(check_word("eg", None, &rules, &index, &dict), Some(Rule::RequiredLength));
    assert_eq!(check_word("éé", None, &rules, &index, &dict), Some(Rule::RequiredLength));
    assert_eq!(check_word("aé", None, &rules, &index, &dict), None);
}

#[test]
fn forbidden_characters_rule() {
    let rules = Constraints { forbidden_chars: vec!['x', 'g'], ..no_rules() };
    let index = EmbeddingIndex::new();
    let dict = PhoneticDict::new();
    assert_eq!(check_word("hello", None, &rules, &index, &dict), None);
    assert_eq!(check_word("egg", None, &rules, &index, &dict), Some(Rule::ForbiddenChars));
}

#[test]
fn shared_characters_rule_needs_a_word_before() {
    let rules = Constraints { min_shared_chars: Some(0), ..no_rules() };
    let index = EmbeddingIndex::new();
    let dict = PhoneticDict::new();
    assert_eq!(check_word("abc", Some("xyz"), &rules, &index, &dict), None);
    assert_eq!(check_word("abc", None, &rules, &index, &dict), Some(Rule::SharedChars));
    let rules = Constraints { min_shared_chars: Some(3), ..no_rules() };
    assert_eq!(check_word("notes", Some("stone"), &rules, &index, &dict), None);
    assert_eq!(check_word("nooo", Some("stone"), &rules, &index, &dict), Some(Rule::SharedChars));
}

#[test]
fn rhyme_rule() {
    let dict = load_cmu_dict("bat B AE1 T\ncombat K AA1 M B AE1 T\ndog D AO1 G\n");
    let rules = Constraints { rhyme_with: Some("bat".to_string()), ..no_rules() };
    let index = EmbeddingIndex::new();
    assert_eq!(check_word("combat", None, &rules, &index, &dict), None);
    assert_eq!(check_word("dog", None, &rules, &index, &dict), Some(Rule::Rhyme));
    assert_eq!(check_word("unknown", None, &rules, &index, &dict), Some(Rule::Rhyme));
}

#[test]
fn similarity_rule_is_inclusive() {
    let index = index();
    let dict = PhoneticDict::new();
    let rules = Constraints { similarity_floor: Some(8_000), ..no_rules() };
    assert_eq!(check_word("car", Some("cat"), &rules, &index, &dict), None);
    assert_eq!(check_word("cot", Some("cat"), &rules, &index, &dict), None);
    assert_eq!(check_word("dog", Some("cat"), &rules, &index, &dict), Some(Rule::Similarity));
    assert_eq!(check_word("cow", Some("cat"), &rules, &index, &dict), Some(Rule::Similarity));
    assert_eq!(check_word("car", None, &rules, &index, &dict), Some(Rule::Similarity));
    let rules = Constraints { similarity_floor: Some(8_001), ..no_rules() };
    assert_eq!(check_word("cot", Some("cat"), &rules, &index, &dict), Some(Rule::Similarity));
    let rules = Constraints { similarity_floor: Some(0), ..no_rules() };
    assert_eq!(check_word("cow", Some("cat"), &rules, &index, &dict), None);
}

#[test]
fn first_broken_rule_is_named() {
    let index = index();
    let dict = PhoneticDict::new();
    let rules = Constraints {
        starting_char: Some('c'),
        forbidden_chars: vec!['o'],
        min_shared_chars: Some(2),
        required_length: Some(3),
        rhyme_with: Some("cat".to_string()),
        similarity_floor: Some(8_000),
    };
    assert_eq!(check_word("dogs", Some("cat"), &rules, &index, &dict), Some(Rule::StartingChar));
    assert_eq!(check_word("cots", Some("cat"), &rules, &index, &dict), Some(Rule::RequiredLength));
    assert_eq!(check_word("cot", Some("cat"), &rules, &index, &dict), Some(Rule::ForbiddenChars));
    assert_eq!(check_word("cub", Some("cat"), &rules, &index, &dict), Some(Rule::SharedChars));
    assert_eq!(check_word("car", Some("cat"), &rules, &index, &dict), Some(Rule::Rhyme));
}
