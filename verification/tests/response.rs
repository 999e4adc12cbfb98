use std::cell::{Cell, RefCell};
use wordplay::chain::Chain;
use wordplay::dictionary::{Def, DictionaryError, WordInfo};
use wordplay::embeddings::EmbeddingIndex;
use wordplay::response::{select_response, ResponseSearch, SearchStep};
use wordplay::rhyme::PhoneticDict;
use wordplay::rules::{Constraints, MoveError};

fn strings(v: &[&str]) -> Vec<String> {
    v.iter().map(|s| s.to_string()).collect()
}

fn info(word: &str, stems: &[&str]) -> WordInfo {
    WordInfo {
        word: word.to_string(),
        stems: strings(stems),
        defs: vec![Def { definitions: strings(&["a thing"]), functional_label: "noun".to_string() }],
    }
}

fn starting_with(c: char) -> Constraints {
    Constraints {
        starting_char: Some(c),
        forbidden_chars: vec![],
        min_shared_chars: None,
        required_length: None,
        rhyme_with: None,
        similarity_floor: None,
    }
}

fn index() -> EmbeddingIndex {
    EmbeddingIndex::load(
        "cat 1 0\ntiger 0.9 0.1\ntabby 0.8 0.2\ntoad 0.1 0.9\ntree 0 1\ntap 0.5 0.5\nrat 1 0.1\n",
    )
}

#[test]
fn exhausted_bucket_gives_no_valid_word_after_the_budget() {
    let index = index();
    let dict = PhoneticDict::new();
    let chain = Chain::new().push(info("cat", &["cat"])).0;
    for budget in [0usize, 1, 3, 5] {
        let mut search = ResponseSearch::new("cat", starting_with('z'), &chain, budget);
        assert_eq!(search.attempts(), 0);
        assert_eq!(search.budget(), budget);
        assert_eq!(search.next_candidate(&index, &dict), SearchStep::Exhausted);
        assert_eq!(search.attempts(), budget);
        assert_eq!(search.next_candidate(&index, &dict), SearchStep::Exhausted);
        assert_eq!(search.attempts(), budget);
        let calls = Cell::new(0);
        let found = select_response("cat", &chain, starting_with('z'), &index, &dict, budget, |w| {
            calls.set(calls.get() + 1);
            Ok(info(w, &[w]))
        });
        assert_eq!(found, Err(MoveError::NoValidWord));
        assert_eq!(calls.get(), 0);
    }
}

#[test]
fn failing_dictionary_is_asked_once_per_attempt() {
    let index = index();
    let dict = PhoneticDict::new();
    let chain = Chain::new().push(info("cat", &["cat"])).0;
    for budget in [1usize, 2, 3] {
        let asked = RefCell::new(Vec::new());
        let found = select_response("cat", &chain, starting_with('t'), &index, &dict, budget, |w| {
            asked.borrow_mut().push(w.to_string());
            Err(DictionaryError::LookupFailed(w.to_string()))
        });
        assert_eq!(found, Err(MoveError::NoValidWord));
        assert_eq!(asked.borrow().len(), budget);
        assert_eq!(asked.borrow()[..], strings(&["tiger", "tabby", "tap"])[..budget]);
    }
}

#[test]
fn attempts_stop_when_the_bucket_runs_out() {
    let index = index();
    let dict = PhoneticDict::new();
    let chain = Chain::new().push(info("cat", &["cat"])).0;
    let asked = RefCell::new(Vec::new());
    let found = select_response("cat", &chain, starting_with('r'), &index, &dict, 5, |w| {
        asked.borrow_mut().push(w.to_string());
        Err(DictionaryError::LookupFailed(w.to_string()))
    });
    assert_eq!(found, Err(MoveError::NoValidWord));
    assert_eq!(asked.borrow()[..], strings(&["rat"])[..]);
}

#[test]
fn most_similar_admitted_word_is_the_answer() {
    let index = index();
    let dict = PhoneticDict::new();
    let chain = Chain::new().push(info("cat", &["cat"])).0;
    let found = select_response("cat", &chain, starting_with('t'), &index, &dict, 3, |w| {
        Ok(info(w, &[w]))
    });
    assert_eq!(found, Ok(info("tiger", &["tiger"])));
}

#[test]
fn words_of_the_chain_are_not_proposed() {
    let index = index();
    let dict = PhoneticDict::new();
    let chain = Chain::new().push(info("cat", &["cat"])).0;
    let chain = chain.push(info("tiger", &["tiger", "tigers"])).0;
    let mut search = ResponseSearch::new("cat", starting_with('t'), &chain, 3);
    assert!(!search.admits_word("tiger", &index, &dict));
    assert!(search.admits_word("tabby", &index, &dict));
    assert!(!search.admits_word("rat", &index, &dict));
    assert_eq!(search.propose(&index, &dict), Some("tabby".to_string()));
    assert_eq!(search.next_candidate(&index, &dict), SearchStep::Candidate("tabby".to_string()));
    assert_eq!(search.attempts(), 1);
}

#[test]
fn unresolved_word_is_excluded_and_the_search_goes_on() {
    let index = index();
    let dict = PhoneticDict::new();
    let chain = Chain::new().push(info("cat", &["cat"])).0;
    let found = select_response("cat", &chain, starting_with('t'), &index, &dict, 3, |w| {
        if w == "tiger" {
            Err(DictionaryError::LookupFailed(w.to_string()))
        } else {
            Ok(info(w, &[w]))
        }
    });
    assert_eq!(found, Ok(info("tabby", &["tabby"])));
}

#[test]
fn resolved_word_that_shares_a_stem_is_excluded_with_its_stems() {
    let index = index();
    let dict = PhoneticDict::new();
    let chain = Chain::new().push(info("cat", &["cat", "tomcat"])).0;
    let found = select_response("cat", &chain, starting_with('t'), &index, &dict, 3, |w| {
        if w == "tiger" {
            Ok(info(w, &["tiger", "Tomcat", "tabby"]))
        } else {
            Ok(info(w, &[w]))
        }
    });
    assert_eq!(found, Ok(info("tap", &["tap"])));
}

#[test]
fn steps_of_a_search() {
    let index = index();
    let dict = PhoneticDict::new();
    let chain = Chain::new().push(info("cat", &["cat"])).0;
    let mut search = ResponseSearch::new("cat", starting_with('t'), &chain, 2);
    assert_eq!(search.next_candidate(&index, &dict), SearchStep::Candidate("tiger".to_string()));
    let failed = Err(DictionaryError::LookupFailed("tiger".to_string()));
    assert_eq!(search.settle("tiger", failed, &chain), None);
    assert_eq!(search.attempts(), 1);
    assert_eq!(search.next_candidate(&index, &dict), SearchStep::Candidate("tabby".to_string()));
    assert_eq!(
        search.settle("tabby", Ok(info("tabby", &["tabby"])), &chain),
        Some(info("tabby", &["tabby"]))
    );
    assert_eq!(search.attempts(), 2);
    assert_eq!(search.next_candidate(&index, &dict), SearchStep::Exhausted);
}

#[test]
fn answer_meets_the_rules() {
    let index = index();
    let dict = PhoneticDict::new();
    let chain = Chain::new().push(info("cat", &["cat"])).0;
    let rules = Constraints { required_length: Some(4), ..starting_with('t') };
    let found = select_response("cat", &chain, rules, &index, &dict, 3, |w| Ok(info(w, &[w])));
    assert_eq!(found, Ok(info("toad", &["toad"])));
    let rules = Constraints { forbidden_chars: vec!['i', 'b'], ..starting_with('t') };
    let found = select_response("cat", &chain, rules, &index, &dict, 3, |w| Ok(info(w, &[w])));
    assert_eq!(found, Ok(info("tap", &["tap"])));
    let rules = Constraints { min_shared_chars: Some(2), ..starting_with('t') };
    let found = select_response("cat", &chain, rules, &index, &dict, 3, |w| Ok(info(w, &[w])));
    assert_eq!(found, Ok(info("tabby", &["tabby"])));
    let rules = Constraints { similarity_floor: Some(9_900), ..starting_with('t') };
    let found = select_response("cat", &chain, rules, &index, &dict, 3, |w| {
        if w == "tiger" {
            Err(DictionaryError::NotFound(w.to_string()))
        } else {
            Ok(info(w, &[w]))
        }
    });
    assert_eq!(found, Err(MoveError::NoValidWord));
}

#[test]
fn search_without_a_letter_or_an_indexed_word_gives_up() {
    let index = index();
    let dict = PhoneticDict::new();
    let chain = Chain::new();
    let rules = Constraints { starting_char: None, ..starting_with('t') };
    let found = select_response("cat", &chain, rules, &index, &dict, 3, |w| Ok(info(w, &[w])));
    assert_eq!(found, Err(MoveError::NoValidWord));
    let found = select_response("lynx", &chain, starting_with('t'), &index, &dict, 3, |w| {
        Ok(info(w, &[w]))
    });
    assert_eq!(found, Err(MoveError::NoValidWord));
}

#[test]
fn random_proposal_is_an_admitted_word() {
    let index = index();
    let dict = PhoneticDict::new();
    let chain = Chain::new().push(info("tiger", &["tiger"])).0;
    let rules = Constraints { forbidden_chars: vec!['b'], ..starting_with('t') };
    let search = ResponseSearch::new("cat", rules, &chain, 3);
    let mut seen = Vec::new();
    for _ in 0..200 {
        let word = search.propose_random(&index, &dict).unwrap();
        assert!(["toad", "tree", "tap"].contains(&word.as_str()));
        if !seen.contains(&word) {
            seen.push(word);
        }
    }
    assert_eq!(seen.len(), 3);
    let search = ResponseSearch::new("cat", starting_with('z'), &chain, 3);
    assert_eq!(search.propose_random(&index, &dict), None);
}

#[test]
fn no_valid_word_where_every_fitting_word_is_used() {
    let index = index();
    let dict = PhoneticDict::new();
    let chain = Chain::new().push(info("cat", &["cat", "Tiger", "tabby", "TOAD"])).0;
    let chain = chain.push(info("tree", &["tap"])).0;
    let calls = Cell::new(0);
    let found = select_response("cat", &chain, starting_with('t'), &index, &dict, 5, |w| {
        calls.set(calls.get() + 1);
        Ok(info(w, &[w]))
    });
    assert_eq!(found, Err(MoveError::NoValidWord));
    assert_eq!(calls.get(), 0);
}

#[test]
fn attempts_go_on_after_a_failed_proposal() {
    let index = index();
    let dict = PhoneticDict::new();
    let chain = Chain::new().push(info("cat", &["cat"])).0;
    let asked = RefCell::new(Vec::new());
    let found = select_response("cat", &chain, starting_with('t'), &index, &dict, 5, |w| {
        asked.borrow_mut().push(w.to_string());
        if asked.borrow().len() < 4 {
            Err(DictionaryError::LookupFailed(w.to_string()))
        } else {
            Ok(info(w, &[w]))
        }
    });
    assert_eq!(found, Ok(info("toad", &["toad"])));
    assert_eq!(asked.borrow()[..], strings(&["tiger", "tabby", "tap", "toad"])[..]);
}
