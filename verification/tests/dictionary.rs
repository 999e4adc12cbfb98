use wordplay::chain::Chain;
use wordplay::dictionary::{
    copy_texts, keys_of, word_info_from_entries, Def, DictEntry, DictionaryError, WordInfo,
};

fn strings(v: &[&str]) -> Vec<String> {
    v.iter().map(|s| s.to_string()).collect()
}

fn info(word: &str, stems: &[&str]) -> WordInfo {
    WordInfo {
        word: word.to_string(),
        stems: strings(stems),
        defs: vec![Def { definitions: strings(&["a thing"]), functional_label: "noun".to_string() }],
    }
}

fn entry(label: Option<&str>, defs: Option<&[&str]>, stems: &[&str]) -> DictEntry {
    DictEntry {
        functional_label: label.map(|l| l.to_string()),
        short_definitions: defs.map(strings),
        stems: strings(stems),
    }
}

#[test]
fn records_become_a_word() {
    let entries = vec![
        entry(Some("noun"), Some(&["a fruit", "a tree"]), &["apple", "apples"]),
        entry(None, None, &["apple of my eye"]),
        entry(None, Some(&["of apples"]), &["apple-like"]),
        entry(Some("verb"), Some(&[]), &["appled"]),
    ];
    let got = word_info_from_entries("apple", &entries).unwrap();
    assert_eq!(
        got,
        WordInfo {
            word: "apple".to_string(),
            stems: strings(&["apple", "apples", "apple of my eye", "apple-like", "appled"]),
            defs: vec![
                Def {
                    definitions: strings(&["a fruit", "a tree"]),
                    functional_label: "noun".to_string(),
                },
                Def { definitions: strings(&["of apples"]), functional_label: String::new() },
            ],
        }
    );
}

#[test]
fn records_without_definitions_fail_the_lookup() {
    assert_eq!(
        word_info_from_entries("apple", &[]),
        Err(DictionaryError::LookupFailed("apple".to_string()))
    );
    let entries = vec![entry(Some("noun"), None, &["apple"]), entry(Some("noun"), Some(&[]), &[])];
    assert_eq!(
        word_info_from_entries("apple", &entries),
        Err(DictionaryError::LookupFailed("apple".to_string()))
    );
}

#[test]
fn keys_are_the_word_and_its_stems_in_lower_case() {
    assert_eq!(
        keys_of(&info("Apple", &["Apples", "APPLE PIE", "äpfel"])),
        strings(&["apple", "apples", "apple pie", "äpfel"])
    );
    assert_eq!(keys_of(&info("ÉCOLE", &[])), strings(&["école"]));
}

#[test]
fn copies_are_equal() {
    let w = info("apple", &["apple", "apples"]);
    assert_eq!(w.copied(), w);
    assert_eq!(w.defs[0].copied(), w.defs[0]);
    assert_eq!(copy_texts(&w.stems), w.stems);
}

#[test]
fn chain_takes_words_that_share_no_stem() {
    let chain = Chain::new();
    assert_eq!(chain.len(), 0);
    assert!(chain.last().is_none());
    let (chain, added) = chain.push(info("run", &["run", "running", "ran"]));
    assert!(added);
    let (chain, added) = chain.push(info("walk", &["walk", "walked"]));
    assert!(added);
    assert_eq!(chain.len(), 2);
    assert_eq!(chain.last().unwrap().word, "walk");
    assert_eq!(chain.words().len(), 2);
    assert_eq!(chain.words()[0].word, "run");
    assert_eq!(chain.keys(), &strings(&["run", "run", "running", "ran", "walk", "walk", "walked"]));
}

#[test]
fn chain_refuses_a_word_that_shares_a_stem() {
    let (chain, _) = Chain::new().push(info("run", &["run", "running", "ran"]));
    assert!(chain.uses(&info("running", &["run", "running"])));
    assert!(chain.uses(&info("ran", &[])));
    assert!(chain.uses(&info("RUN", &[])));
    assert!(chain.uses(&info("sprint", &["Running"])));
    assert!(!chain.uses(&info("walk", &["walk", "walked"])));
    let (chain, added) = chain.push(info("running", &["run", "running"]));
    assert!(!added);
    assert_eq!(chain.len(), 1);
    assert_eq!(chain.last().unwrap().word, "run");
}

#[test]
fn chain_refuses_the_same_word_whatever_its_stems() {
    let (chain, _) = Chain::new().push(info("apple", &["apple"]));
    let (chain, added) = chain.push(info("apple", &[]));
    assert!(!added);
    assert_eq!(chain.len(), 1);
}

#[test]
fn no_two_words_of_a_chain_share_a_key() {
    let mut chain = Chain::new();
    let offered = [
        info("run", &["run", "ran"]),
        info("ran", &["ran"]),
        info("walk", &["walk"]),
        info("Walk", &[]),
        info("fly", &["flew", "run"]),
        info("swim", &["swam"]),
    ];
    for w in offered {
        chain = chain.push(w).0;
    }
    let words = chain.words();
    assert_eq!(words.len(), 3);
    for i in 0..words.len() {
        for j in 0..words.len() {
            if i != j {
                let a = keys_of(&words[i]);
                let b = keys_of(&words[j]);
                assert!(!a.iter().any(|k| b.contains(k)));
            }
        }
    }
}

#[test]
fn copy_of_a_chain_holds_the_same_words() {
    let (chain, _) = Chain::new().push(info("run", &["run"]));
    let copy = chain.clone();
    assert_eq!(copy.words(), chain.words());
    assert_eq!(copy.keys(), chain.keys());
}
