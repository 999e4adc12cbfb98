use wordplay::rhyme::{get_rhyme_suffix, load_cmu_dict, rhymes, same_texts, PhoneticDict};

const DICT: &str = ";;; a comment\nCAT  K AE1 T\nHAT  HH AE1 T\nBAT  B AE1 T\nSPLAT  S P L AE1 T\nDOG  D AO1 G\nA  AH0\n\nLONELY\nCAT(1)  K AE2 T\n";

fn strings(v: &[&str]) -> Vec<String> {
    v.iter().map(|s| s.to_string()).collect()
}

#[test]
fn dictionary_is_read_line_by_line() {
    let dict = load_cmu_dict(DICT);
    assert_eq!(dict.get("cat"), Some(&strings(&["K", "AE1", "T"])));
    assert_eq!(dict.get("a"), Some(&strings(&["AH0"])));
    assert_eq!(dict.get("cat(1)"), Some(&strings(&["K", "AE2", "T"])));
    assert_eq!(dict.get("lonely"), None);
    assert_eq!(dict.get(";;;"), None);
    assert_eq!(dict.get("CAT"), None);
}

#[test]
fn later_line_replaces_earlier_line() {
    let dict = load_cmu_dict("cat K AE1 T\ncat K AH0 T\n");
    assert_eq!(dict.get("cat"), Some(&strings(&["K", "AH0", "T"])));
}

#[test]
fn rhyme_suffix_is_the_last_phonemes_reversed() {
    let dict = load_cmu_dict(DICT);
    assert_eq!(get_rhyme_suffix("splat", &dict, 3), Some(strings(&["T", "AE1", "L"])));
    assert_eq!(get_rhyme_suffix("splat", &dict, 0), Some(strings(&[])));
    assert_eq!(get_rhyme_suffix("a", &dict, 3), Some(strings(&["AH0"])));
    assert_eq!(get_rhyme_suffix("cat", &dict, 7), Some(strings(&["T", "AE1", "K"])));
    assert_eq!(get_rhyme_suffix("cow", &dict, 3), None);
}

#[test]
fn words_rhyme_on_their_last_three_phonemes() {
    let mut dict = load_cmu_dict(DICT);
    dict.insert("combat".to_string(), strings(&["K", "AA1", "M", "B", "AE1", "T"]));
    assert!(rhymes("bat", "combat", &dict));
    assert!(rhymes("cat", "cat", &dict));
    assert!(!rhymes("cat", "hat", &dict));
    assert!(!rhymes("cat", "dog", &dict));
    assert!(!rhymes("cat", "cow", &dict));
    assert!(!rhymes("cow", "cat", &dict));
    assert!(!rhymes("cow", "cow", &dict));
}

#[test]
fn empty_dictionary_knows_nothing() {
    let dict = PhoneticDict::new();
    assert_eq!(dict.get("cat"), None);
    assert!(!rhymes("cat", "cat", &dict));
}

#[test]
fn lists_of_strings_compare() {
    assert!(same_texts(&strings(&["a", "b"]), &strings(&["a", "b"])));
    assert!(!same_texts(&strings(&["a", "b"]), &strings(&["a", "c"])));
    assert!(!same_texts(&strings(&["a"]), &strings(&["a", "b"])));
    assert!(same_texts(&strings(&[]), &strings(&[])));
}
