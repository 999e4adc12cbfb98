use wordplay::cosine::SCORE_ONE;
use wordplay::embeddings::{
    get_similar_word, is_bounded, is_usable, is_valid_word, letter_of, parse_line, parse_rows,
    similarity, skipped_lines, words_under, EmbeddingError, EmbeddingIndex, WordVector,
};

const TABLE: &str = "cat 1 0\ncar 0.9 0.1\ndog 0 1\n";

fn row(word: &str, vector: Vec<i32>) -> WordVector {
    WordVector { word: word.to_string(), vector }
}

fn chars(s: &str) -> Vec<char> {
    s.chars().collect()
}

#[test]
fn most_similar_to_cat_among_c_words_but_cat_is_car() {
    let index = EmbeddingIndex::load(TABLE);
    let found = get_similar_word(&index, "cat", 'c', |w| w != "cat");
    assert_eq!(found, Ok("car".to_string()));
}

#[test]
fn most_similar_word_may_be_the_word_itself() {
    let index = EmbeddingIndex::load(TABLE);
    assert_eq!(get_similar_word(&index, "cat", 'c', |_| true), Ok("cat".to_string()));
}

#[test]
fn most_similar_word_passes_the_test() {
    let index = EmbeddingIndex::load("aa 1 0\nab 0.9 0.1\nac 0.5 0.5\nad 0 1\nb 1 0\n");
    for banned in ["aa", "ab", "ac", "ad"] {
        let found = get_similar_word(&index, "b", 'a', |w| w != banned).unwrap();
        assert_ne!(found, banned);
        assert!(found.starts_with('a'));
    }
    assert_eq!(get_similar_word(&index, "b", 'a', |w| w.ends_with('d')), Ok("ad".to_string()));
}

#[test]
fn first_of_equally_similar_words_is_found() {
    let index = EmbeddingIndex::load("x 1 0\nay 2 0\naz 3 0\naw 1 1\n");
    assert_eq!(get_similar_word(&index, "x", 'a', |_| true), Ok("ay".to_string()));
    assert_eq!(get_similar_word(&index, "x", 'a', |w| w != "ay"), Ok("az".to_string()));
}

#[test]
fn a_word_that_points_the_other_way_can_be_found() {
    let index = EmbeddingIndex::load("x 1 0\nay -1 0\n");
    assert_eq!(get_similar_word(&index, "x", 'a', |_| true), Ok("ay".to_string()));
}

#[test]
fn no_match_where_no_word_passes() {
    let index = EmbeddingIndex::load(TABLE);
    assert_eq!(get_similar_word(&index, "cat", 'c', |_| false), Err(EmbeddingError::NoMatch('c')));
    assert_eq!(get_similar_word(&index, "cat", 'z', |_| true), Err(EmbeddingError::NoMatch('z')));
}

#[test]
fn invalid_word_where_the_reference_is_not_indexed() {
    let index = EmbeddingIndex::load(TABLE);
    assert_eq!(
        get_similar_word(&index, "cow", 'c', |_| true),
        Err(EmbeddingError::InvalidWord("cow".to_string()))
    );
    assert_eq!(
        get_similar_word(&index, "", 'c', |_| true),
        Err(EmbeddingError::InvalidWord(String::new()))
    );
}

#[test]
fn words_of_the_table_are_valid() {
    let index = EmbeddingIndex::load(TABLE);
    assert!(is_valid_word(&index, "cat"));
    assert!(is_valid_word(&index, "car"));
    assert!(is_valid_word(&index, "dog"));
    assert!(!is_valid_word(&index, "cow"));
    assert!(!is_valid_word(&index, ""));
    assert!(!is_valid_word(&index, "Cat"));
    assert_eq!(index.len(), 3);
}

#[test]
fn similarity_of_a_word_with_itself_is_full_score() {
    let index = EmbeddingIndex::load(TABLE);
    for w in ["cat", "car", "dog"] {
        assert_eq!(similarity(&index, w, w), Ok(SCORE_ONE));
    }
}

#[test]
fn similarity_scores() {
    let index = EmbeddingIndex::load(TABLE);
    assert_eq!(similarity(&index, "cat", "car"), Ok(9_938));
    assert_eq!(similarity(&index, "car", "cat"), Ok(9_938));
    assert_eq!(similarity(&index, "cat", "dog"), Ok(0));
    assert_eq!(similarity(&index, "car", "dog"), Ok(1_104));
}

#[test]
fn similarity_of_zero_vector_is_zero() {
    let index = EmbeddingIndex::load("zero 0 0\none 1 0\n");
    assert_eq!(similarity(&index, "zero", "one"), Ok(0));
    assert_eq!(similarity(&index, "zero", "zero"), Ok(0));
}

#[test]
fn similarity_names_the_first_word_that_is_not_indexed() {
    let index = EmbeddingIndex::load(TABLE);
    assert_eq!(
        similarity(&index, "cow", "cat"),
        Err(EmbeddingError::InvalidWord("cow".to_string()))
    );
    assert_eq!(
        similarity(&index, "cat", "cow"),
        Err(EmbeddingError::InvalidWord("cow".to_string()))
    );
    assert_eq!(
        similarity(&index, "ant", "cow"),
        Err(EmbeddingError::InvalidWord("ant".to_string()))
    );
    assert_eq!(similarity(&index, "", "cat"), Err(EmbeddingError::InvalidWord(String::new())));
}

#[test]
fn malformed_rows_are_left_out() {
    let index = EmbeddingIndex::load("cat 1 0\n\nbad 1 x\n   \ncar 0.9 0.1\nbig 1e3 0\n");
    assert_eq!(index.len(), 2);
    assert!(is_valid_word(&index, "cat"));
    assert!(is_valid_word(&index, "car"));
    assert!(!is_valid_word(&index, "bad"));
    assert!(!is_valid_word(&index, "big"));
}

#[test]
fn rows_of_another_width_are_left_out() {
    let index = EmbeddingIndex::load("cat 1 0\nlong 1 0 0\nshort 1\ndog 0 1\n");
    assert_eq!(index.len(), 2);
    assert!(!is_valid_word(&index, "long"));
    assert!(!is_valid_word(&index, "short"));
}

#[test]
fn rows_out_of_range_are_left_out() {
    let index = EmbeddingIndex::load("far 51 0\ncat 1 0\n");
    assert_eq!(index.len(), 1);
    assert!(is_valid_word(&index, "cat"));
}

#[test]
fn later_row_of_a_word_counts() {
    let index = EmbeddingIndex::load("cat 1 0\ndog 0 1\ncat 0 1\n");
    assert_eq!(index.len(), 2);
    assert_eq!(similarity(&index, "cat", "dog"), Ok(SCORE_ONE));
}

#[test]
fn carriage_returns_do_not_count() {
    let index = EmbeddingIndex::load("cat 1 0\r\ncar 0.9 0.1\r\n");
    assert!(is_valid_word(&index, "cat"));
    assert!(is_valid_word(&index, "car"));
    assert_eq!(similarity(&index, "cat", "car"), Ok(9_938));
}

#[test]
fn words_under_letters_in_any_order_of_rows() {
    let index = EmbeddingIndex::load("bat 1 0\nant 1 1\nbee 0 1\nape 1 0\ncow 1 1\nbug 1 1\n");
    assert_eq!(index.len(), 6);
    assert_eq!(index.words(), vec!["ant", "ape", "bat", "bee", "bug", "cow"]);
    assert_eq!(words_under(&index, 'a', |_| true), vec!["ant", "ape"]);
    assert_eq!(words_under(&index, 'b', |_| true), vec!["bat", "bee", "bug"]);
    assert_eq!(words_under(&index, 'c', |_| true), vec!["cow"]);
    assert_eq!(words_under(&index, 'd', |_| true), Vec::<String>::new());
    assert_eq!(words_under(&index, 'b', |w| w.contains('e')), vec!["bee"]);
    for w in ["bat", "ant", "bee", "ape", "cow", "bug"] {
        assert!(is_valid_word(&index, w));
    }
}

#[test]
fn empty_table_gives_empty_index() {
    let index = EmbeddingIndex::load("");
    assert_eq!(index.len(), 0);
    assert!(!is_valid_word(&index, "cat"));
    assert_eq!(EmbeddingIndex::new().len(), 0);
}

#[test]
fn index_from_rows() {
    let index = EmbeddingIndex::from_rows(vec![
        row("", vec![1, 2]),
        row("far", vec![600_000, 0]),
        row("cat", vec![10_000, 0]),
        row("dog", vec![0, 10_000]),
        row("eel", vec![1, 2, 3]),
    ]);
    assert_eq!(index.len(), 2);
    assert_eq!(similarity(&index, "cat", "dog"), Ok(0));
}

#[test]
fn lines_are_rows() {
    assert_eq!(parse_line(&chars("cat 1 0")), Some(row("cat", vec![10_000, 0])));
    assert_eq!(parse_line(&chars("  cat\t-0.5  ")), Some(row("cat", vec![-5_000])));
    assert_eq!(parse_line(&chars("cat")), Some(row("cat", vec![])));
    assert_eq!(parse_line(&chars("")), None);
    assert_eq!(parse_line(&chars("cat one")), None);
    assert_eq!(
        parse_rows("a 1\nb x\n\nc 2"),
        vec![row("a", vec![10_000]), row("c", vec![20_000])]
    );
}

#[test]
fn usable_rows() {
    assert!(is_usable(&row("a", vec![500_000, -500_000])));
    assert!(!is_usable(&row("", vec![1])));
    assert!(!is_usable(&row("a", vec![500_001])));
    assert!(is_bounded(&vec![0; 4096]));
    assert!(!is_bounded(&vec![0; 4097]));
    assert_eq!(letter_of("cat"), 'c');
    assert_eq!(letter_of(""), '_');
}

#[test]
fn words_of_the_index_ascend_in_their_letters() {
    let index = EmbeddingIndex::load("zoo 1\nyak 1\nant 1\nzip 1\nemu 1\nyak 2\n_x 1\nÉté 1\nBig 1\n");
    let words = index.words();
    assert_eq!(words, vec!["Big", "_x", "ant", "emu", "yak", "zoo", "zip", "Été"]);
    let letters: Vec<char> = words.iter().map(|w| letter_of(w)).collect();
    let mut sorted = letters.clone();
    sorted.sort();
    assert_eq!(letters, sorted);
}

#[test]
fn rows_with_exponents_are_read() {
    let index = EmbeddingIndex::load("cat 1e0 0.0\ncar 9e-1 1.0e-1\ndog 0 1\n");
    assert_eq!(index.len(), 3);
    assert_eq!(similarity(&index, "cat", "car"), Ok(9_938));
}

#[test]
fn lines_left_out_are_listed() {
    let text = "cat 1 0\n\nbad 1 x\n   \nfar 51 0\nlong 1 0 0\ncar 0.9 0.1\r\nlonely\n";
    assert_eq!(skipped_lines(text), vec![2, 4, 5, 7]);
    assert_eq!(EmbeddingIndex::load(text).len(), 2);
    assert_eq!(skipped_lines("cat 1 0\ndog 0 1\n"), Vec::<usize>::new());
    assert_eq!(skipped_lines(""), Vec::<usize>::new());
    assert_eq!(skipped_lines("x y\nz w\n"), vec![0, 1]);
}
