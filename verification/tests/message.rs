use wordplay::command::{parse_callback, CallbackType};
use wordplay::dictionary::{Def, WordInfo};
use wordplay::message::{escape, make_button_data, Button};
use wordplay::dictionary::DictionaryError;
use wordplay::embeddings::EmbeddingError;
use wordplay::message::make_game_menu;

fn strings(v: &[&str]) -> Vec<String> {
    v.iter().map(|s| s.to_string()).collect()
}

fn apple() -> WordInfo {
    WordInfo {
        word: "apple".to_string(),
        stems: strings(&["apple"]),
        defs: vec![
            Def {
                definitions: strings(&["a fruit (round)", "a tree."]),
                functional_label: "noun".to_string(),
            },
            Def { definitions: strings(&["of apples"]), functional_label: "adj.".to_string() },
            Def { definitions: vec![], functional_label: String::new() },
        ],
    }
}

fn button(text: &str, data: &str) -> Button {
    Button { text: text.to_string(), data: data.to_string() }
}

#[test]
fn special_characters_are_escaped() {
    assert_eq!(escape("plain text"), "plain text");
    assert_eq!(escape("a_b*c"), "a\\_b\\*c");
    assert_eq!(escape("_*[]()~`>#+-=|{}.!"), "\\_\\*\\[\\]\\(\\)\\~\\`\\>\\#\\+\\-\\=\\|\\{\\}\\.\\!");
    assert_eq!(escape("\\ / : ; , ? @ $ % ^ & ' \""), "\\ / : ; , ? @ $ % ^ & ' \"");
    assert_eq!(escape(""), "");
}

#[test]
fn message_shows_the_definitions() {
    let (message, buttons) = apple().get_message(0);
    assert_eq!(message, "apple *__noun__*\n1\\. a fruit \\(round\\)\n2\\. a tree\\.");
    assert_eq!(buttons, vec![button("next", "def_apple_1")]);
    let (message, buttons) = apple().get_message(1);
    assert_eq!(message, "apple *__adj\\.__*\n1\\. of apples");
    assert_eq!(buttons, vec![button("prev", "def_apple_0"), button("next", "def_apple_2")]);
    let (message, buttons) = apple().get_message(2);
    assert_eq!(message, "apple *____*\n");
    assert_eq!(buttons, vec![button("prev", "def_apple_1")]);
}

#[test]
fn button_data_is_read_back() {
    assert_eq!(make_button_data("apple", 12), "def_apple_12");
    for idx in [0usize, 1, 9, 10, 123456] {
        let data = make_button_data("apple", idx);
        assert_eq!(parse_callback(&data), CallbackType::Definition { word: "apple", index: idx });
    }
}

#[test]
fn menu_has_three_rows_of_two_games() {
    let rows = make_game_menu();
    assert_eq!(
        rows,
        vec![
            vec![button("Word Chain", "word_chain"), button("Alphabet Sprint", "alphabet_sprint")],
            vec![
                button("Last Letter Scramble", "last_letter"),
                button("Synonym String", "synonym_string"),
            ],
            vec![
                button("Word Length Ladder", "word_ladder"),
                button("Forbidden Letters", "forbidden_letters"),
            ],
        ]
    );
}

#[test]
fn errors_tell_what_failed() {
    assert_eq!(EmbeddingError::InvalidWord("cow".to_string()).message(), "Invalid word: cow");
    assert_eq!(EmbeddingError::NoMatch('z').message(), "No match: no word under 'z' passed");
    assert_eq!(EmbeddingError::IoError("gone".to_string()).message(), "I/O error: gone");
    assert_eq!(DictionaryError::NotFound("cow".to_string()).message(), "Word 'cow' not found");
    assert_eq!(
        DictionaryError::LookupFailed("cow".to_string()).message(),
        "No usable definition of 'cow'"
    );
    assert_eq!(DictionaryError::StoreFailed("disk".to_string()).message(), "Cache error: disk");
}
