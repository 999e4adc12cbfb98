use wordplay::command::{command_action, parse_callback, score, CallbackType, Command, CommandAction};
use wordplay::dictionary::{Def, WordInfo};
use wordplay::letters::contains_forbidden_chars;
use wordplay::message::describe;
use wordplay::rules::Constraints;
use wordplay::state::{Game, State};

fn strings(v: &[&str]) -> Vec<String> {
    v.iter().map(|s| s.to_string()).collect()
}

fn info(word: &str) -> WordInfo {
    WordInfo {
        word: word.to_string(),
        stems: strings(&[word]),
        defs: vec![Def { definitions: strings(&["a thing"]), functional_label: "noun".to_string() }],
    }
}

fn no_rules() -> Constraints {
    Constraints {
        starting_char: None,
        forbidden_chars: vec![],
        min_shared_chars: None,
        required_length: None,
        rhyme_with: None,
        similarity_floor: None,
    }
}

fn words(state: &State) -> Vec<String> {
    state.chain().unwrap().words().iter().map(|w| w.word.clone()).collect()
}

#[test]
fn conversation_begins_without_a_game() {
    assert!(matches!(State::new(), State::Start));
    assert!(matches!(State::default(), State::Start));
    assert!(State::new().chain().is_none());
    assert_eq!(State::new().constraints(), no_rules());
    assert_eq!(describe(&State::new()), "No active game");
}

#[test]
fn word_chain_follows_the_last_letter() {
    let state = State::begin(Game::WordChain, info("apple"), vec![]);
    assert_eq!(state.constraints(), Constraints { starting_char: Some('e'), ..no_rules() });
    assert_eq!(state.attempt_budget(), 3);
    let (state, added) = state.accept(info("egg"));
    assert!(added);
    assert_eq!(state.constraints(), Constraints { starting_char: Some('e'), ..no_rules() });
    assert_eq!(
        state.answer_constraints("egg"),
        Constraints { starting_char: Some('g'), ..no_rules() }
    );
    let (state, added) = state.answer(info("goat"));
    assert!(added);
    assert_eq!(state.constraints(), Constraints { starting_char: Some('t'), ..no_rules() });
    assert_eq!(words(&state), strings(&["apple", "egg", "goat"]));
    assert_eq!(describe(&state), "Word Chain - Next letter: 't', Chain length: 3");
    assert!(!state.is_finished());
    assert!(matches!(state.stop(), State::Start));
}

#[test]
fn repeated_word_leaves_the_state_as_it_is() {
    let state = State::begin(Game::WordChain, info("apple"), vec![]);
    let (state, added) = state.accept(info("apple"));
    assert!(!added);
    assert_eq!(words(&state), strings(&["apple"]));
    let (state, added) = state.answer(info("Apple"));
    assert!(!added);
    assert_eq!(words(&state), strings(&["apple"]));
    assert_eq!(state.constraints(), Constraints { starting_char: Some('e'), ..no_rules() });
}

#[test]
fn answer_without_characters_is_not_taken() {
    let state = State::begin(Game::WordChain, info("apple"), vec![]);
    let (state, added) = state.answer(info(""));
    assert!(!added);
    assert_eq!(words(&state), strings(&["apple"]));
}

#[test]
fn no_game_takes_no_word() {
    let (state, added) = State::new().accept(info("apple"));
    assert!(!added);
    assert!(matches!(state, State::Start));
    let (state, added) = State::new().answer(info("apple"));
    assert!(!added);
    assert!(matches!(state, State::Start));
    assert!(matches!(State::begin(Game::WordChain, info(""), vec![]), State::Start));
}

#[test]
fn alphabet_sprint_keeps_its_letter() {
    let state = State::begin(Game::AlphabetSprint, info("apple"), vec![]);
    assert_eq!(state.constraints(), Constraints { starting_char: Some('a'), ..no_rules() });
    assert_eq!(
        state.answer_constraints("ant"),
        Constraints { starting_char: Some('a'), ..no_rules() }
    );
    let state = state.accept(info("ant")).0.answer(info("axe")).0;
    assert_eq!(state.constraints(), Constraints { starting_char: Some('a'), ..no_rules() });
    assert_eq!(describe(&state), "Alphabet Sprint - Current letter: 'a', Words: 3");
}

#[test]
fn scramble_asks_for_shared_letters() {
    let state = State::begin(Game::LastLetterScramble, info("stone"), vec![]);
    let rules =
        Constraints { starting_char: Some('e'), min_shared_chars: Some(3), ..no_rules() };
    assert_eq!(state.constraints(), rules);
    assert_eq!(
        state.answer_constraints("notes"),
        Constraints { starting_char: Some('s'), min_shared_chars: Some(3), ..no_rules() }
    );
    assert_eq!(
        describe(&state),
        "Last Letter Scramble - Level: 3, Next letter: 'e', Chain length: 1"
    );
}

#[test]
fn synonym_string_asks_for_similarity() {
    let state = State::begin(Game::SynonymString, info("big"), vec![]);
    assert_eq!(
        state.constraints(),
        Constraints { starting_char: Some('g'), similarity_floor: Some(8_000), ..no_rules() }
    );
    assert_eq!(state.attempt_budget(), 5);
    assert_eq!(describe(&state), "Synonym String - Next letter: 'g', Chain length: 1");
}

#[test]
fn word_ladder_grows_and_ends() {
    let mut state = State::begin(Game::WordLengthLadder, info("at"), vec![]);
    assert_eq!(
        state.constraints(),
        Constraints { starting_char: Some('t'), required_length: Some(2), ..no_rules() }
    );
    assert_eq!(
        state.answer_constraints("to"),
        Constraints { starting_char: Some('o'), required_length: Some(3), ..no_rules() }
    );
    assert_eq!(
        describe(&state),
        "Word Length Ladder - Current length: 2, Max length: 8, Next letter: 't', Chain length: 1"
    );
    let rounds = [("to", "owl"), ("lag", "gold"), ("dome", "eagle")];
    for (player, machine) in rounds {
        assert!(!state.is_finished());
        state = state.accept(info(player)).0.answer(info(machine)).0;
    }
    assert_eq!(
        state.constraints(),
        Constraints { starting_char: Some('e'), required_length: Some(5), ..no_rules() }
    );
    if let State::WordLengthLadder { curr_len, max_len, .. } = &state {
        assert_eq!((*curr_len, *max_len), (5, 8));
    } else {
        panic!("not a word ladder");
    }
    for (player, machine) in [("e5555", "f66666"), ("g66666", "h777777"), ("i777777", "j8888888")] {
        state = state.accept(info(player)).0.answer(info(machine)).0;
    }
    assert!(state.is_finished());
}

#[test]
fn forbidden_letters_stay_out_of_the_chain() {
    let state = State::begin(Game::ForbiddenLetters, info("stone"), vec!['a', 'x']);
    assert_eq!(
        state.constraints(),
        Constraints { starting_char: Some('e'), forbidden_chars: vec!['a', 'x'], ..no_rules() }
    );
    assert_eq!(state.attempt_budget(), 5);
    let (state, added) = state.accept(info("eat"));
    assert!(!added);
    let (state, added) = state.accept(info("egg"));
    assert!(added);
    let (state, added) = state.answer(info("gax"));
    assert!(!added);
    let (state, added) = state.answer(info("gun"));
    assert!(added);
    assert_eq!(words(&state), strings(&["stone", "egg", "gun"]));
    for w in words(&state) {
        assert!(!contains_forbidden_chars(&w, &['a', 'x']));
    }
    assert_eq!(
        describe(&state),
        "Forbidden Letters - Forbidden: 'ax', Next letter: 'n', Chain length: 3"
    );
    assert!(matches!(State::begin(Game::ForbiddenLetters, info("axe"), vec!['a']), State::Start));
}

#[test]
fn commands_outside_a_game() {
    let state = State::new();
    assert_eq!(command_action(&state, Command::Start), CommandAction::ShowMenu);
    assert_eq!(command_action(&state, Command::Play), CommandAction::AnnounceRandomGame);
    assert_eq!(command_action(&state, Command::Hint), CommandAction::AskToStartGame);
    assert_eq!(command_action(&state, Command::Skip), CommandAction::AskToStartGame);
    assert_eq!(command_action(&state, Command::Score), CommandAction::AskToStartGame);
    assert_eq!(command_action(&state, Command::Stop), CommandAction::AskToStartGame);
    assert_eq!(command_action(&state, Command::Rules), CommandAction::ShowAllRules);
    assert_eq!(command_action(&state, Command::Stats), CommandAction::ShowStats);
}

#[test]
fn commands_in_a_game() {
    let state = State::begin(Game::WordChain, info("apple"), vec![]);
    assert_eq!(command_action(&state, Command::Start), CommandAction::AskToStopGame);
    assert_eq!(command_action(&state, Command::Play), CommandAction::AskToStopGame);
    assert_eq!(command_action(&state, Command::Stats), CommandAction::AskToStopGame);
    assert_eq!(command_action(&state, Command::Hint), CommandAction::GiveHint);
    assert_eq!(command_action(&state, Command::Skip), CommandAction::SkipTurn);
    assert_eq!(command_action(&state, Command::Score), CommandAction::ShowScore);
    assert_eq!(command_action(&state, Command::Rules), CommandAction::ShowGameRules);
    assert_eq!(command_action(&state, Command::Stop), CommandAction::StopGame);
}

#[test]
fn score_splits_the_chain() {
    assert_eq!(score(0), (0, 0));
    assert_eq!(score(1), (0, 1));
    assert_eq!(score(2), (1, 1));
    assert_eq!(score(7), (3, 4));
}

#[test]
fn callbacks_are_read() {
    assert_eq!(parse_callback("word_chain"), CallbackType::GameSelect("word_chain"));
    assert_eq!(parse_callback("last_letter"), CallbackType::GameSelect("last_letter"));
    assert_eq!(
        parse_callback("def_apple_2"),
        CallbackType::Definition { word: "apple", index: 2 }
    );
    assert_eq!(
        parse_callback("def_apple_2_more"),
        CallbackType::Definition { word: "apple", index: 2 }
    );
    assert_eq!(parse_callback("def__0"), CallbackType::Definition { word: "", index: 0 });
    assert_eq!(
        parse_callback("def_école_10"),
        CallbackType::Definition { word: "école", index: 10 }
    );
    assert_eq!(parse_callback("def_apple"), CallbackType::Unknown("def_apple"));
    assert_eq!(parse_callback("def_apple_x"), CallbackType::Unknown("def_apple_x"));
    assert_eq!(parse_callback("def_apple_"), CallbackType::Unknown("def_apple_"));
    assert_eq!(parse_callback("def_a_b_1"), CallbackType::Unknown("def_a_b_1"));
    assert_eq!(parse_callback("def_"), CallbackType::Unknown("def_"));
    assert_eq!(parse_callback("chess"), CallbackType::Unknown("chess"));
    assert_eq!(parse_callback(""), CallbackType::Unknown(""));
}

#[test]
fn games_have_names() {
    let games = [
        (Game::WordChain, "word_chain"),
        (Game::AlphabetSprint, "alphabet_sprint"),
        (Game::LastLetterScramble, "last_letter"),
        (Game::SynonymString, "synonym_string"),
        (Game::WordLengthLadder, "word_ladder"),
        (Game::ForbiddenLetters, "forbidden_letters"),
    ];
    for (game, name) in games {
        assert_eq!(game.name(), name);
        assert_eq!(Game::from_name(name), Some(game));
    }
    assert_eq!(Game::from_name("rhyme_time"), None);
}
