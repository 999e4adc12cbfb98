use wordplay::dictionary::{Def, DictionaryError, WordInfo};
use wordplay::embeddings::EmbeddingIndex;
use wordplay::rhyme::PhoneticDict;
use wordplay::rules::{Constraints, MoveError, Rule};
use wordplay::chain::Chain;
use wordplay::session::{
    apply, is_first_word, Answered, GameSession, GameStart, Played, Turn, TurnOutcome,
    FORBIDDEN_COUNT, START_TRIES,
};
use wordplay::state::{Game, State};

fn strings(v: &[&str]) -> Vec<String> {
    v.iter().map(|s| s.to_string()).collect()
}

fn info(word: &str) -> WordInfo {
    WordInfo {
        word: word.to_string(),
        stems: strings(&[word]),
        defs: vec![Def { definitions: strings(&["a thing"]), functional_label: "noun".to_string() }],
    }
}

fn known(word: &str) -> Result<WordInfo, DictionaryError> {
    Ok(info(word))
}

fn index() -> EmbeddingIndex {
    EmbeddingIndex::load(
        "apple 1 0\negg 0.9 0.1\neel 0.8 0.2\ngoat 0.7 0.3\ngull 0.6 0.4\nlamp 0.5 0.5\nto 0 1\nowl 1 1\n",
    )
}

fn words(session: &GameSession) -> Vec<String> {
    match session.state.chain() {
        Some(chain) => chain.words().iter().map(|w| w.word.clone()).collect(),
        None => vec![],
    }
}

#[test]
fn session_begins_with_the_players_turn() {
    let session = GameSession::new();
    assert!(matches!(session.state, State::Start));
    assert_eq!(session.turn, Turn::Human);
    let session = GameSession::begin(Game::WordChain, info("apple"), vec![]);
    assert!(matches!(session.state, State::WordChain { .. }));
    assert_eq!(session.turn, Turn::Human);
    assert_eq!(words(&session), strings(&["apple"]));
    let session = session.stop();
    assert!(matches!(session.state, State::Start));
}

#[test]
fn moves_alternate() {
    let session = GameSession::begin(Game::WordChain, info("apple"), vec![]);
    let (session, answered) = session.machine_move(Some(info("egg")));
    assert_eq!(answered, Answered::OutOfTurn);
    assert_eq!(words(&session), strings(&["apple"]));
    let (session, played) = session.human_move(info("egg"));
    assert_eq!(played, Played::Taken);
    assert_eq!(session.turn, Turn::Machine);
    let (session, played) = session.human_move(info("goat"));
    assert_eq!(played, Played::Refused);
    assert_eq!(session.turn, Turn::Machine);
    assert_eq!(words(&session), strings(&["apple", "egg"]));
    let (session, answered) = session.machine_move(Some(info("goat")));
    assert_eq!(answered, Answered::Played);
    assert_eq!(session.turn, Turn::Human);
    assert_eq!(words(&session), strings(&["apple", "egg", "goat"]));
    assert_eq!(session.state.constraints().starting_char, Some('t'));
}

#[test]
fn repeated_word_is_refused_and_the_session_stays() {
    let session = GameSession::begin(Game::WordChain, info("apple"), vec![]);
    let (session, played) = session.human_move(info("apple"));
    assert_eq!(played, Played::Refused);
    assert_eq!(session.turn, Turn::Human);
    assert_eq!(words(&session), strings(&["apple"]));
    let (session, played) = GameSession::new().human_move(info("apple"));
    assert_eq!(played, Played::Refused);
    assert!(matches!(session.state, State::Start));
}

#[test]
fn player_wins_where_the_machine_has_no_answer() {
    let session = GameSession::begin(Game::WordChain, info("apple"), vec![]);
    let (session, _) = session.human_move(info("egg"));
    let (session, answered) = session.machine_move(None);
    assert_eq!(answered, Answered::HumanWins);
    assert!(matches!(session.state, State::Start));
    assert_eq!(session.turn, Turn::Human);
    let session = GameSession::begin(Game::WordChain, info("apple"), vec![]);
    let (session, _) = session.human_move(info("egg"));
    let (session, answered) = session.machine_move(Some(info("egg")));
    assert_eq!(answered, Answered::HumanWins);
    assert!(matches!(session.state, State::Start));
}

#[test]
fn word_ladder_ends_with_the_longest_word() {
    let state = State::WordLengthLadder {
        curr_len: 8,
        max_len: 8,
        chain: Chain::new().push(info("at")).0,
        curr_char: 't',
    };
    let session = GameSession { state, turn: Turn::Human };
    let (session, played) = session.human_move(info("together"));
    assert_eq!(played, Played::Finished);
    assert!(matches!(session.state, State::Start));
    assert_eq!(session.turn, Turn::Human);
}

#[test]
fn skipped_turn_plays_a_word_for_the_player() {
    let session = GameSession::begin(Game::WordChain, info("apple"), vec![]);
    let (session, played) = session.skip_move(info("egg"));
    assert_eq!(played, Played::Taken);
    assert_eq!(session.turn, Turn::Human);
    assert_eq!(words(&session), strings(&["apple", "egg"]));
    assert_eq!(session.state.constraints().starting_char, Some('g'));
    let (session, played) = session.skip_move(info("egg"));
    assert_eq!(played, Played::Refused);
    assert_eq!(words(&session), strings(&["apple", "egg"]));
    let session = GameSession::begin(Game::WordLengthLadder, info("at"), vec![]);
    let (session, played) = session.skip_move(info("to"));
    assert_eq!(played, Played::Taken);
    assert_eq!(session.turn, Turn::Machine);
    assert_eq!(
        session.state.constraints(),
        Constraints {
            starting_char: Some('t'),
            forbidden_chars: vec![],
            min_shared_chars: None,
            required_length: Some(2),
            rhyme_with: None,
            similarity_floor: None,
        }
    );
}

#[test]
fn a_turn_takes_two_words() {
    let index = index();
    let dict = PhoneticDict::new();
    let session = GameSession::begin(Game::WordChain, info("apple"), vec![]);
    let (session, outcome) = apply(session, " Egg ", &index, &dict, known);
    assert_eq!(outcome, TurnOutcome::Continued(info("egg"), info("goat")));
    assert_eq!(words(&session), strings(&["apple", "egg", "goat"]));
    assert_eq!(session.turn, Turn::Human);
    assert_eq!(session.state.constraints().starting_char, Some('t'));
}

#[test]
fn a_rejected_turn_leaves_the_session() {
    let index = index();
    let dict = PhoneticDict::new();
    let session = GameSession::begin(Game::WordChain, info("apple"), vec![]);
    let (session, outcome) = apply(session, "two words", &index, &dict, known);
    assert_eq!(outcome, TurnOutcome::Rejected(MoveError::InvalidInput));
    let (session, outcome) = apply(session, "goat", &index, &dict, known);
    assert_eq!(outcome, TurnOutcome::Rejected(MoveError::ConstraintViolation(Rule::StartingChar)));
    let (session, outcome) = apply(session, "egg", &index, &dict, |w| {
        Err(DictionaryError::NotFound(w.to_string()))
    });
    assert_eq!(outcome, TurnOutcome::Rejected(MoveError::NotFound));
    let (session, outcome) = apply(session, "egg", &index, &dict, |_| known("apple"));
    assert_eq!(outcome, TurnOutcome::Rejected(MoveError::AlreadyUsed));
    assert_eq!(words(&session), strings(&["apple"]));
    assert_eq!(session.turn, Turn::Human);
    assert_eq!(session.state.constraints().starting_char, Some('e'));
}

#[test]
fn a_turn_without_an_answer_ends_the_game() {
    let index = index();
    let dict = PhoneticDict::new();
    let session = GameSession::begin(Game::WordChain, info("apple"), vec![]);
    let (session, outcome) = apply(session, "eel", &index, &dict, |w| {
        if w == "eel" {
            known(w)
        } else {
            Err(DictionaryError::LookupFailed(w.to_string()))
        }
    });
    assert_eq!(outcome, TurnOutcome::HumanWins(info("eel")));
    assert!(matches!(session.state, State::Start));
    let (session, outcome) = apply(session, "egg", &index, &dict, known);
    assert_eq!(outcome, TurnOutcome::NotPlaying);
    assert!(matches!(session.state, State::Start));
}

#[test]
fn a_turn_of_the_word_ladder() {
    let index = index();
    let dict = PhoneticDict::new();
    let session = GameSession::begin(Game::WordLengthLadder, info("at"), vec![]);
    let (session, outcome) = apply(session, "to", &index, &dict, known);
    assert_eq!(outcome, TurnOutcome::Continued(info("to"), info("owl")));
    assert_eq!(session.state.constraints().required_length, Some(3));
    assert_eq!(session.state.constraints().starting_char, Some('l'));
}

#[test]
fn forbidden_letters_never_enter_the_chain() {
    let index = index();
    let dict = PhoneticDict::new();
    let session = GameSession::begin(Game::ForbiddenLetters, info("apple"), vec!['o', 'u']);
    let (session, outcome) = apply(session, "egg", &index, &dict, |w| {
        if w == "egg" {
            known("ego")
        } else {
            known(w)
        }
    });
    assert_eq!(
        outcome,
        TurnOutcome::Rejected(MoveError::ConstraintViolation(Rule::ForbiddenChars))
    );
    assert_eq!(words(&session), strings(&["apple"]));
    let (session, outcome) = apply(session, "egg", &index, &dict, known);
    assert_eq!(outcome, TurnOutcome::HumanWins(info("egg")));
    assert!(matches!(session.state, State::Start));
    let session = GameSession::begin(Game::ForbiddenLetters, info("apple"), vec!['o']);
    let (session, outcome) = apply(session, "egg", &index, &dict, known);
    assert_eq!(outcome, TurnOutcome::Continued(info("egg"), info("gull")));
    assert_eq!(words(&session), strings(&["apple", "egg", "gull"]));
}

#[test]
fn sessions_and_states_are_tested_for_their_form() {
    assert!(GameSession::new().is_wf());
    assert!(GameSession::begin(Game::ForbiddenLetters, info("stone"), vec!['a']).is_wf());
    assert!(!GameSession { state: State::Start, turn: Turn::Machine }.is_wf());
    let chain = Chain::new().push(info("stone")).0.push(info("egg")).0;
    let good = State::ForbiddenLetters { forbidden_letters: vec!['a', 'x'], chain, curr_char: 'g' };
    assert!(good.is_wf());
    let chain = Chain::new().push(info("stone")).0.push(info("eat")).0;
    let bad = State::ForbiddenLetters { forbidden_letters: vec!['a', 'x'], chain, curr_char: 't' };
    assert!(!bad.is_wf());
    assert!(!GameSession { state: bad, turn: Turn::Human }.is_wf());
    let chain = Chain::new().push(info("eat")).0;
    assert!(State::WordChain { chain, curr_char: 't' }.is_wf());
}

#[test]
fn first_words_fit_their_game() {
    assert!(is_first_word(Game::WordChain, &[], "anything"));
    assert!(is_first_word(Game::WordLengthLadder, &[], "at"));
    assert!(!is_first_word(Game::WordLengthLadder, &[], "ant"));
    assert!(is_first_word(Game::WordLengthLadder, &[], "é"));
    assert!(!is_first_word(Game::WordLengthLadder, &[], "éé"));
    assert!(is_first_word(Game::ForbiddenLetters, &['x'], "stone"));
    assert!(!is_first_word(Game::ForbiddenLetters, &['o'], "stone"));
    assert!(is_first_word(Game::SynonymString, &['o'], "stone"));
}

#[test]
fn a_game_start_makes_three_tries() {
    assert_eq!(START_TRIES, 3);
    let empty = EmbeddingIndex::new();
    let mut start = GameStart::new(Game::WordChain);
    assert_eq!(start.tries(), 0);
    assert_eq!(start.next_word(&empty), None);
    assert_eq!(start.tries(), 3);
    assert_eq!(start.next_word(&empty), None);
    assert_eq!(start.tries(), 3);
    let index = EmbeddingIndex::load("at 1 0\nant 0 1\nax 1 1\n");
    let mut start = GameStart::new(Game::WordLengthLadder);
    let mut given = 0;
    while let Some(word) = start.next_word(&index) {
        assert!(word == "at" || word == "ax");
        given += 1;
    }
    assert!(given <= 3);
    assert_eq!(start.tries(), 3);
}

#[test]
fn a_game_start_holds_its_forbidden_letters() {
    let start = GameStart::new(Game::ForbiddenLetters);
    assert_eq!(start.game(), Game::ForbiddenLetters);
    assert_eq!(start.forbidden_letters().len(), FORBIDDEN_COUNT);
    assert!(start.forbidden_letters()[0].is_ascii_lowercase());
    assert!(GameStart::new(Game::WordChain).forbidden_letters().is_empty());
    assert!(GameStart::with_letters(Game::WordChain, vec!['a']).forbidden_letters().is_empty());
    let start = GameStart::with_letters(Game::ForbiddenLetters, vec!['o']);
    assert_eq!(start.forbidden_letters(), &vec!['o']);
    let index = EmbeddingIndex::load("ant 1 0\naxe 0 1\nowl 1 1\nopt 1 1\n");
    for _ in 0..50 {
        match start.pick(&index) {
            Ok(word) => assert!(word == "ant" || word == "axe"),
            Err(_) => {}
        }
    }
    assert!(matches!(start.begin(info("stone")).state, State::Start));
    let session = start.begin(info("myth"));
    assert!(matches!(session.state, State::ForbiddenLetters { .. }));
    assert_eq!(session.state.constraints().forbidden_chars, vec!['o']);
    assert_eq!(session.turn, Turn::Human);
}
