//! A game session: the state of a game and whose turn it is, and the
//! transitions that a move brings about.

use vstd::prelude::*;
use crate::chain::{is_used, no_shared_stems};
use crate::dictionary::{DictionaryError, WordInfo, WordInfoView};
use crate::embeddings::{holds, is_candidate, rejects, EmbeddingIndex, Row};
use crate::letters::{contains_forbidden_chars, has_forbidden};
use crate::random::{choose_forbidden_letters, is_small_letter, may_begin, random_word};
use crate::response::{answers, search_begun, search_outcome, select_response, SearchView};
use crate::rhyme::PhoneticDict;
use crate::rules::{
    byte_length, check_move, first_violation, judge_resolved, judged, normalize_input, normalized,
    previous_of, MoveError, Rule, Rules,
};
use crate::state::{Game, State, LADDER_START};

verus! {

/// Whose turn it is.
#[derive(Clone, Copy, Debug, PartialEq, Eq)]
pub enum Turn {
    Human,
    Machine,
}

/// A game session.
#[derive(Clone, Debug)]
pub struct GameSession {
    pub state: State,
    pub turn: Turn,
}

/// What became of the player's word.
#[derive(Clone, Copy, Debug, PartialEq, Eq)]
pub enum Played {
    /// The session does not take the word, and stays as it is.
    Refused,
    /// The word is in the chain, and the machine is to answer.
    Taken,
    /// The word is the last of the game, which ends.
    Finished,
}

/// What became of the machine's answer.
#[derive(Clone, Copy, Debug, PartialEq, Eq)]
pub enum Answered {
    /// It is not the machine's turn; the session stays as it is.
    OutOfTurn,
    /// The answer is in the chain, and the player is to move.
    Played,
    /// The machine has no answer that the session takes: the player wins,
    /// and the game ends.
    HumanWins,
}

/// What a turn came to.
#[derive(Clone, Debug, PartialEq, Eq)]
pub enum TurnOutcome {
    /// No game is played, or it is not the player's turn.
    NotPlaying,
    /// The move was turned down; the session stays as it is.
    Rejected(MoveError),
    /// The player's word was the last of the game.
    Finished(WordInfo),
    /// The player's word was taken, and the machine found no answer.
    HumanWins(WordInfo),
    /// The player's word and the machine's answer were taken.
    Continued(WordInfo, WordInfo),
}

impl GameSession {
    /// What holds of every session: its state is well formed, and without a
    /// game it is the player's turn.
    pub open spec fn wf(self) -> bool {
        self.state.wf() && (self.state is Start ==> self.turn is Human)
    }

    /// The player can move: a game is played, and it is the player's turn.
    pub open spec fn playing(self) -> bool {
        !(self.state is Start) && self.turn is Human
    }

    /// Two sessions of one game with the same rules, chain and turn.
    pub open spec fn unchanged(self, other: GameSession) -> bool {
        &&& self.state.same_game(other.state)
        &&& self.state.chain_view() == other.state.chain_view()
        &&& self.turn == other.turn
    }

    /// The session without a game.
    pub open spec fn is_over(self) -> bool {
        self.state is Start && self.turn is Human
    }

    /// Tells whether the session is well formed.
    pub fn is_wf(&self) -> (b: bool)
        ensures
            b == self.wf(),
    {
        let started = match (&self.state, self.turn) {
            (State::Start, Turn::Machine) => false,
            _ => true,
        };
        started && self.state.is_wf()
    }

    /// The session with which a conversation begins.
    pub fn new() -> (session: GameSession)
        ensures
            session.is_over(),
    {
        GameSession { state: State::Start, turn: Turn::Human }
    }

    /// Begins a game with the machine's first word; the player is to move.
    pub fn begin(game: Game, first: WordInfo, forbidden_letters: Vec<char>) -> (session:
        GameSession)
        ensures
            session.wf(),
            session.turn is Human,
            if first@.word.len() == 0 || (game == Game::ForbiddenLetters && has_forbidden(
                first@.word,
                forbidden_letters@,
            )) {
                session.state is Start
            } else {
                session.state.begins(game, first@, forbidden_letters@)
            },
    {
        GameSession { state: State::begin(game, first, forbidden_letters), turn: Turn::Human }
    }

    /// Ends the game.
    pub fn stop(self) -> (session: GameSession)
        ensures
            session.is_over(),
    {
        GameSession::new()
    }

    /// Takes the player's word, where the player can move and the state
    /// takes the word. The game ends with the word where the state has
    /// reached its end; else the machine is to answer.
    pub fn human_move(self, info: WordInfo) -> (r: (GameSession, Played))
        requires
            self.wf(),
        ensures
            r.0.wf(),
            no_shared_stems(r.0.state.chain_view()),
            match r.1 {
                Played::Refused => !(self.turn is Human && self.state.takes(info@))
                    && r.0.unchanged(self),
                Played::Taken => self.turn is Human && self.state.takes(info@)
                    && !self.state.finished() && r.0.turn is Machine && r.0.state.same_game(
                    self.state,
                ) && r.0.state.chain_view() == self.state.chain_view().push(info@),
                Played::Finished => self.turn is Human && self.state.takes(info@)
                    && self.state.finished() && r.0.is_over(),
            },
    {
        let GameSession { state, turn } = self;
        match turn {
            Turn::Machine => {
                let _ = state.chain_len();
                (GameSession { state, turn: Turn::Machine }, Played::Refused)
            },
            Turn::Human => {
                let (state, added) = state.accept(info);
                if !added {
                    (GameSession { state, turn: Turn::Human }, Played::Refused)
                } else if state.is_finished() {
                    assert(no_shared_stems(Seq::<WordInfoView>::empty()));
                    (GameSession::new(), Played::Finished)
                } else {
                    (GameSession { state, turn: Turn::Machine }, Played::Taken)
                }
            },
        }
    }

    /// Takes the machine's answer, where it is the machine's turn. The
    /// player wins, and the game ends, where the machine has no answer or
    /// the state does not take it; else the rules advance and the player is
    /// to move.
    pub fn machine_move(self, answer: Option<WordInfo>) -> (r: (GameSession, Answered))
        requires
            self.wf(),
        ensures
            r.0.wf(),
            no_shared_stems(r.0.state.chain_view()),
            match r.1 {
                Answered::OutOfTurn => !(self.turn is Machine) && r.0.unchanged(self),
                Answered::HumanWins => self.turn is Machine && r.0.is_over() && (
                answer matches Some(info) ==> !(self.state.takes(info@) && info@.word.len() > 0)),
                Answered::Played => self.turn is Machine && r.0.turn is Human && (
                answer matches Some(info) && self.state.takes(info@) && info@.word.len() > 0
                    && r.0.state.chain_view() == self.state.chain_view().push(info@)
                    && r.0.state.rules() == self.state.advanced_rules(info@.word)
                    && r.0.state.game_of() == self.state.game_of() && r.0.state.limit()
                    == self.state.limit()),
            },
    {
        let GameSession { state, turn } = self;
        match turn {
            Turn::Human => {
                let _ = state.chain_len();
                (GameSession { state, turn: Turn::Human }, Answered::OutOfTurn)
            },
            Turn::Machine => {
                assert(no_shared_stems(Seq::<WordInfoView>::empty()));
                match answer {
                    None => (GameSession::new(), Answered::HumanWins),
                    Some(info) => {
                        let (state, added) = state.answer(info);
                        if added {
                            (GameSession { state, turn: Turn::Human }, Answered::Played)
                        } else {
                            (GameSession::new(), Answered::HumanWins)
                        }
                    },
                }
            },
        }
    }

    /// Plays a word in the player's place, where the player can move and
    /// the state takes the word. In a word ladder the word counts as the
    /// player's; in the other games it counts as the machine's answer, the
    /// rules advance, and the player is to move again.
    pub fn skip_move(self, info: WordInfo) -> (r: (GameSession, Played))
        requires
            self.wf(),
        ensures
            r.0.wf(),
            no_shared_stems(r.0.state.chain_view()),
            self.state is WordLengthLadder ==> match r.1 {
                Played::Refused => !(self.turn is Human && self.state.takes(info@))
                    && r.0.unchanged(self),
                Played::Taken => self.turn is Human && self.state.takes(info@)
                    && !self.state.finished() && r.0.turn is Machine && r.0.state.same_game(
                    self.state,
                ) && r.0.state.chain_view() == self.state.chain_view().push(info@),
                Played::Finished => self.turn is Human && self.state.takes(info@)
                    && self.state.finished() && r.0.is_over(),
            },
            !(self.state is WordLengthLadder) ==> match r.1 {
                Played::Refused => !(self.turn is Human && self.state.takes(info@) && info@.word.len()
                    > 0) && r.0.unchanged(self),
                Played::Taken => self.turn is Human && self.state.takes(info@) && info@.word.len()
                    > 0 && r.0.turn is Human && r.0.state.chain_view()
                    == self.state.chain_view().push(info@) && r.0.state.rules()
                    == self.state.advanced_rules(info@.word) && r.0.state.game_of()
                    == self.state.game_of(),
                Played::Finished => false,
            },
    {
        let ladder = match &self.state {
            State::WordLengthLadder { .. } => true,
            _ => false,
        };
        if ladder {
            return self.human_move(info);
        }
        let GameSession { state, turn } = self;
        match turn {
            Turn::Machine => {
                let _ = state.chain_len();
                (GameSession { state, turn: Turn::Machine }, Played::Refused)
            },
            Turn::Human => {
                let (state, added) = state.answer(info);
                if added {
                    (GameSession { state, turn: Turn::Human }, Played::Taken)
                } else {
                    (GameSession { state, turn: Turn::Human }, Played::Refused)
                }
            },
        }
    }
}

/// What validating a move comes to, where the dictionary is asked through
/// `resolve`: the verdict `r` on the text `candidate`.
pub open spec fn validated<F: Fn(&str) -> Result<WordInfo, DictionaryError>>(
    candidate: Seq<char>,
    chain: Seq<WordInfoView>,
    rules: Rules,
    index: Seq<Row>,
    dict: Map<Seq<char>, Seq<Seq<char>>>,
    resolve: F,
    r: Result<WordInfo, MoveError>,
) -> bool {
    match normalized(candidate) {
        None => r matches Err(MoveError::InvalidInput),
        Some(word) => match first_violation(word, previous_of(chain), rules, index, dict) {
            Some(rule) => r matches Err(MoveError::ConstraintViolation(broken)) && broken == rule,
            None => exists|s: &str, resolved: Result<WordInfo, DictionaryError>|
                s@ == word && resolve.ensures((s,), resolved) && judged(resolved, chain, r),
        },
    }
}

/// The move passed, but the dictionary made known a word that the state does
/// not take: one with a forbidden letter.
pub open spec fn answer_not_taken<F: Fn(&str) -> Result<WordInfo, DictionaryError>>(
    session: GameSession,
    input: Seq<char>,
    index: Seq<Row>,
    dict: Map<Seq<char>, Seq<Seq<char>>>,
    resolve: F,
    e: MoveError,
) -> bool {
    e == MoveError::ConstraintViolation(Rule::ForbiddenChars) && exists|human: WordInfo|
        #![trigger human@]
        validated(
            input,
            session.state.chain_view(),
            session.state.rules(),
            index,
            dict,
            resolve,
            Ok(human),
        ) && !session.state.takes(human@)
}

/// The search for the machine's answer as it begins, once the player's word
/// `human` is in the chain.
pub open spec fn answer_search(session: GameSession, input: Seq<char>, human: WordInfoView) -> SearchView {
    search_begun(
        normalized(input).unwrap(),
        session.state.answer_rules(normalized(input).unwrap()),
        session.state.chain_view().push(human),
        session.state.attempts_allowed(),
    )
}

/// The machine has no answer to the player's word `human`: the search for
/// one came to no valid word, or to a word that the state does not take,
/// since it holds a forbidden letter or no character.
pub open spec fn no_answer<F: Fn(&str) -> Result<WordInfo, DictionaryError>>(
    session: GameSession,
    input: Seq<char>,
    human: WordInfoView,
    index: Seq<Row>,
    dict: Map<Seq<char>, Seq<Seq<char>>>,
    resolve: F,
) -> bool {
    let chain = session.state.chain_view().push(human);
    let begun = answer_search(session, input, human);
    ||| search_outcome(resolve, begun, chain, index, dict, Err(MoveError::NoValidWord))
    ||| exists|machine: WordInfo|
        #![trigger machine@]
        search_outcome(resolve, begun, chain, index, dict, Ok(machine)) && (has_forbidden(
            machine@.word,
            session.state.rules().forbidden_chars,
        ) || machine@.word.len() == 0)
}

/// Plays a turn: the player's text is validated and its word taken into the
/// chain; then the machine's answer is selected and taken. The dictionary is
/// asked through `resolve`. A move that is turned down leaves the session as
/// it is; the game ends where the player's word is its last, or the machine
/// finds no answer.
pub fn apply<F>(
    session: GameSession,
    input: &str,
    index: &EmbeddingIndex,
    phonetics: &PhoneticDict,
    resolve: F,
) -> (r: (GameSession, TurnOutcome)) where F: Fn(&str) -> Result<WordInfo, DictionaryError>
    requires
        session.wf(),
        forall|s: &str| resolve.requires((s,)),
    ensures
        r.0.wf(),
        no_shared_stems(r.0.state.chain_view()),
        match r.1 {
            TurnOutcome::NotPlaying => !session.playing() && r.0.unchanged(session),
            TurnOutcome::Rejected(e) => session.playing() && r.0.unchanged(session) && (validated(
                input@,
                session.state.chain_view(),
                session.state.rules(),
                index@,
                phonetics@,
                resolve,
                Err(e),
            ) || answer_not_taken(session, input@, index@, phonetics@, resolve, e)),
            TurnOutcome::Finished(human) => session.playing() && session.state.finished()
                && r.0.is_over() && validated(
                input@,
                session.state.chain_view(),
                session.state.rules(),
                index@,
                phonetics@,
                resolve,
                Ok(human),
            ),
            TurnOutcome::HumanWins(human) => session.playing() && !session.state.finished()
                && r.0.is_over() && validated(
                input@,
                session.state.chain_view(),
                session.state.rules(),
                index@,
                phonetics@,
                resolve,
                Ok(human),
            ) && no_answer(session, input@, human@, index@, phonetics@, resolve),
            TurnOutcome::Continued(human, machine) => session.playing()
                && !session.state.finished() && r.0.playing() && validated(
                input@,
                session.state.chain_view(),
                session.state.rules(),
                index@,
                phonetics@,
                resolve,
                Ok(human),
            ) && r.0.state.chain_view() == session.state.chain_view().push(human@).push(machine@)
                && r.0.state.rules() == session.state.advanced_rules(machine@.word)
                && r.0.state.game_of() == session.state.game_of() && answers(
                resolve,
                normalized(input@).unwrap(),
                session.state.answer_rules(normalized(input@).unwrap()),
                index@,
                phonetics@,
                machine@,
            ) && search_outcome(
                resolve,
                answer_search(session, input@, human@),
                session.state.chain_view().push(human@),
                index@,
                phonetics@,
                Ok(machine),
            ),
        },
{
    let playing = match (&session.state, session.turn) {
        (State::Start, _) => false,
        (_, Turn::Machine) => false,
        (_, Turn::Human) => true,
    };
    if !playing {
        let _ = session.state.chain_len();
        return (session, TurnOutcome::NotPlaying);
    }
    let ghost chain_before = session.state.chain_view();
    let ghost rules_before = session.state.rules();
    let word = match normalize_input(input) {
        Ok(word) => word,
        Err(e) => {
            let _ = session.state.chain_len();
            return (session, TurnOutcome::Rejected(e));
        },
    };
    let constraints = session.state.constraints();
    let verdict = match session.state.chain() {
        Some(chain) => {
            match check_move(word.as_str(), chain, &constraints, index, phonetics) {
                Err(e) => Err(e),
                Ok(_) => {
                    let name = word.as_str();
                    let resolved = resolve(name);
                    let ghost kept = resolved;
                    let verdict = judge_resolved(resolved, chain);
                    assert(name@ == word@ && resolve.ensures((name,), kept) && judged(
                        kept,
                        chain_before,
                        verdict,
                    ));
                    verdict
                },
            }
        },
        None => Err(MoveError::InvalidInput),
    };
    assert(validated(input@, chain_before, rules_before, index@, phonetics@, resolve, verdict));
    let human = match verdict {
        Ok(info) => info,
        Err(e) => {
            let _ = session.state.chain_len();
            return (session, TurnOutcome::Rejected(e));
        },
    };
    let ghost before = session;
    let (session, played) = session.human_move(human.copied());
    match played {
        Played::Refused => {
            let e = MoveError::ConstraintViolation(Rule::ForbiddenChars);
            proof {
                assert(!before.state.takes(human@));
                assert(answer_not_taken(before, input@, index@, phonetics@, resolve, e));
            }
            (session, TurnOutcome::Rejected(e))
        },
        Played::Finished => (session, TurnOutcome::Finished(human)),
        Played::Taken => {
            let answer_rules = session.state.answer_constraints(word.as_str());
            let budget = session.state.attempt_budget();
            let found = match session.state.chain() {
                Some(chain) => select_response(
                    word.as_str(),
                    chain,
                    answer_rules,
                    index,
                    phonetics,
                    budget,
                    resolve,
                ),
                None => Err(MoveError::NoValidWord),
            };
            let ghost outcome = found;
            let ghost taken = session;
            proof {
                assert(taken.state.answer_rules(word@) == before.state.answer_rules(word@));
                assert(taken.state.attempts_allowed() == before.state.attempts_allowed());
                assert(search_outcome(
                    resolve,
                    answer_search(before, input@, human@),
                    before.state.chain_view().push(human@),
                    index@,
                    phonetics@,
                    outcome,
                ));
            }
            match found {
                Err(_) => {
                    let (session, _) = session.machine_move(None);
                    (session, TurnOutcome::HumanWins(human))
                },
                Ok(machine) => {
                    let (session, answered) = session.machine_move(Some(machine.copied()));
                    match answered {
                        Answered::Played => {
                            proof {
                                assert(taken.state.advanced_rules(machine@.word)
                                    == before.state.advanced_rules(machine@.word));
                            }
                            (session, TurnOutcome::Continued(human, machine))
                        },
                        _ => {
                            proof {
                                assert(outcome == Ok::<WordInfo, MoveError>(machine));
                                assert(has_forbidden(
                                    machine@.word,
                                    before.state.rules().forbidden_chars,
                                ) || machine@.word.len() == 0);
                            }
                            (GameSession::new(), TurnOutcome::HumanWins(human))
                        },
                    }
                },
            }
        },
    }
}

/// The number of tries that the start of a game makes to find its first
/// word.
pub const START_TRIES: usize = 3;

/// The number of letters that a game of forbidden letters forbids.
pub const FORBIDDEN_COUNT: usize = 1;

/// The first word of a game fits: it holds no forbidden letter in the game
/// of forbidden letters, and has the length of the first rung in a word
/// ladder.
pub open spec fn first_word_fits(game: Game, forbidden: Seq<char>, word: Seq<char>) -> bool {
    match game {
        Game::ForbiddenLetters => !has_forbidden(word, forbidden),
        Game::WordLengthLadder => byte_length(word) == LADDER_START,
        _ => true,
    }
}

/// Under some letter from `a` to `z` the index holds no word that fits as
/// the first word of the game.
pub open spec fn nowhere_to_begin(game: Game, forbidden: Seq<char>, index: Seq<Row>) -> bool {
    exists|c: char|
        #![trigger is_small_letter(c)]
        is_small_letter(c) && forall|j: int|
            #![trigger index[j]]
            is_candidate(index, c, j) ==> !first_word_fits(game, forbidden, index[j].word)
}

/// Tells whether a word fits as the first word of a game.
pub fn is_first_word(game: Game, forbidden: &[char], word: &str) -> (fits: bool)
    ensures
        fits == first_word_fits(game, forbidden@, word@),
{
    match game {
        Game::ForbiddenLetters => !contains_forbidden_chars(word, forbidden),
        Game::WordLengthLadder => word.as_bytes().len() == LADDER_START as usize,
        _ => true,
    }
}

/// The start of a game as plain values.
pub ghost struct StartView {
    /// The game that is begun.
    pub game: Game,
    /// The letters that the game forbids.
    pub forbidden: Seq<char>,
    /// The number of tries made.
    pub tries: nat,
}

/// The start of a game: the search for its first word, in a bounded number
/// of tries.
pub struct GameStart {
    game: Game,
    forbidden: Vec<char>,
    tries: usize,
}

impl View for GameStart {
    type V = StartView;

    closed spec fn view(&self) -> StartView {
        StartView { game: self.game, forbidden: self.forbidden@, tries: self.tries as nat }
    }
}

impl GameStart {
    /// The start of a game that forbids the letters given, where it is the
    /// game of forbidden letters, and no letter else.
    pub fn with_letters(game: Game, letters: Vec<char>) -> (start: GameStart)
        ensures
            start@.game == game,
            start@.tries == 0,
            start@.forbidden == if game == Game::ForbiddenLetters {
                letters@
            } else {
                Seq::<char>::empty()
            },
    {
        let forbidden = match game {
            Game::ForbiddenLetters => letters,
            _ => Vec::new(),
        };
        GameStart { game, forbidden, tries: 0 }
    }

    /// The start of a game. The game of forbidden letters forbids letters
    /// picked at random.
    pub fn new(game: Game) -> (start: GameStart)
        ensures
            start@.game == game,
            start@.tries == 0,
            game == Game::ForbiddenLetters ==> start@.forbidden.len() == FORBIDDEN_COUNT
                && start@.forbidden.no_duplicates() && forall|i: int|
                0 <= i < start@.forbidden.len() ==> is_small_letter(#[trigger] start@.forbidden[i]),
            game != Game::ForbiddenLetters ==> start@.forbidden.len() == 0,
    {
        match game {
            Game::ForbiddenLetters => GameStart::with_letters(
                game,
                choose_forbidden_letters(FORBIDDEN_COUNT),
            ),
            _ => GameStart::with_letters(game, Vec::new()),
        }
    }

    /// The game that is begun.
    pub fn game(&self) -> (game: Game)
        ensures
            game == self@.game,
    {
        self.game
    }

    /// The letters that the game forbids.
    pub fn forbidden_letters(&self) -> (letters: &Vec<char>)
        ensures
            letters@ == self@.forbidden,
    {
        &self.forbidden
    }

    /// The number of tries made.
    pub fn tries(&self) -> (n: usize)
        ensures
            n == self@.tries,
    {
        self.tries
    }

    /// Picks a letter from `a` to `z` at random, and under it a word of the
    /// index that fits as the first word; `NotFound` where no word under
    /// the letter fits.
    pub fn pick(&self, index: &EmbeddingIndex) -> (r: Result<String, DictionaryError>)
        ensures
            r matches Ok(word) ==> first_word_fits(self@.game, self@.forbidden, word@) && holds(
                index@,
                word@,
            ),
            r is Err ==> (r matches Err(DictionaryError::NotFound(_))) && nowhere_to_begin(
                self@.game,
                self@.forbidden,
                index@,
            ),
    {
        let test = |w: &str| -> (b: bool)
            ensures
                b == first_word_fits(self@.game, self@.forbidden, w@),
            { is_first_word(self.game, self.forbidden.as_slice(), w) };
        let r = random_word(index, test, None);
        proof {
            if r is Ok {
                let word = r->Ok_0@;
                let s = choose|s: &str| s@ == word && test.ensures((s,), true);
                assert(test.ensures((s,), true));
                let (c, j) = choose|c: char, j: int|
                    #![trigger may_begin(None, c), index@[j]]
                    may_begin(None, c) && is_candidate(index@, c, j) && index@[j].word == word;
                assert(index@[j].word == word);
            } else {
                let c = choose|c: char|
                    #![trigger may_begin(None, c)]
                    may_begin(None, c) && forall|j: int|
                        #![trigger index@[j]]
                        is_candidate(index@, c, j) ==> rejects(test, index@[j].word);
                assert(is_small_letter(c));
                assert forall|j: int|
                    #![trigger index@[j]]
                    is_candidate(index@, c, j) implies !first_word_fits(
                    self@.game,
                    self@.forbidden,
                    index@[j].word,
                ) by {
                    let s = choose|s: &str| s@ == index@[j].word && test.ensures((s,), false);
                    assert(test.ensures((s,), false));
                }
            }
        }
        r
    }

    /// Makes the next try. While tries are left, one is made: a word picked
    /// at random that fits as the first word is the result; where none can
    /// be picked, the next try is made. Nothing where the tries are used up.
    pub fn next_word(&mut self, index: &EmbeddingIndex) -> (r: Option<String>)
        ensures
            final(self)@ == (StartView { tries: final(self)@.tries, ..old(self)@ }),
            r matches Some(word) ==> old(self)@.tries < final(self)@.tries <= START_TRIES
                && first_word_fits(old(self)@.game, old(self)@.forbidden, word@) && holds(
                index@,
                word@,
            ),
            r is None ==> final(self)@.tries >= START_TRIES && (old(self)@.tries <= START_TRIES
                ==> final(self)@.tries == START_TRIES) && (old(self)@.tries < START_TRIES
                ==> nowhere_to_begin(old(self)@.game, old(self)@.forbidden, index@)),
    {
        while self.tries < START_TRIES
            invariant
                self@ == (StartView { tries: self@.tries, ..old(self)@ }),
                old(self)@.tries <= self@.tries,
                old(self)@.tries <= START_TRIES ==> self@.tries <= START_TRIES,
                old(self)@.tries < self@.tries ==> nowhere_to_begin(
                    old(self)@.game,
                    old(self)@.forbidden,
                    index@,
                ),
            decreases START_TRIES - self.tries,
        {
            let picked = self.pick(index);
            self.tries = self.tries + 1;
            match picked {
                Ok(word) => {
                    return Some(word);
                },
                Err(_) => {},
            }
        }
        None
    }

    /// Begins the game with its first word; the player is to move. No game
    /// begins with a word without characters, nor the game of forbidden
    /// letters with a word that holds one of them.
    pub fn begin(&self, first: WordInfo) -> (session: GameSession)
        ensures
            session.wf(),
            session.turn is Human,
            if first@.word.len() == 0 || (self@.game == Game::ForbiddenLetters && has_forbidden(
                first@.word,
                self@.forbidden,
            )) {
                session.state is Start
            } else {
                session.state.begins(self@.game, first@, self@.forbidden)
            },
    {
        GameSession::begin(self.game, first, self.forbidden.clone())
    }
}

} // verus!
