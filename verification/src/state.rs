//! The state of a game: its variant, its chain and the rules that the next
//! word must meet.

use vstd::prelude::*;
use crate::chain::{is_used, no_shared_stems, Chain};
use crate::dictionary::{WordInfo, WordInfoView};
use crate::letters::{contains_forbidden_chars, first_char, has_forbidden, last_char};
use crate::rules::{Constraints, Rules};

verus! {

/// The score that a word of the synonym game must reach with the word
/// before it: eight tenths.
pub const SYNONYM_FLOOR: i32 = 8_000;

/// The number of characters that a word of the scramble game shares with
/// the word before it.
pub const SCRAMBLE_LEVEL: u8 = 3;

/// The length of the first word of a word ladder.
pub const LADDER_START: u8 = 2;

/// The length at which a word ladder ends.
pub const LADDER_END: u8 = 8;

/// One of the games.
#[derive(Clone, Copy, Debug, PartialEq, Eq)]
pub enum Game {
    WordChain,
    AlphabetSprint,
    LastLetterScramble,
    SynonymString,
    WordLengthLadder,
    ForbiddenLetters,
}

/// The state of a conversation: no game, or a game with its chain.
#[derive(Clone, Debug)]
pub enum State {
    /// No game is played.
    Start,
    /// Each word begins with the last letter of the word before it.
    WordChain { chain: Chain, curr_char: char },
    /// All words begin with one letter.
    AlphabetSprint { alphabet: char, words: Chain },
    /// As the word chain; each word also shares letters with the word before
    /// it.
    LastLetterScramble { level: u8, chain: Chain, curr_char: char },
    /// As the word chain; each word is also similar to the word before it.
    SynonymString { chain: Chain, curr_char: char },
    /// As the word chain; each pair of words is longer than the pair before
    /// it.
    WordLengthLadder { curr_len: u8, max_len: u8, chain: Chain, curr_char: char },
    /// As the word chain; no word holds a forbidden letter.
    ForbiddenLetters { forbidden_letters: Vec<char>, chain: Chain, curr_char: char },
}

/// No word of the chain holds a forbidden letter.
pub open spec fn avoids(chain: Seq<WordInfoView>, forbidden: Seq<char>) -> bool {
    forall|i: int| 0 <= i < chain.len() ==> !has_forbidden((#[trigger] chain[i]).word, forbidden)
}

/// Rules that ask for nothing.
pub open spec fn no_rules() -> Rules {
    Rules {
        starting_char: None,
        forbidden_chars: Seq::empty(),
        min_shared_chars: None,
        required_length: None,
        rhyme_with: None,
        similarity_floor: None,
    }
}

/// The last character of a word, if it has one.
pub open spec fn last_of(word: Seq<char>) -> Option<char> {
    if word.len() > 0 {
        Some(word.last())
    } else {
        None
    }
}

impl State {
    /// What holds of every state of a game: in the game of forbidden
    /// letters, no word of the chain holds one of them.
    pub open spec fn wf(self) -> bool {
        match self {
            State::ForbiddenLetters { forbidden_letters, chain, curr_char } => avoids(
                chain@,
                forbidden_letters@,
            ),
            _ => true,
        }
    }

    /// The chain of the game; empty where no game is played.
    pub open spec fn chain_view(self) -> Seq<WordInfoView> {
        match self {
            State::Start => Seq::empty(),
            State::WordChain { chain, .. } => chain@,
            State::AlphabetSprint { words, .. } => words@,
            State::LastLetterScramble { chain, .. } => chain@,
            State::SynonymString { chain, .. } => chain@,
            State::WordLengthLadder { chain, .. } => chain@,
            State::ForbiddenLetters { chain, .. } => chain@,
        }
    }

    /// The game that is played, if any.
    pub open spec fn game_of(self) -> Option<Game> {
        match self {
            State::Start => None,
            State::WordChain { .. } => Some(Game::WordChain),
            State::AlphabetSprint { .. } => Some(Game::AlphabetSprint),
            State::LastLetterScramble { .. } => Some(Game::LastLetterScramble),
            State::SynonymString { .. } => Some(Game::SynonymString),
            State::WordLengthLadder { .. } => Some(Game::WordLengthLadder),
            State::ForbiddenLetters { .. } => Some(Game::ForbiddenLetters),
        }
    }

    /// The rules that the player's next word must meet.
    pub open spec fn rules(self) -> Rules {
        match self {
            State::Start => no_rules(),
            State::WordChain { curr_char, .. } => Rules {
                starting_char: Some(curr_char),
                ..no_rules()
            },
            State::AlphabetSprint { alphabet, .. } => Rules {
                starting_char: Some(alphabet),
                ..no_rules()
            },
            State::LastLetterScramble { level, curr_char, .. } => Rules {
                starting_char: Some(curr_char),
                min_shared_chars: Some(level as usize),
                ..no_rules()
            },
            State::SynonymString { curr_char, .. } => Rules {
                starting_char: Some(curr_char),
                similarity_floor: Some(SYNONYM_FLOOR),
                ..no_rules()
            },
            State::WordLengthLadder { curr_len, curr_char, .. } => Rules {
                starting_char: Some(curr_char),
                required_length: Some(curr_len as usize),
                ..no_rules()
            },
            State::ForbiddenLetters { forbidden_letters, curr_char, .. } => Rules {
                starting_char: Some(curr_char),
                forbidden_chars: forbidden_letters@,
                ..no_rules()
            },
        }
    }

    /// The rules that the machine's answer to `word` must meet: as the
    /// player's word, but it begins with the last letter of `word` (in the
    /// alphabet sprint, with the letter of the game), and in the word ladder
    /// it is one longer.
    pub open spec fn answer_rules(self, word: Seq<char>) -> Rules {
        match self {
            State::Start => no_rules(),
            State::AlphabetSprint { .. } => self.rules(),
            State::WordLengthLadder { curr_len, .. } => Rules {
                starting_char: last_of(word),
                required_length: Some((curr_len + 1) as usize),
                ..self.rules()
            },
            _ => Rules { starting_char: last_of(word), ..self.rules() },
        }
    }

    /// The number of attempts that the search for an answer may make.
    pub open spec fn attempts_allowed(self) -> nat {
        match self {
            State::SynonymString { .. } => 5,
            State::ForbiddenLetters { .. } => 5,
            _ => 3,
        }
    }

    /// The game has reached its end: a word ladder ends with the player's
    /// word of the greatest length.
    pub open spec fn finished(self) -> bool {
        match self {
            State::WordLengthLadder { curr_len, max_len, .. } => curr_len >= max_len,
            _ => false,
        }
    }

    /// The state with which a conversation begins.
    pub fn new() -> (state: State)
        ensures
            state is Start,
    {
        State::Start
    }

    /// The chain of the game.
    pub fn chain(&self) -> (chain: Option<&Chain>)
        ensures
            self is Start ==> chain is None,
            !(self is Start) ==> (chain matches Some(c) && c@ == self.chain_view()),
    {
        match self {
            State::Start => None,
            State::WordChain { chain, .. } => Some(chain),
            State::AlphabetSprint { words, .. } => Some(words),
            State::LastLetterScramble { chain, .. } => Some(chain),
            State::SynonymString { chain, .. } => Some(chain),
            State::WordLengthLadder { chain, .. } => Some(chain),
            State::ForbiddenLetters { chain, .. } => Some(chain),
        }
    }

    /// The rules that the player's next word must meet.
    pub fn constraints(&self) -> (c: Constraints)
        ensures
            c@ == self.rules(),
    {
        let mut c = Constraints {
            starting_char: None,
            forbidden_chars: Vec::new(),
            min_shared_chars: None,
            required_length: None,
            rhyme_with: None,
            similarity_floor: None,
        };
        match self {
            State::Start => {},
            State::WordChain { curr_char, .. } => {
                c.starting_char = Some(*curr_char);
            },
            State::AlphabetSprint { alphabet, .. } => {
                c.starting_char = Some(*alphabet);
            },
            State::LastLetterScramble { level, curr_char, .. } => {
                c.starting_char = Some(*curr_char);
                c.min_shared_chars = Some(*level as usize);
            },
            State::SynonymString { curr_char, .. } => {
                c.starting_char = Some(*curr_char);
                c.similarity_floor = Some(SYNONYM_FLOOR);
            },
            State::WordLengthLadder { curr_len, curr_char, .. } => {
                c.starting_char = Some(*curr_char);
                c.required_length = Some(*curr_len as usize);
            },
            State::ForbiddenLetters { forbidden_letters, curr_char, .. } => {
                c.starting_char = Some(*curr_char);
                c.forbidden_chars = forbidden_letters.clone();
            },
        }
        c
    }

    /// The rules that the machine's answer to `word` must meet.
    pub fn answer_constraints(&self, word: &str) -> (c: Constraints)
        ensures
            c@ == self.answer_rules(word@),
    {
        let mut c = self.constraints();
        match self {
            State::Start => {},
            State::AlphabetSprint { .. } => {},
            State::WordLengthLadder { curr_len, .. } => {
                c.starting_char = last_char(word);
                c.required_length = Some(*curr_len as usize + 1);
            },
            _ => {
                c.starting_char = last_char(word);
            },
        }
        c
    }

    /// The number of attempts that the search for an answer may make.
    pub fn attempt_budget(&self) -> (n: usize)
        ensures
            n == self.attempts_allowed(),
    {
        match self {
            State::SynonymString { .. } => 5,
            State::ForbiddenLetters { .. } => 5,
            _ => 3,
        }
    }

    /// Tells whether the game has reached its end.
    pub fn is_finished(&self) -> (done: bool)
        ensures
            done == self.finished(),
    {
        match self {
            State::WordLengthLadder { curr_len, max_len, .. } => *curr_len >= *max_len,
            _ => false,
        }
    }
}

impl State {
    /// The greatest length of a word ladder.
    pub open spec fn limit(self) -> Option<u8> {
        match self {
            State::WordLengthLadder { max_len, .. } => Some(max_len),
            _ => None,
        }
    }

    /// Two states of one game with the same rules; their chains may differ.
    pub open spec fn same_game(self, other: State) -> bool {
        &&& self.game_of() == other.game_of()
        &&& self.rules() == other.rules()
        &&& self.limit() == other.limit()
    }

    /// The word `info` can be added to the chain: a game is played, no word
    /// of the chain shares a stem with it, and in the game of forbidden
    /// letters it holds none of them.
    pub open spec fn takes(self, info: WordInfoView) -> bool {
        &&& !(self is Start)
        &&& !is_used(self.chain_view(), info)
        &&& !has_forbidden(info.word, self.rules().forbidden_chars)
    }

    /// The state of `game` begun with the word `first`.
    pub open spec fn begins(self, game: Game, first: WordInfoView, forbidden: Seq<char>) -> bool {
        &&& self.game_of() == Some(game)
        &&& self.chain_view() == seq![first]
        &&& self.rules() == match game {
            Game::WordChain => Rules { starting_char: last_of(first.word), ..no_rules() },
            Game::AlphabetSprint => Rules { starting_char: Some(first.word[0]), ..no_rules() },
            Game::LastLetterScramble => Rules {
                starting_char: last_of(first.word),
                min_shared_chars: Some(SCRAMBLE_LEVEL as usize),
                ..no_rules()
            },
            Game::SynonymString => Rules {
                starting_char: last_of(first.word),
                similarity_floor: Some(SYNONYM_FLOOR),
                ..no_rules()
            },
            Game::WordLengthLadder => Rules {
                starting_char: last_of(first.word),
                required_length: Some(LADDER_START as usize),
                ..no_rules()
            },
            Game::ForbiddenLetters => Rules {
                starting_char: last_of(first.word),
                forbidden_chars: forbidden,
                ..no_rules()
            },
        }
        &&& self.limit() == if game == Game::WordLengthLadder {
            Some(LADDER_END)
        } else {
            None
        }
    }

    /// Begins a game with its first word. No game begins with a word without
    /// characters, nor the game of forbidden letters with a word that holds
    /// one of them.
    pub fn begin(game: Game, first: WordInfo, forbidden_letters: Vec<char>) -> (state: State)
        ensures
            state.wf(),
            if first@.word.len() == 0 || (game == Game::ForbiddenLetters && has_forbidden(
                first@.word,
                forbidden_letters@,
            )) {
                state is Start
            } else {
                state.begins(game, first@, forbidden_letters@)
            },
    {
        let initial = match first_char(first.word.as_str()) {
            Some(c) => c,
            None => {
                return State::Start;
            },
        };
        let curr_char = match last_char(first.word.as_str()) {
            Some(c) => c,
            None => {
                return State::Start;
            },
        };
        let avoiding = match game {
            Game::ForbiddenLetters => !contains_forbidden_chars(
                first.word.as_str(),
                forbidden_letters.as_slice(),
            ),
            _ => true,
        };
        if !avoiding {
            return State::Start;
        }
        let ghost word = first@;
        let (chain, added) = Chain::new().push(first);
        assert(added) by {
            assert(!is_used(Seq::<WordInfoView>::empty(), word));
        }
        assert(chain@ =~= seq![word]);
        match game {
            Game::WordChain => State::WordChain { chain, curr_char },
            Game::AlphabetSprint => State::AlphabetSprint { alphabet: initial, words: chain },
            Game::LastLetterScramble => State::LastLetterScramble {
                level: SCRAMBLE_LEVEL,
                chain,
                curr_char,
            },
            Game::SynonymString => State::SynonymString { chain, curr_char },
            Game::WordLengthLadder => State::WordLengthLadder {
                curr_len: LADDER_START,
                max_len: LADDER_END,
                chain,
                curr_char,
            },
            Game::ForbiddenLetters => State::ForbiddenLetters { forbidden_letters, chain, curr_char },
        }
    }

    /// Adds the player's word to the chain, where the state takes it. Tells
    /// whether the word was added. The rules stay as they are.
    pub fn accept(self, info: WordInfo) -> (r: (State, bool))
        requires
            self.wf(),
        ensures
            r.0.wf(),
            r.0.same_game(self),
            r.1 == self.takes(info@),
            r.1 ==> r.0.chain_view() == self.chain_view().push(info@),
            !r.1 ==> r.0.chain_view() == self.chain_view(),
            no_shared_stems(r.0.chain_view()),
    {
        match self {
            State::Start => {
                assert(no_shared_stems(Seq::<WordInfoView>::empty()));
                (State::Start, false)
            },
            State::WordChain { chain, curr_char } => {
                let (chain, added) = chain.push(info);
                (State::WordChain { chain, curr_char }, added)
            },
            State::AlphabetSprint { alphabet, words } => {
                let (words, added) = words.push(info);
                (State::AlphabetSprint { alphabet, words }, added)
            },
            State::LastLetterScramble { level, chain, curr_char } => {
                let (chain, added) = chain.push(info);
                (State::LastLetterScramble { level, chain, curr_char }, added)
            },
            State::SynonymString { chain, curr_char } => {
                let (chain, added) = chain.push(info);
                (State::SynonymString { chain, curr_char }, added)
            },
            State::WordLengthLadder { curr_len, max_len, chain, curr_char } => {
                let (chain, added) = chain.push(info);
                (State::WordLengthLadder { curr_len, max_len, chain, curr_char }, added)
            },
            State::ForbiddenLetters { forbidden_letters, chain, curr_char } => {
                if contains_forbidden_chars(info.word.as_str(), forbidden_letters.as_slice()) {
                    let _ = chain.len();
                    (State::ForbiddenLetters { forbidden_letters, chain, curr_char }, false)
                } else {
                    let ghost before = chain@;
                    let (chain, added) = chain.push(info);
                    proof {
                        assert forall|i: int| 0 <= i < chain@.len() implies !has_forbidden(
                            (#[trigger] chain@[i]).word,
                            forbidden_letters@,
                        ) by {
                            if i < before.len() {
                                assert(chain@[i] == before[i]);
                            }
                        }
                    }
                    (State::ForbiddenLetters { forbidden_letters, chain, curr_char }, added)
                }
            },
        }
    }

    /// The rules after the machine's answer `word`: the next word begins
    /// with its last letter (in the alphabet sprint, with the letter of the
    /// game), and in a word ladder it is one longer than the word before.
    pub open spec fn advanced_rules(self, word: Seq<char>) -> Rules {
        match self {
            State::Start => no_rules(),
            State::AlphabetSprint { .. } => self.rules(),
            State::WordLengthLadder { curr_len, .. } => Rules {
                starting_char: last_of(word),
                required_length: Some(
                    (if curr_len < u8::MAX {
                        (curr_len + 1) as u8
                    } else {
                        curr_len
                    }) as usize,
                ),
                ..self.rules()
            },
            _ => Rules { starting_char: last_of(word), ..self.rules() },
        }
    }

    /// Adds the machine's answer to the chain, where the state takes it and
    /// the answer has a character, and advances the rules. Tells whether the
    /// answer was added; where it was not, the state stays as it is.
    pub fn answer(self, info: WordInfo) -> (r: (State, bool))
        requires
            self.wf(),
        ensures
            r.0.wf(),
            r.0.game_of() == self.game_of(),
            r.0.limit() == self.limit(),
            r.1 == (self.takes(info@) && info@.word.len() > 0),
            r.1 ==> r.0.chain_view() == self.chain_view().push(info@) && r.0.rules()
                == self.advanced_rules(info@.word),
            !r.1 ==> r.0.chain_view() == self.chain_view() && r.0.rules() == self.rules(),
            no_shared_stems(r.0.chain_view()),
    {
        let next = match last_char(info.word.as_str()) {
            Some(c) => c,
            None => {
                let _ = self.chain_len();
                return (self, false);
            },
        };
        let (state, added) = self.accept(info);
        if !added {
            return (state, false);
        }
        let advanced = match state {
            State::Start => State::Start,
            State::WordChain { chain, curr_char } => State::WordChain { chain, curr_char: next },
            State::AlphabetSprint { alphabet, words } => State::AlphabetSprint { alphabet, words },
            State::LastLetterScramble { level, chain, curr_char } => State::LastLetterScramble {
                level,
                chain,
                curr_char: next,
            },
            State::SynonymString { chain, curr_char } => State::SynonymString {
                chain,
                curr_char: next,
            },
            State::WordLengthLadder { curr_len, max_len, chain, curr_char } => {
                let longer = if curr_len < u8::MAX {
                    curr_len + 1
                } else {
                    curr_len
                };
                State::WordLengthLadder { curr_len: longer, max_len, chain, curr_char: next }
            },
            State::ForbiddenLetters { forbidden_letters, chain, curr_char } => {
                State::ForbiddenLetters { forbidden_letters, chain, curr_char: next }
            },
        };
        (advanced, true)
    }

    /// The number of words in the chain; 0 where no game is played.
    pub fn chain_len(&self) -> (n: usize)
        ensures
            n == self.chain_view().len(),
            no_shared_stems(self.chain_view()),
    {
        match self {
            State::Start => {
                assert(no_shared_stems(Seq::<WordInfoView>::empty()));
                0
            },
            State::WordChain { chain, .. } => chain.len(),
            State::AlphabetSprint { words, .. } => words.len(),
            State::LastLetterScramble { chain, .. } => chain.len(),
            State::SynonymString { chain, .. } => chain.len(),
            State::WordLengthLadder { chain, .. } => chain.len(),
            State::ForbiddenLetters { chain, .. } => chain.len(),
        }
    }

    /// Tells whether the state is well formed.
    pub fn is_wf(&self) -> (b: bool)
        ensures
            b == self.wf(),
    {
        match self {
            State::ForbiddenLetters { forbidden_letters, chain, .. } => {
                let words = chain.words();
                let mut i: usize = 0;
                while i < words.len()
                    invariant
                        i <= words.len(),
                        crate::dictionary::infos(words@) == chain@,
                        self.wf() == avoids(chain@, forbidden_letters@),
                        forall|k: int|
                            0 <= k < i ==> !has_forbidden(
                                (#[trigger] chain@[k]).word,
                                forbidden_letters@,
                            ),
                    decreases words.len() - i,
                {
                    assert(chain@[i as int].word == words@[i as int].word@);
                    if contains_forbidden_chars(
                        words[i].word.as_str(),
                        forbidden_letters.as_slice(),
                    ) {
                        assert(has_forbidden(chain@[i as int].word, forbidden_letters@));
                        return false;
                    }
                    i += 1;
                }
                true
            },
            _ => true,
        }
    }

    /// Ends the game.
    pub fn stop(self) -> (state: State)
        ensures
            state is Start,
    {
        State::Start
    }
}

impl Default for State {
    fn default() -> (state: State)
        ensures
            state is Start,
    {
        State::Start
    }
}

} // verus!
