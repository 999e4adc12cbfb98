//! Commands and menu callbacks: what the player asks for besides playing a
//! word.

use vstd::prelude::*;
use crate::decimal::{index_of_text, parse_index};
use crate::letters::chars_of;
use crate::state::{Game, State};

verus! {

/// A command of the player.
#[derive(Clone, Copy, Debug, PartialEq, Eq)]
pub enum Command {
    /// Start the bot and show the game menu.
    Start,
    /// Play a random game.
    Play,
    /// Get a hint for the current game.
    Hint,
    /// Skip the current turn.
    Skip,
    /// Check the score.
    Score,
    /// Show the rules.
    Rules,
    /// View the statistics.
    Stats,
    /// Stop the current game.
    Stop,
}

/// What the bot does on a command.
#[derive(Clone, Copy, Debug, PartialEq, Eq)]
pub enum CommandAction {
    /// Show the menu of games.
    ShowMenu,
    /// Announce a game picked at random, and show the menu.
    AnnounceRandomGame,
    /// Say that a game must be started first.
    AskToStartGame,
    /// Say that the game must be stopped first.
    AskToStopGame,
    /// Give a hint.
    GiveHint,
    /// Play a word in the player's place.
    SkipTurn,
    /// Show the score.
    ShowScore,
    /// Show the rules of the game.
    ShowGameRules,
    /// Show the rules of all games.
    ShowAllRules,
    /// Show the statistics.
    ShowStats,
    /// End the game.
    StopGame,
}

/// What the bot does on a command, by whether a game is played.
pub open spec fn action_of(in_game: bool, command: Command) -> CommandAction {
    if in_game {
        match command {
            Command::Start | Command::Play | Command::Stats => CommandAction::AskToStopGame,
            Command::Hint => CommandAction::GiveHint,
            Command::Skip => CommandAction::SkipTurn,
            Command::Score => CommandAction::ShowScore,
            Command::Rules => CommandAction::ShowGameRules,
            Command::Stop => CommandAction::StopGame,
        }
    } else {
        match command {
            Command::Start => CommandAction::ShowMenu,
            Command::Play => CommandAction::AnnounceRandomGame,
            Command::Hint | Command::Skip | Command::Score | Command::Stop => {
                CommandAction::AskToStartGame
            },
            Command::Rules => CommandAction::ShowAllRules,
            Command::Stats => CommandAction::ShowStats,
        }
    }
}

/// Decides what the bot does on a command in a state.
pub fn command_action(state: &State, command: Command) -> (action: CommandAction)
    ensures
        action == action_of(!(state is Start), command),
{
    match state {
        State::Start => match command {
            Command::Start => CommandAction::ShowMenu,
            Command::Play => CommandAction::AnnounceRandomGame,
            Command::Hint => CommandAction::AskToStartGame,
            Command::Skip => CommandAction::AskToStartGame,
            Command::Score => CommandAction::AskToStartGame,
            Command::Stop => CommandAction::AskToStartGame,
            Command::Rules => CommandAction::ShowAllRules,
            Command::Stats => CommandAction::ShowStats,
        },
        _ => match command {
            Command::Start => CommandAction::AskToStopGame,
            Command::Play => CommandAction::AskToStopGame,
            Command::Stats => CommandAction::AskToStopGame,
            Command::Hint => CommandAction::GiveHint,
            Command::Skip => CommandAction::SkipTurn,
            Command::Score => CommandAction::ShowScore,
            Command::Rules => CommandAction::ShowGameRules,
            Command::Stop => CommandAction::StopGame,
        },
    }
}

/// The score of a chain of `len` words: the player's words, then the
/// machine's. The machine's word comes first, so of an odd number of words
/// the machine has one more.
pub fn score(len: usize) -> (r: (usize, usize))
    ensures
        r.0 == len / 2,
        r.0 + r.1 == len,
{
    let player = len / 2;
    (player, len - player)
}

/// The name of a game in the menu's callbacks.
pub open spec fn name_of(game: Game) -> Seq<char> {
    match game {
        Game::WordChain => "word_chain"@,
        Game::AlphabetSprint => "alphabet_sprint"@,
        Game::LastLetterScramble => "last_letter"@,
        Game::SynonymString => "synonym_string"@,
        Game::WordLengthLadder => "word_ladder"@,
        Game::ForbiddenLetters => "forbidden_letters"@,
    }
}

/// The game that a name stands for.
pub open spec fn game_named(name: Seq<char>) -> Option<Game> {
    if name == name_of(Game::WordChain) {
        Some(Game::WordChain)
    } else if name == name_of(Game::AlphabetSprint) {
        Some(Game::AlphabetSprint)
    } else if name == name_of(Game::LastLetterScramble) {
        Some(Game::LastLetterScramble)
    } else if name == name_of(Game::SynonymString) {
        Some(Game::SynonymString)
    } else if name == name_of(Game::WordLengthLadder) {
        Some(Game::WordLengthLadder)
    } else if name == name_of(Game::ForbiddenLetters) {
        Some(Game::ForbiddenLetters)
    } else {
        None
    }
}

/// Tells whether two texts hold the same characters.
pub fn same_text(a: &str, b: &str) -> (same: bool)
    ensures
        same == (a@ == b@),
{
    a.to_owned() == b.to_owned()
}

impl Game {
    /// The name of the game in the menu's callbacks.
    pub fn name(self) -> (name: &'static str)
        ensures
            name@ == name_of(self),
    {
        match self {
            Game::WordChain => "word_chain",
            Game::AlphabetSprint => "alphabet_sprint",
            Game::LastLetterScramble => "last_letter",
            Game::SynonymString => "synonym_string",
            Game::WordLengthLadder => "word_ladder",
            Game::ForbiddenLetters => "forbidden_letters",
        }
    }

    /// The game that a name stands for.
    pub fn from_name(name: &str) -> (game: Option<Game>)
        ensures
            game == game_named(name@),
    {
        if same_text(name, "word_chain") {
            Some(Game::WordChain)
        } else if same_text(name, "alphabet_sprint") {
            Some(Game::AlphabetSprint)
        } else if same_text(name, "last_letter") {
            Some(Game::LastLetterScramble)
        } else if same_text(name, "synonym_string") {
            Some(Game::SynonymString)
        } else if same_text(name, "word_ladder") {
            Some(Game::WordLengthLadder)
        } else if same_text(name, "forbidden_letters") {
            Some(Game::ForbiddenLetters)
        } else {
            None
        }
    }
}

/// What the data of a menu callback asks for.
#[derive(Clone, Copy, Debug, PartialEq, Eq)]
pub enum CallbackType<'a> {
    /// Begin the game of this name.
    GameSelect(&'a str),
    /// Show a definition of a word.
    Definition { word: &'a str, index: usize },
    /// Nothing that the bot knows.
    Unknown(&'a str),
}

/// A `CallbackType` as plain values.
pub ghost enum Callback {
    GameSelect(Seq<char>),
    Definition { word: Seq<char>, index: usize },
    Unknown(Seq<char>),
}

impl<'a> View for CallbackType<'a> {
    type V = Callback;

    open spec fn view(&self) -> Callback {
        match *self {
            CallbackType::GameSelect(name) => Callback::GameSelect(name@),
            CallbackType::Definition { word, index } => Callback::Definition { word: word@, index },
            CallbackType::Unknown(data) => Callback::Unknown(data@),
        }
    }
}

/// The first position at or after `i` that holds an underscore, or the end.
pub open spec fn underscore_from(s: Seq<char>, i: int) -> int
    decreases s.len() - i,
{
    if i < 0 || i >= s.len() || s[i] == '_' {
        i
    } else {
        underscore_from(s, i + 1)
    }
}

/// The data begins with `def_`.
pub open spec fn asks_definition(data: Seq<char>) -> bool {
    data.len() >= 4 && data[0] == 'd' && data[1] == 'e' && data[2] == 'f' && data[3] == '_'
}

/// What the data of a callback asks for. Data that begins with `def_` asks
/// for a definition where it goes on with a word, an underscore and an
/// index; what follows a further underscore does not count. Other data asks
/// for a game where it is the name of one.
pub open spec fn callback_of(data: Seq<char>) -> Callback {
    if asks_definition(data) {
        let first = underscore_from(data, 4);
        let second = underscore_from(data, first + 1);
        if first < data.len() {
            match index_of_text(data.subrange(first + 1, second)) {
                Some(index) => Callback::Definition { word: data.subrange(4, first), index },
                None => Callback::Unknown(data),
            }
        } else {
            Callback::Unknown(data)
        }
    } else if game_named(data) is Some {
        Callback::GameSelect(data)
    } else {
        Callback::Unknown(data)
    }
}

/// The first position at or after `from` that holds an underscore.
fn find_underscore(s: &[char], from: usize) -> (at: usize)
    requires
        from <= s.len(),
    ensures
        at == underscore_from(s@, from as int),
        from <= at <= s.len(),
{
    let mut at: usize = from;
    while at < s.len() && s[at] != '_'
        invariant
            from <= at <= s.len(),
            underscore_from(s@, from as int) == underscore_from(s@, at as int),
        decreases s.len() - at,
    {
        at += 1;
    }
    at
}

/// Reads the data of a menu callback.
pub fn parse_callback<'a>(data: &'a str) -> (r: CallbackType<'a>)
    ensures
        r@ == callback_of(data@),
{
    let chars = chars_of(data);
    let n = chars.len();
    if n >= 4 && chars[0] == 'd' && chars[1] == 'e' && chars[2] == 'f' && chars[3] == '_' {
        let first = find_underscore(chars.as_slice(), 4);
        if first < n {
            let second = find_underscore(chars.as_slice(), first + 1);
            let digits = vstd::slice::slice_subrange(chars.as_slice(), first + 1, second);
            match parse_index(digits) {
                Some(index) => CallbackType::Definition {
                    word: data.substring_char(4, first),
                    index,
                },
                None => CallbackType::Unknown(data),
            }
        } else {
            CallbackType::Unknown(data)
        }
    } else {
        match Game::from_name(data) {
            Some(_) => CallbackType::GameSelect(data),
            None => CallbackType::Unknown(data),
        }
    }
}

} // verus!
