//! The texts that the bot shows: a word with its definitions, and the state
//! of a game.

use vstd::prelude::*;
use crate::decimal::{decimal, decimal_text};
use crate::command::name_of;
use crate::dictionary::{DictionaryError, WordInfo, WordInfoView};
use crate::embeddings::EmbeddingError;
use crate::letters::{chars_of, texts};
use crate::state::{Game, State};
use crate::text::string_of;

verus! {

/// A character that the markup gives a meaning to, and that is escaped
/// where it stands for itself.
pub open spec fn is_special(c: char) -> bool {
    ||| c == '_'
    ||| c == '*'
    ||| c == '['
    ||| c == ']'
    ||| c == '('
    ||| c == ')'
    ||| c == '~'
    ||| c == '`'
    ||| c == '>'
    ||| c == '#'
    ||| c == '+'
    ||| c == '-'
    ||| c == '='
    ||| c == '|'
    ||| c == '{'
    ||| c == '}'
    ||| c == '.'
    ||| c == '!'
}

/// A text with a backslash before each special character.
pub open spec fn escaped(s: Seq<char>) -> Seq<char>
    decreases s.len(),
{
    if s.len() == 0 {
        Seq::empty()
    } else if is_special(s.last()) {
        escaped(s.drop_last()).push('\\').push(s.last())
    } else {
        escaped(s.drop_last()).push(s.last())
    }
}

/// Tells whether a character is special.
pub fn is_special_char(c: char) -> (b: bool)
    ensures
        b == is_special(c),
{
    c == '_' || c == '*' || c == '[' || c == ']' || c == '(' || c == ')' || c == '~' || c == '`'
        || c == '>' || c == '#' || c == '+' || c == '-' || c == '=' || c == '|' || c == '{' || c
        == '}' || c == '.' || c == '!'
}

/// Adds the characters of `piece` at the end of `out`.
pub fn append_chars(out: &mut Vec<char>, piece: &[char])
    ensures
        final(out)@ == old(out)@ + piece@,
{
    let mut i: usize = 0;
    assert(out@ =~= old(out)@ + piece@.take(0));
    while i < piece.len()
        invariant
            i <= piece.len(),
            out@ == old(out)@ + piece@.take(i as int),
        decreases piece.len() - i,
    {
        out.push(piece[i]);
        assert(out@ =~= old(out)@ + piece@.take(i as int + 1));
        i += 1;
    }
    assert(piece@.take(piece.len() as int) =~= piece@);
}

/// Adds the characters of a string at the end of `out`.
pub fn append_str(out: &mut Vec<char>, piece: &str)
    ensures
        final(out)@ == old(out)@ + piece@,
{
    let chars = chars_of(piece);
    append_chars(out, chars.as_slice());
}

/// Escapes the special characters of a text.
pub fn escape_chars(text: &[char]) -> (out: Vec<char>)
    ensures
        out@ == escaped(text@),
{
    let mut out: Vec<char> = Vec::new();
    let mut i: usize = 0;
    assert(text@.take(0) =~= Seq::<char>::empty());
    while i < text.len()
        invariant
            i <= text.len(),
            out@ == escaped(text@.take(i as int)),
        decreases text.len() - i,
    {
        assert(text@.take(i as int + 1).drop_last() =~= text@.take(i as int));
        if is_special_char(text[i]) {
            out.push('\\');
        }
        out.push(text[i]);
        i += 1;
    }
    assert(text@.take(text.len() as int) =~= text@);
    out
}

/// Escapes the special characters of a text.
pub fn escape(text: &str) -> (out: String)
    ensures
        out@ == escaped(text@),
{
    let chars = chars_of(text);
    let out = escape_chars(chars.as_slice());
    string_of(out.as_slice())
}

/// A list of definitions, one to a line, each after its number and a full
/// stop.
pub open spec fn numbered(defs: Seq<Seq<char>>) -> Seq<char>
    decreases defs.len(),
{
    if defs.len() == 0 {
        Seq::empty()
    } else if defs.len() == 1 {
        decimal_text(1) + ". "@ + defs.last()
    } else {
        numbered(defs.drop_last()) + "\n"@ + decimal_text(defs.len()) + ". "@ + defs.last()
    }
}

/// The text that shows a word with the definitions of number `idx`: the
/// word, the functional label in bold and underlined, and on the next line
/// the numbered definitions; all escaped.
pub open spec fn message_text(info: WordInfoView, idx: int) -> Seq<char> {
    escaped(info.word) + " *__"@ + escaped(info.defs[idx].functional_label) + "__*\n"@ + escaped(
        numbered(info.defs[idx].definitions),
    )
}

/// The data of the callback that asks for the definitions of number `idx`.
pub open spec fn button_data(word: Seq<char>, idx: nat) -> Seq<char> {
    "def_"@ + word + "_"@ + decimal_text(idx)
}

/// A button below a message: its label and the data of its callback.
#[derive(Clone, Debug, PartialEq, Eq)]
pub struct Button {
    pub text: String,
    pub data: String,
}

/// A `Button` as plain values.
pub ghost struct ButtonView {
    pub text: Seq<char>,
    pub data: Seq<char>,
}

impl View for Button {
    type V = ButtonView;

    open spec fn view(&self) -> ButtonView {
        ButtonView { text: self.text@, data: self.data@ }
    }
}

/// The buttons of a list, as plain values.
pub open spec fn button_views(v: Seq<Button>) -> Seq<ButtonView> {
    v.map_values(|b: Button| b@)
}

/// The buttons below the definitions of number `idx`: one back where there
/// are definitions before them, one forward where there are definitions
/// after them.
pub open spec fn buttons_of(info: WordInfoView, idx: int) -> Seq<ButtonView> {
    let back = if idx >= 1 {
        seq![ButtonView { text: "prev"@, data: button_data(info.word, (idx - 1) as nat) }]
    } else {
        Seq::empty()
    };
    let forward = if idx + 1 < info.defs.len() {
        seq![ButtonView { text: "next"@, data: button_data(info.word, (idx + 1) as nat) }]
    } else {
        Seq::empty()
    };
    back + forward
}

/// The numbered list of some definitions.
pub fn number_definitions(defs: &Vec<String>) -> (out: Vec<char>)
    ensures
        out@ == numbered(texts(defs@)),
{
    let ghost all = texts(defs@);
    let mut out: Vec<char> = Vec::new();
    let mut i: usize = 0;
    assert(all.take(0) =~= Seq::<Seq<char>>::empty());
    while i < defs.len()
        invariant
            i <= defs.len(),
            all == texts(defs@),
            out@ == numbered(all.take(i as int)),
        decreases defs.len() - i,
    {
        proof {
            assert(all.take(i as int + 1).drop_last() =~= all.take(i as int));
            assert(all.take(i as int + 1).last() == defs@[i as int]@);
        }
        if i > 0 {
            append_str(&mut out, "\n");
        }
        let number = decimal(i + 1);
        append_chars(&mut out, number.as_slice());
        append_str(&mut out, ". ");
        append_str(&mut out, defs[i].as_str());
        proof {
            let head = numbered(all.take(i as int));
            let last = defs@[i as int]@;
            if i == 0 {
                assert(head =~= Seq::<char>::empty());
                assert(out@ =~= decimal_text(1) + ". "@ + last);
            } else {
                assert(out@ =~= head + "\n"@ + decimal_text((i + 1) as nat) + ". "@ + last);
            }
        }
        i += 1;
    }
    assert(all.take(defs.len() as int) =~= all);
    out
}

/// The data of the callback that asks for the definitions of number `idx`.
pub fn make_button_data(word: &str, idx: usize) -> (data: String)
    ensures
        data@ == button_data(word@, idx as nat),
{
    let mut out: Vec<char> = Vec::new();
    append_str(&mut out, "def_");
    append_str(&mut out, word);
    append_str(&mut out, "_");
    let number = decimal(idx);
    append_chars(&mut out, number.as_slice());
    assert(out@ =~= button_data(word@, idx as nat));
    string_of(out.as_slice())
}

impl WordInfo {
    /// The message that shows the word with its definitions of number
    /// `def_idx`, and the buttons below it.
    pub fn get_message(&self, def_idx: usize) -> (r: (String, Vec<Button>))
        requires
            def_idx < self@.defs.len(),
        ensures
            r.0@ == message_text(self@, def_idx as int),
            button_views(r.1@) == buttons_of(self@, def_idx as int),
    {
        assert(self@.defs.len() == self.defs@.len());
        let def = &self.defs[def_idx];
        assert(def@ == self@.defs[def_idx as int]);
        let mut out: Vec<char> = Vec::new();
        let word = chars_of(self.word.as_str());
        let word = escape_chars(word.as_slice());
        append_chars(&mut out, word.as_slice());
        append_str(&mut out, " *__");
        let label = chars_of(def.functional_label.as_str());
        let label = escape_chars(label.as_slice());
        append_chars(&mut out, label.as_slice());
        append_str(&mut out, "__*\n");
        let list = number_definitions(&def.definitions);
        let list = escape_chars(list.as_slice());
        append_chars(&mut out, list.as_slice());
        assert(out@ =~= message_text(self@, def_idx as int));
        let message = string_of(out.as_slice());
        let mut buttons: Vec<Button> = Vec::new();
        if def_idx >= 1 {
            let button = Button {
                text: "prev".to_owned(),
                data: make_button_data(self.word.as_str(), def_idx - 1),
            };
            buttons.push(button);
        }
        let count = self.defs.len();
        assert(def_idx < count);
        if def_idx < count - 1 {
            let button = Button {
                text: "next".to_owned(),
                data: make_button_data(self.word.as_str(), def_idx + 1),
            };
            buttons.push(button);
        }
        assert(button_views(buttons@) =~= buttons_of(self@, def_idx as int));
        (message, buttons)
    }
}

/// The text that tells the state of a game.
pub open spec fn description(state: State) -> Seq<char> {
    match state {
        State::Start => "No active game"@,
        State::WordChain { chain, curr_char } => "Word Chain - Next letter: '"@ + seq![curr_char]
            + "', Chain length: "@ + decimal_text(chain@.len()),
        State::AlphabetSprint { alphabet, words } => "Alphabet Sprint - Current letter: '"@
            + seq![alphabet] + "', Words: "@ + decimal_text(words@.len()),
        State::LastLetterScramble { level, chain, curr_char } => "Last Letter Scramble - Level: "@
            + decimal_text(level as nat) + ", Next letter: '"@ + seq![curr_char]
            + "', Chain length: "@ + decimal_text(chain@.len()),
        State::SynonymString { chain, curr_char } => "Synonym String - Next letter: '"@
            + seq![curr_char] + "', Chain length: "@ + decimal_text(chain@.len()),
        State::WordLengthLadder {
            curr_len,
            max_len,
            chain,
            curr_char,
        } => "Word Length Ladder - Current length: "@ + decimal_text(curr_len as nat)
            + ", Max length: "@ + decimal_text(max_len as nat) + ", Next letter: '"@
            + seq![curr_char] + "', Chain length: "@ + decimal_text(chain@.len()),
        State::ForbiddenLetters {
            forbidden_letters,
            chain,
            curr_char,
        } => "Forbidden Letters - Forbidden: '"@ + forbidden_letters@ + "', Next letter: '"@
            + seq![curr_char] + "', Chain length: "@ + decimal_text(chain@.len()),
    }
}

/// Adds a letter and the length of a chain to a description.
fn append_letter_and_length(out: &mut Vec<char>, letter: char, label: &str, len: usize)
    ensures
        final(out)@ == old(out)@ + seq![letter] + label@ + decimal_text(len as nat),
{
    out.push(letter);
    append_str(out, label);
    let number = decimal(len);
    append_chars(out, number.as_slice());
    assert(out@ =~= old(out)@ + seq![letter] + label@ + decimal_text(len as nat));
}

/// Tells the state of a game.
pub fn describe(state: &State) -> (text: String)
    ensures
        text@ == description(*state),
{
    let mut out: Vec<char> = Vec::new();
    match state {
        State::Start => {
            append_str(&mut out, "No active game");
            assert(out@ =~= "No active game"@);
        },
        State::WordChain { chain, curr_char } => {
            append_str(&mut out, "Word Chain - Next letter: '");
            append_letter_and_length(&mut out, *curr_char, "', Chain length: ", chain.len());
            assert(out@ =~= description(*state));
        },
        State::AlphabetSprint { alphabet, words } => {
            append_str(&mut out, "Alphabet Sprint - Current letter: '");
            append_letter_and_length(&mut out, *alphabet, "', Words: ", words.len());
            assert(out@ =~= description(*state));
        },
        State::LastLetterScramble { level, chain, curr_char } => {
            append_str(&mut out, "Last Letter Scramble - Level: ");
            let number = decimal(*level as usize);
            append_chars(&mut out, number.as_slice());
            append_str(&mut out, ", Next letter: '");
            append_letter_and_length(&mut out, *curr_char, "', Chain length: ", chain.len());
            assert(out@ =~= description(*state));
        },
        State::SynonymString { chain, curr_char } => {
            append_str(&mut out, "Synonym String - Next letter: '");
            append_letter_and_length(&mut out, *curr_char, "', Chain length: ", chain.len());
            assert(out@ =~= description(*state));
        },
        State::WordLengthLadder { curr_len, max_len, chain, curr_char } => {
            append_str(&mut out, "Word Length Ladder - Current length: ");
            let number = decimal(*curr_len as usize);
            append_chars(&mut out, number.as_slice());
            append_str(&mut out, ", Max length: ");
            let number = decimal(*max_len as usize);
            append_chars(&mut out, number.as_slice());
            append_str(&mut out, ", Next letter: '");
            append_letter_and_length(&mut out, *curr_char, "', Chain length: ", chain.len());
            assert(out@ =~= description(*state));
        },
        State::ForbiddenLetters { forbidden_letters, chain, curr_char } => {
            append_str(&mut out, "Forbidden Letters - Forbidden: '");
            append_chars(&mut out, forbidden_letters.as_slice());
            append_str(&mut out, "', Next letter: '");
            append_letter_and_length(&mut out, *curr_char, "', Chain length: ", chain.len());
            assert(out@ =~= description(*state));
        },
    }
    string_of(out.as_slice())
}

/// The games in the order of the menu.
pub open spec fn game_at(i: int) -> Game {
    if i == 0 {
        Game::WordChain
    } else if i == 1 {
        Game::AlphabetSprint
    } else if i == 2 {
        Game::LastLetterScramble
    } else if i == 3 {
        Game::SynonymString
    } else if i == 4 {
        Game::WordLengthLadder
    } else {
        Game::ForbiddenLetters
    }
}

/// The title of a game in the menu.
pub open spec fn title_of(game: Game) -> Seq<char> {
    match game {
        Game::WordChain => "Word Chain"@,
        Game::AlphabetSprint => "Alphabet Sprint"@,
        Game::LastLetterScramble => "Last Letter Scramble"@,
        Game::SynonymString => "Synonym String"@,
        Game::WordLengthLadder => "Word Length Ladder"@,
        Game::ForbiddenLetters => "Forbidden Letters"@,
    }
}

/// The button of the menu that begins a game.
pub open spec fn menu_button(game: Game) -> ButtonView {
    ButtonView { text: title_of(game), data: name_of(game) }
}

impl Game {
    /// The game at a place of the menu; the last game for a place past the
    /// end.
    pub fn at(i: usize) -> (game: Game)
        ensures
            game == game_at(i as int),
    {
        if i == 0 {
            Game::WordChain
        } else if i == 1 {
            Game::AlphabetSprint
        } else if i == 2 {
            Game::LastLetterScramble
        } else if i == 3 {
            Game::SynonymString
        } else if i == 4 {
            Game::WordLengthLadder
        } else {
            Game::ForbiddenLetters
        }
    }

    /// The title of the game in the menu.
    pub fn title(self) -> (title: &'static str)
        ensures
            title@ == title_of(self),
    {
        match self {
            Game::WordChain => "Word Chain",
            Game::AlphabetSprint => "Alphabet Sprint",
            Game::LastLetterScramble => "Last Letter Scramble",
            Game::SynonymString => "Synonym String",
            Game::WordLengthLadder => "Word Length Ladder",
            Game::ForbiddenLetters => "Forbidden Letters",
        }
    }
}

/// The menu of games: three rows of two buttons, the games in their order.
pub fn make_game_menu() -> (rows: Vec<Vec<Button>>)
    ensures
        rows@.len() == 3,
        forall|r: int|
            0 <= r < 3 ==> button_views((#[trigger] rows@[r])@) == seq![
                menu_button(game_at(2 * r)),
                menu_button(game_at(2 * r + 1)),
            ],
{
    let mut rows: Vec<Vec<Button>> = Vec::new();
    let mut r: usize = 0;
    while r < 3
        invariant
            r <= 3,
            rows@.len() == r,
            forall|k: int|
                0 <= k < r ==> button_views((#[trigger] rows@[k])@) == seq![
                    menu_button(game_at(2 * k)),
                    menu_button(game_at(2 * k + 1)),
                ],
        decreases 3 - r,
    {
        let left = Game::at(2 * r);
        let right = Game::at(2 * r + 1);
        let mut row: Vec<Button> = Vec::new();
        row.push(Button { text: left.title().to_owned(), data: left.name().to_owned() });
        row.push(Button { text: right.title().to_owned(), data: right.name().to_owned() });
        assert(button_views(row@) =~= seq![menu_button(left), menu_button(right)]);
        let ghost before = rows@;
        rows.push(row);
        assert forall|k: int| 0 <= k < r + 1 implies button_views((#[trigger] rows@[k])@) == seq![
            menu_button(game_at(2 * k)),
            menu_button(game_at(2 * k + 1)),
        ] by {
            if k < r {
                assert(rows@[k] == before[k]);
            }
        }
        r += 1;
    }
    rows
}

/// The text that tells why a query on the index failed.
pub open spec fn embedding_error_text(e: EmbeddingError) -> Seq<char> {
    match e {
        EmbeddingError::IoError(m) => "I/O error: "@ + m@,
        EmbeddingError::NoMatch(c) => "No match: no word under '"@ + seq![c] + "' passed"@,
        EmbeddingError::InvalidWord(w) => "Invalid word: "@ + w@,
    }
}

/// The text that tells why a word could not be resolved.
pub open spec fn dictionary_error_text(e: DictionaryError) -> Seq<char> {
    match e {
        DictionaryError::NotFound(w) => "Word '"@ + w@ + "' not found"@,
        DictionaryError::LookupFailed(w) => "No usable definition of '"@ + w@ + "'"@,
        DictionaryError::StoreFailed(m) => "Cache error: "@ + m@,
    }
}

impl EmbeddingError {
    /// Tells why the query failed.
    pub fn message(&self) -> (text: String)
        ensures
            text@ == embedding_error_text(*self),
    {
        let mut out: Vec<char> = Vec::new();
        match self {
            EmbeddingError::IoError(m) => {
                append_str(&mut out, "I/O error: ");
                append_str(&mut out, m.as_str());
            },
            EmbeddingError::NoMatch(c) => {
                append_str(&mut out, "No match: no word under '");
                out.push(*c);
                append_str(&mut out, "' passed");
            },
            EmbeddingError::InvalidWord(w) => {
                append_str(&mut out, "Invalid word: ");
                append_str(&mut out, w.as_str());
            },
        }
        assert(out@ =~= embedding_error_text(*self));
        string_of(out.as_slice())
    }
}

impl DictionaryError {
    /// Tells why the word could not be resolved.
    pub fn message(&self) -> (text: String)
        ensures
            text@ == dictionary_error_text(*self),
    {
        let mut out: Vec<char> = Vec::new();
        match self {
            DictionaryError::NotFound(w) => {
                append_str(&mut out, "Word '");
                append_str(&mut out, w.as_str());
                append_str(&mut out, "' not found");
            },
            DictionaryError::LookupFailed(w) => {
                append_str(&mut out, "No usable definition of '");
                append_str(&mut out, w.as_str());
                append_str(&mut out, "'");
            },
            DictionaryError::StoreFailed(m) => {
                append_str(&mut out, "Cache error: ");
                append_str(&mut out, m.as_str());
            },
        }
        assert(out@ =~= dictionary_error_text(*self));
        string_of(out.as_slice())
    }
}

} // verus!
