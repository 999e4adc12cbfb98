//! The rules of a turn: what a word must meet to be played, and the checks
//! that a player's move goes through.

use vstd::prelude::*;
use vstd::slice::slice_subrange;
use crate::chain::{is_used, Chain};
use crate::dictionary::{DictionaryError, WordInfo, WordInfoView};
use crate::embeddings::{similarity, similarity_of, EmbeddingIndex, Row};
use crate::letters::{
    chars_of, contains_at_least_n_chars, contains_forbidden_chars, first_char, has_forbidden,
    shared_letters,
};
use crate::rhyme::{rhyme, rhymes, PhoneticDict};
use crate::text::{fields, lowercase, lowercase_of, split_fields, string_of};

verus! {

/// The rules that the next word must meet.
#[derive(Clone, Debug, PartialEq, Eq)]
pub struct Constraints {
    /// The character that the word must begin with.
    pub starting_char: Option<char>,
    /// Characters that the word must not hold.
    pub forbidden_chars: Vec<char>,
    /// The number of distinct characters that the word must share with the
    /// word before it.
    pub min_shared_chars: Option<usize>,
    /// The length that the word must have, in bytes.
    pub required_length: Option<usize>,
    /// A word that the word must rhyme with.
    pub rhyme_with: Option<String>,
    /// The least similarity score that the word must have with the word
    /// before it.
    pub similarity_floor: Option<i32>,
}

/// `Constraints` as plain values.
pub ghost struct Rules {
    pub starting_char: Option<char>,
    pub forbidden_chars: Seq<char>,
    pub min_shared_chars: Option<usize>,
    pub required_length: Option<usize>,
    pub rhyme_with: Option<Seq<char>>,
    pub similarity_floor: Option<i32>,
}

impl View for Constraints {
    type V = Rules;

    open spec fn view(&self) -> Rules {
        Rules {
            starting_char: self.starting_char,
            forbidden_chars: self.forbidden_chars@,
            min_shared_chars: self.min_shared_chars,
            required_length: self.required_length,
            rhyme_with: match self.rhyme_with {
                Some(w) => Some(w@),
                None => None,
            },
            similarity_floor: self.similarity_floor,
        }
    }
}

/// One of the rules of a turn.
#[derive(Clone, Copy, Debug, PartialEq, Eq)]
pub enum Rule {
    StartingChar,
    RequiredLength,
    ForbiddenChars,
    SharedChars,
    Rhyme,
    Similarity,
}

/// Why a move was turned down, or no answer to it was found.
#[derive(Clone, Copy, Debug, PartialEq, Eq)]
pub enum MoveError {
    /// The text is not one word.
    InvalidInput,
    /// The word breaks a rule of the turn.
    ConstraintViolation(Rule),
    /// The word is not in the index of valid words.
    NotFound,
    /// The dictionary has no usable definition of the word.
    LookupFailed,
    /// The word shares a stem with a word of the chain.
    AlreadyUsed,
    /// The search for an answer ran out of attempts.
    NoValidWord,
}

/// The length of a word in bytes.
pub open spec fn byte_length(word: Seq<char>) -> nat {
    vstd::utf8::encode_utf8(word).len()
}

/// The word begins with the character asked for.
pub open spec fn starts_right(word: Seq<char>, rules: Rules) -> bool {
    match rules.starting_char {
        Some(c) => word.len() > 0 && word[0] == c,
        None => true,
    }
}

/// The word has the length asked for.
pub open spec fn length_right(word: Seq<char>, rules: Rules) -> bool {
    match rules.required_length {
        Some(n) => byte_length(word) == n,
        None => true,
    }
}

/// The word shares enough distinct characters with the word before it.
pub open spec fn shares_enough(word: Seq<char>, previous: Option<Seq<char>>, rules: Rules) -> bool {
    match rules.min_shared_chars {
        Some(n) => match previous {
            Some(p) => shared_letters(word, p).len() >= n,
            None => false,
        },
        None => true,
    }
}

/// The word rhymes with the word asked for.
pub open spec fn rhymes_right(
    word: Seq<char>,
    rules: Rules,
    dict: Map<Seq<char>, Seq<Seq<char>>>,
) -> bool {
    match rules.rhyme_with {
        Some(r) => rhyme(dict, word, r),
        None => true,
    }
}

/// The similarity score of two words; 0 where one of them is not indexed.
pub open spec fn score_or_zero(index: Seq<Row>, a: Seq<char>, b: Seq<char>) -> int {
    match similarity_of(index, a, b) {
        Ok(s) => s,
        Err(_) => 0,
    }
}

/// The word is similar enough to the word before it.
pub open spec fn similar_enough(
    word: Seq<char>,
    previous: Option<Seq<char>>,
    rules: Rules,
    index: Seq<Row>,
) -> bool {
    match rules.similarity_floor {
        Some(floor) => match previous {
            Some(p) => score_or_zero(index, word, p) >= floor,
            None => false,
        },
        None => true,
    }
}

/// The first rule that a word breaks, in the order: starting character,
/// length, forbidden characters, shared characters, rhyme, similarity.
pub open spec fn first_violation(
    word: Seq<char>,
    previous: Option<Seq<char>>,
    rules: Rules,
    index: Seq<Row>,
    dict: Map<Seq<char>, Seq<Seq<char>>>,
) -> Option<Rule> {
    if !starts_right(word, rules) {
        Some(Rule::StartingChar)
    } else if !length_right(word, rules) {
        Some(Rule::RequiredLength)
    } else if has_forbidden(word, rules.forbidden_chars) {
        Some(Rule::ForbiddenChars)
    } else if !shares_enough(word, previous, rules) {
        Some(Rule::SharedChars)
    } else if !rhymes_right(word, rules, dict) {
        Some(Rule::Rhyme)
    } else if !similar_enough(word, previous, rules, index) {
        Some(Rule::Similarity)
    } else {
        None
    }
}

/// The previous word as plain values.
pub open spec fn text_of(word: Option<&str>) -> Option<Seq<char>> {
    match word {
        Some(w) => Some(w@),
        None => None,
    }
}

/// Holds a word to the rules of a turn, and names the first rule that it
/// breaks.
pub fn check_word(
    word: &str,
    previous: Option<&str>,
    constraints: &Constraints,
    index: &EmbeddingIndex,
    phonetics: &PhoneticDict,
) -> (broken: Option<Rule>)
    ensures
        broken == first_violation(word@, text_of(previous), constraints@, index@, phonetics@),
{
    match constraints.starting_char {
        Some(c) => {
            match first_char(word) {
                Some(f) => {
                    if f != c {
                        return Some(Rule::StartingChar);
                    }
                },
                None => {
                    return Some(Rule::StartingChar);
                },
            }
        },
        None => {},
    }
    match constraints.required_length {
        Some(n) => {
            if word.as_bytes().len() != n {
                return Some(Rule::RequiredLength);
            }
        },
        None => {},
    }
    if contains_forbidden_chars(word, constraints.forbidden_chars.as_slice()) {
        return Some(Rule::ForbiddenChars);
    }
    match constraints.min_shared_chars {
        Some(n) => {
            match previous {
                Some(p) => {
                    if !contains_at_least_n_chars(word, p, n) {
                        return Some(Rule::SharedChars);
                    }
                },
                None => {
                    return Some(Rule::SharedChars);
                },
            }
        },
        None => {},
    }
    match &constraints.rhyme_with {
        Some(r) => {
            if !rhymes(word, r.as_str(), phonetics) {
                return Some(Rule::Rhyme);
            }
        },
        None => {},
    }
    match constraints.similarity_floor {
        Some(floor) => {
            match previous {
                Some(p) => {
                    let score: i32 = match similarity(index, word, p) {
                        Ok(s) => s,
                        Err(_) => 0,
                    };
                    if score < floor {
                        return Some(Rule::Similarity);
                    }
                },
                None => {
                    return Some(Rule::Similarity);
                },
            }
        },
        None => {},
    }
    None
}

/// The word that a player's text stands for: its only field, in lower case.
pub open spec fn normalized(text: Seq<char>) -> Option<Seq<char>> {
    if fields(text).len() == 1 {
        Some(lowercase_of(fields(text)[0]))
    } else {
        None
    }
}

/// Reads a player's text: it must hold one word and no more, which is then
/// turned into lower case.
pub fn normalize_input(text: &str) -> (r: Result<String, MoveError>)
    ensures
        match r {
            Ok(word) => normalized(text@) == Some(word@),
            Err(e) => normalized(text@) is None && e == MoveError::InvalidInput,
        },
{
    let raw = chars_of(text);
    let spans = split_fields(raw.as_slice());
    if spans.len() != 1 {
        return Err(MoveError::InvalidInput);
    }
    assert(spans@[0].within(raw@.len()));
    assert(fields(text@)[0] == spans@[0].of(raw@));
    let token = string_of(slice_subrange(raw.as_slice(), spans[0].start, spans[0].end));
    Ok(lowercase(token.as_str()))
}

/// The word played last, if any.
pub open spec fn previous_of(chain: Seq<WordInfoView>) -> Option<Seq<char>> {
    if chain.len() > 0 {
        Some(chain.last().word)
    } else {
        None
    }
}

/// Holds a word to the rules of a turn, with the last word of the chain as
/// the word before it.
pub fn check_move(
    word: &str,
    chain: &Chain,
    constraints: &Constraints,
    index: &EmbeddingIndex,
    phonetics: &PhoneticDict,
) -> (r: Result<(), MoveError>)
    ensures
        match first_violation(word@, previous_of(chain@), constraints@, index@, phonetics@) {
            Some(rule) => r == Err::<(), MoveError>(MoveError::ConstraintViolation(rule)),
            None => r is Ok,
        },
{
    let broken = match chain.last() {
        Some(last) => check_word(word, Some(last.word.as_str()), constraints, index, phonetics),
        None => check_word(word, None, constraints, index, phonetics),
    };
    match broken {
        Some(rule) => Err(MoveError::ConstraintViolation(rule)),
        None => Ok(()),
    }
}

/// What becomes of a move once the dictionary has answered: the answer
/// `resolved` leads to the verdict `r`.
pub open spec fn judged(
    resolved: Result<WordInfo, DictionaryError>,
    chain: Seq<WordInfoView>,
    r: Result<WordInfo, MoveError>,
) -> bool {
    match resolved {
        Ok(info) => if is_used(chain, info@) {
            r matches Err(MoveError::AlreadyUsed)
        } else {
            r matches Ok(out) && out@ == info@
        },
        Err(DictionaryError::NotFound(_)) => r matches Err(MoveError::NotFound),
        Err(_) => r matches Err(MoveError::LookupFailed),
    }
}

/// Judges a move once the dictionary has answered: a failed lookup turns
/// the move down, and so does a word that shares a stem with the chain.
pub fn judge_resolved(resolved: Result<WordInfo, DictionaryError>, chain: &Chain) -> (r: Result<
    WordInfo,
    MoveError,
>)
    ensures
        judged(resolved, chain@, r),
{
    match resolved {
        Ok(info) => {
            if chain.uses(&info) {
                Err(MoveError::AlreadyUsed)
            } else {
                Ok(info)
            }
        },
        Err(DictionaryError::NotFound(_)) => Err(MoveError::NotFound),
        Err(_) => Err(MoveError::LookupFailed),
    }
}

/// Validates a player's move. The text must be one word; the word, in lower
/// case, must meet the rules of the turn; the dictionary, asked through
/// `resolve`, must know it; and it must share no stem with the chain. The
/// chain is left as it is.
pub fn validate_move<F>(
    candidate: &str,
    chain: &Chain,
    constraints: &Constraints,
    index: &EmbeddingIndex,
    phonetics: &PhoneticDict,
    resolve: F,
) -> (r: Result<WordInfo, MoveError>) where F: Fn(&str) -> Result<WordInfo, DictionaryError>
    requires
        forall|s: &str| resolve.requires((s,)),
    ensures
        match normalized(candidate@) {
            None => r matches Err(MoveError::InvalidInput),
            Some(word) => match first_violation(
                word,
                previous_of(chain@),
                constraints@,
                index@,
                phonetics@,
            ) {
                Some(rule) => r matches Err(MoveError::ConstraintViolation(broken)) && broken
                    == rule,
                None => exists|s: &str, resolved: Result<WordInfo, DictionaryError>|
                    s@ == word && resolve.ensures((s,), resolved) && judged(resolved, chain@, r),
            },
        },
{
    let word = match normalize_input(candidate) {
        Ok(w) => w,
        Err(e) => {
            return Err(e);
        },
    };
    match check_move(word.as_str(), chain, constraints, index, phonetics) {
        Err(e) => {
            return Err(e);
        },
        Ok(_) => {},
    }
    let name = word.as_str();
    let resolved = resolve(name);
    let ghost kept = resolved;
    let r = judge_resolved(resolved, chain);
    assert(name@ == word@ && resolve.ensures((name,), kept) && judged(kept, chain@, r));
    r
}

} // verus!
