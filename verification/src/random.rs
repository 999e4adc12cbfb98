//! Choices left to chance: a letter, letters to forbid, and a word of the
//! index.

use vstd::prelude::*;
use crate::cache::{get_word_details, has_room, resolves_to, sound_entry, WordCache};
use crate::dictionary::{DictEntry, DictionaryError, WordInfo, WordInfoView};
use crate::state::Game;
use crate::embeddings::{
    accepts, is_candidate, listed_from, lists_all, rejects, words_under, EmbeddingIndex, Row,
};

verus! {

/// One of the letters from `a` to `z`.
pub open spec fn is_small_letter(c: char) -> bool {
    97 <= c as u32 <= 122
}

/// Picks one of the letters from `a` to `z` at random, through
/// `IteratorRandom::choose`: there is always a letter to pick. Believed, not
/// proved.
#[verifier::external_body]
fn random_letter() -> (c: Option<char>)
    ensures
        c is Some,
        is_small_letter(c.unwrap()),
{
    rand::seq::IteratorRandom::choose('a'..='z', &mut rand::rng())
}

/// Picks a number below `len` at random, through `IteratorRandom::choose`;
/// nothing where `len` is 0, and there alone. Believed, not proved.
#[verifier::external_body]
fn random_index(len: usize) -> (r: Option<usize>)
    ensures
        r is None <==> len == 0,
        r matches Some(i) ==> i < len,
{
    rand::seq::IteratorRandom::choose(0..len, &mut rand::rng())
}

/// Picks `amount` different letters from `a` to `z` at random, through
/// `IteratorRandom::choose_multiple`, which makes room for `amount` letters
/// before it picks: no more than the 26 letters there are may be asked for.
/// Believed, not proved.
#[verifier::external_body]
fn random_letters(amount: usize) -> (letters: Vec<char>)
    requires
        amount <= 26,
    ensures
        letters@.len() == amount,
        letters@.no_duplicates(),
        forall|i: int| 0 <= i < letters@.len() ==> is_small_letter(#[trigger] letters@[i]),
{
    rand::seq::IteratorRandom::choose_multiple('a'..='z', &mut rand::rng(), amount)
}

/// Chooses the letters that a game forbids: `amount` different letters from
/// `a` to `z`, or all 26 where more are asked for.
pub fn choose_forbidden_letters(amount: usize) -> (letters: Vec<char>)
    ensures
        amount <= 26 ==> letters@.len() == amount,
        amount > 26 ==> letters@.len() == 26,
        letters@.no_duplicates(),
        forall|i: int| 0 <= i < letters@.len() ==> is_small_letter(#[trigger] letters@[i]),
{
    if amount > 26 {
        random_letters(26)
    } else {
        random_letters(amount)
    }
}

/// The word of a list that a choice names, or `NotFound` where nothing was
/// chosen.
pub fn pick_word(words: Vec<String>, choice: Option<usize>) -> (r: Result<String, DictionaryError>)
    ensures
        match choice {
            Some(i) => if i < words@.len() {
                r matches Ok(w) && w@ == words@[i as int]@
            } else {
                r matches Err(DictionaryError::NotFound(_))
            },
            None => r matches Err(DictionaryError::NotFound(_)),
        },
{
    match choice {
        Some(i) => {
            if i < words.len() {
                Ok(words[i].clone())
            } else {
                Err(DictionaryError::NotFound(String::new()))
            }
        },
        None => Err(DictionaryError::NotFound(String::new())),
    }
}

/// The letter `c` is one that a random word may begin with: the letter
/// asked for, or any letter from `a` to `z` where none was asked for.
pub open spec fn may_begin(start_char: Option<char>, c: char) -> bool {
    match start_char {
        Some(wanted) => c == wanted,
        None => is_small_letter(c),
    }
}

/// Picks at random a word of the index that `predicate` accepts, under the
/// letter `start_char` or, where none is given, under a letter picked at
/// random. `NotFound` where the predicate accepts no word under the letter.
pub fn random_word<P>(index: &EmbeddingIndex, predicate: P, start_char: Option<char>) -> (r: Result<
    String,
    DictionaryError,
>) where P: Fn(&str) -> bool
    requires
        forall|s: &str| predicate.requires((s,)),
    ensures
        match r {
            Ok(word) => accepts(predicate, word@) && exists|c: char, j: int|
                #![trigger may_begin(start_char, c), index@[j]]
                may_begin(start_char, c) && is_candidate(index@, c, j) && index@[j].word == word@,
            Err(DictionaryError::NotFound(_)) => exists|c: char|
                #![trigger may_begin(start_char, c)]
                may_begin(start_char, c) && forall|j: int|
                    #![trigger index@[j]]
                    is_candidate(index@, c, j) ==> rejects(predicate, index@[j].word),
            Err(_) => false,
        },
{
    let letter = match start_char {
        Some(c) => c,
        None => match random_letter() {
            Some(c) => c,
            None => 'a',
        },
    };
    assert(may_begin(start_char, letter));
    let words = words_under(index, letter, predicate);
    let choice = random_index(words.len());
    let ghost listed = words@;
    let r = pick_word(words, choice);
    proof {
        if r is Ok {
            let i = choice->0 as int;
            let j = choose|j: int|
                is_candidate(index@, letter, j) && (#[trigger] index@[j]).word == listed[i]@;
            assert(may_begin(start_char, letter) && is_candidate(index@, letter, j)
                && index@[j].word == r->Ok_0@);
        } else {
            assert(listed.len() == 0);
        }
    }
    r
}

/// What picking a word at random and resolving it comes to: `NotFound` where
/// the predicate turned down every word under a letter that the word may
/// begin with; else what resolving comes to for a word under such a letter
/// that the predicate accepted.
pub open spec fn picked_and_resolved<P: Fn(&str) -> bool, F: Fn(&str) -> Option<Vec<DictEntry>>>(
    before: Map<Seq<char>, WordInfoView>,
    index: Seq<Row>,
    predicate: P,
    start_char: Option<char>,
    fetch: F,
    r: Result<WordInfo, DictionaryError>,
) -> bool {
    ||| (r matches Err(DictionaryError::NotFound(_)) && exists|c: char|
        #![trigger may_begin(start_char, c)]
        may_begin(start_char, c) && forall|j: int|
            #![trigger index[j]]
            is_candidate(index, c, j) ==> rejects(predicate, index[j].word))
    ||| exists|c: char, j: int|
        #![trigger may_begin(start_char, c), index[j]]
        may_begin(start_char, c) && is_candidate(index, c, j) && accepts(predicate, index[j].word)
            && resolves_to(before, index, index[j].word, fetch, r)
}

/// Picks a word at random as `random_word` does and resolves it as
/// `get_word_details` does: from the cache where it holds the word, or else,
/// through `fetch`, from the dictionary. The cache gains no entry but that
/// of a word that the dictionary made known.
pub fn get_random_word<P, F>(
    cache: &mut WordCache,
    index: &EmbeddingIndex,
    predicate: P,
    start_char: Option<char>,
    fetch: F,
) -> (r: Result<WordInfo, DictionaryError>) where
    P: Fn(&str) -> bool,
    F: Fn(&str) -> Option<Vec<DictEntry>>,

    requires
        forall|s: &str| predicate.requires((s,)),
        forall|s: &str| fetch.requires((s,)),
    ensures
        picked_and_resolved(old(cache)@, index@, predicate, start_char, fetch, r),
        r matches Ok(info) ==> accepts(predicate, info@.word) && sound_entry(info@.word, info@)
            && final(cache)@.submap_of(old(cache)@.insert(info@.word, info@)) && exists|
            c: char,
            j: int,
        |
            #![trigger may_begin(start_char, c), index@[j]]
            may_begin(start_char, c) && is_candidate(index@, c, j) && index@[j].word == info@.word,
        r is Err ==> final(cache)@.submap_of(old(cache)@),
        r is Err && old(cache).within_limit() ==> final(cache)@ == old(cache)@,
        r matches Ok(info) ==> (has_room(
            old(cache)@.insert(info@.word, info@),
            old(cache).limit(),
        ) ==> final(cache)@ == old(cache)@.insert(info@.word, info@)),
        final(cache).limit() == old(cache).limit(),
{
    match random_word(index, predicate, start_char) {
        Ok(word) => {
            let r = get_word_details(cache, index, word.as_str(), fetch);
            proof {
                let (c, j) = choose|c: char, j: int|
                    #![trigger may_begin(start_char, c), index@[j]]
                    may_begin(start_char, c) && is_candidate(index@, c, j) && index@[j].word
                        == word@;
                assert(may_begin(start_char, c) && is_candidate(index@, c, j) && accepts(
                    predicate,
                    index@[j].word,
                ) && resolves_to(old(cache)@, index@, index@[j].word, fetch, r));
            }
            r
        },
        Err(e) => {
            assert(cache@.submap_of(old(cache)@));
            Err(e)
        },
    }
}

/// Picks one of the six games at random.
pub fn random_game() -> Game {
    match random_index(6) {
        Some(i) => Game::at(i),
        None => Game::WordChain,
    }
}

} // verus!
