//! The search for the machine's answer to a move: a bounded number of
//! attempts, each of which proposes the most similar word that the rules
//! admit and that was not excluded before.

use vstd::prelude::*;
use crate::chain::{is_used, Chain};
use crate::cosine::cosine_score;
use crate::dictionary::{keys_of, DictionaryError, WordInfo, WordInfoView};
use crate::embeddings::{
    accepts, get_similar_word, holds, is_best, is_candidate, lookup, none_upto, rejects,
    EmbeddingError, EmbeddingIndex, Row,
};
use crate::letters::{contains_word, texts};
use crate::random::{may_begin, random_word};
use crate::rhyme::PhoneticDict;
use crate::rules::{check_word, first_violation, Constraints, MoveError, Rules};
use crate::text::{lowercase, lowercase_of};

verus! {

/// A search as plain values.
pub ghost struct SearchView {
    /// The word that the answer is sought to.
    pub previous: Seq<char>,
    /// The rules that the answer must meet.
    pub rules: Rules,
    /// The keys, in lower case, that the answer must not have.
    pub excluded: Seq<Seq<char>>,
    /// The number of attempts allowed.
    pub budget: nat,
    /// The number of attempts made.
    pub attempts: nat,
}

/// The search for an answer.
pub struct ResponseSearch {
    previous: String,
    constraints: Constraints,
    excluded: Vec<String>,
    budget: usize,
    attempts: usize,
}

impl View for ResponseSearch {
    type V = SearchView;

    closed spec fn view(&self) -> SearchView {
        SearchView {
            previous: self.previous@,
            rules: self.constraints@,
            excluded: texts(self.excluded@),
            budget: self.budget as nat,
            attempts: self.attempts as nat,
        }
    }
}

/// A step of the search.
#[derive(Clone, Debug, PartialEq, Eq)]
pub enum SearchStep {
    /// A word to resolve.
    Candidate(String),
    /// No attempt is left, or no word can be proposed.
    Exhausted,
}

/// The search admits a word: it is not excluded, and it meets the rules as
/// an answer to the previous word.
pub open spec fn admits(
    word: Seq<char>,
    s: SearchView,
    index: Seq<Row>,
    dict: Map<Seq<char>, Seq<Seq<char>>>,
) -> bool {
    !s.excluded.contains(lowercase_of(word)) && first_violation(
        word,
        Some(s.previous),
        s.rules,
        index,
        dict,
    ) is None
}

/// Row `j` holds the word that the search proposes: of the words under the
/// starting letter that it admits, the most similar one to the previous
/// word, and the first of those that are as similar.
pub open spec fn proposes(
    s: SearchView,
    index: Seq<Row>,
    dict: Map<Seq<char>, Seq<Seq<char>>>,
    j: int,
) -> bool {
    let reference = lookup(index, s.previous).unwrap();
    &&& s.rules.starting_char is Some
    &&& holds(index, s.previous)
    &&& is_candidate(index, s.rules.starting_char.unwrap(), j)
    &&& admits(index[j].word, s, index, dict)
    &&& forall|k: int|
        #![trigger index[k]]
        is_candidate(index, s.rules.starting_char.unwrap(), k) && admits(
            index[k].word,
            s,
            index,
            dict,
        ) ==> cosine_score(reference, index[k].vector) < cosine_score(reference, index[j].vector)
            || (cosine_score(reference, index[k].vector) == cosine_score(
            reference,
            index[j].vector,
        ) && j <= k)
}

/// The search has no word to propose: it has no starting letter, or the
/// previous word is not indexed, or it admits no word under the letter.
pub open spec fn nothing_to_propose(
    s: SearchView,
    index: Seq<Row>,
    dict: Map<Seq<char>, Seq<Seq<char>>>,
) -> bool {
    ||| s.rules.starting_char is None
    ||| !holds(index, s.previous)
    ||| forall|k: int|
        #![trigger index[k]]
        is_candidate(index, s.rules.starting_char.unwrap(), k) ==> !admits(
            index[k].word,
            s,
            index,
            dict,
        )
}

impl ResponseSearch {
    /// A search for an answer to `previous` under `constraints`, with the
    /// keys of the chain excluded and `budget` attempts to make.
    pub fn new(previous: &str, constraints: Constraints, chain: &Chain, budget: usize) -> (search:
        ResponseSearch)
        ensures
            search@.previous == previous@,
            search@.rules == constraints@,
            search@.excluded == crate::chain::used_keys(chain@),
            search@.budget == budget,
            search@.attempts == 0,
    {
        let excluded = crate::dictionary::copy_texts(chain.keys());
        ResponseSearch { previous: previous.to_owned(), constraints, excluded, budget, attempts: 0 }
    }

    /// The number of attempts made.
    pub fn attempts(&self) -> (n: usize)
        ensures
            n == self@.attempts,
    {
        self.attempts
    }

    /// The number of attempts allowed.
    pub fn budget(&self) -> (n: usize)
        ensures
            n == self@.budget,
    {
        self.budget
    }

    /// Tells whether the search admits a word.
    pub fn admits_word(&self, word: &str, index: &EmbeddingIndex, phonetics: &PhoneticDict) -> (ok:
        bool)
        ensures
            ok == admits(word@, self@, index@, phonetics@),
    {
        let key = lowercase(word);
        if contains_word(self.excluded.as_slice(), &key) {
            return false;
        }
        check_word(
            word,
            Some(self.previous.as_str()),
            &self.constraints,
            index,
            phonetics,
        ).is_none()
    }

    /// The word that the search proposes, if there is one.
    pub fn propose(&self, index: &EmbeddingIndex, phonetics: &PhoneticDict) -> (r: Option<String>)
        ensures
            match r {
                Some(word) => exists|j: int|
                    proposes(self@, index@, phonetics@, j) && (#[trigger] index@[j]).word == word@,
                None => nothing_to_propose(self@, index@, phonetics@),
            },
    {
        let letter = match self.constraints.starting_char {
            Some(c) => c,
            None => {
                return None;
            },
        };
        let test = |x: &str| -> (b: bool)
            ensures
                b == admits(x@, self@, index@, phonetics@),
            { self.admits_word(x, index, phonetics) };
        let ghost rows = index@;
        let ghost view = self@;
        let ghost dict = phonetics@;
        proof {
            assert forall|w: Seq<char>| accepts(test, w) implies admits(w, view, rows, dict) by {
                let s = choose|s: &str| s@ == w && test.ensures((s,), true);
                assert(test.ensures((s,), true));
            }
            assert forall|w: Seq<char>| rejects(test, w) implies !admits(w, view, rows, dict) by {
                let s = choose|s: &str| s@ == w && test.ensures((s,), false);
                assert(test.ensures((s,), false));
            }
        }
        match get_similar_word(index, self.previous.as_str(), letter, test) {
            Ok(found) => {
                proof {
                    let reference = lookup(rows, view.previous).unwrap();
                    let j = choose|j: int|
                        is_best(rows, test, reference, letter, j) && (#[trigger] rows[j]).word
                            == found@;
                    assert(accepts(test, rows[j].word));
                    assert forall|k: int|
                        #![trigger rows[k]]
                        is_candidate(rows, letter, k) && admits(
                            rows[k].word,
                            view,
                            rows,
                            dict,
                        ) implies cosine_score(reference, rows[k].vector) < cosine_score(
                        reference,
                        rows[j].vector,
                    ) || (cosine_score(reference, rows[k].vector) == cosine_score(
                        reference,
                        rows[j].vector,
                    ) && j <= k) by {
                        if rejects(test, rows[k].word) {
                            assert(!admits(rows[k].word, view, rows, dict));
                        }
                    }
                    assert(proposes(view, rows, dict, j));
                }
                Some(found)
            },
            Err(EmbeddingError::NoMatch(_)) => {
                proof {
                    assert forall|k: int|
                        #![trigger rows[k]]
                        is_candidate(rows, letter, k) implies !admits(
                        rows[k].word,
                        view,
                        rows,
                        dict,
                    ) by {
                        assert(rejects(test, rows[k].word));
                    }
                }
                None
            },
            Err(_) => None,
        }
    }

    /// Picks at random a word under the starting letter that the search
    /// admits: a word to play in the player's place, or to give as a hint.
    pub fn propose_random(&self, index: &EmbeddingIndex, phonetics: &PhoneticDict) -> (r: Option<
        String,
    >)
        ensures
            match r {
                Some(word) => self@.rules.starting_char is Some && admits(
                    word@,
                    self@,
                    index@,
                    phonetics@,
                ) && exists|j: int|
                    is_candidate(index@, self@.rules.starting_char.unwrap(), j) && (
                    #[trigger] index@[j]).word == word@,
                None => self@.rules.starting_char is None || forall|k: int|
                    #![trigger index@[k]]
                    is_candidate(index@, self@.rules.starting_char.unwrap(), k) ==> !admits(
                        index@[k].word,
                        self@,
                        index@,
                        phonetics@,
                    ),
            },
    {
        let letter = match self.constraints.starting_char {
            Some(c) => c,
            None => {
                return None;
            },
        };
        let test = |x: &str| -> (b: bool)
            ensures
                b == admits(x@, self@, index@, phonetics@),
            { self.admits_word(x, index, phonetics) };
        let ghost rows = index@;
        let ghost view = self@;
        let ghost dict = phonetics@;
        proof {
            assert forall|w: Seq<char>| accepts(test, w) implies admits(w, view, rows, dict) by {
                let s = choose|s: &str| s@ == w && test.ensures((s,), true);
                assert(test.ensures((s,), true));
            }
            assert forall|w: Seq<char>| rejects(test, w) implies !admits(w, view, rows, dict) by {
                let s = choose|s: &str| s@ == w && test.ensures((s,), false);
                assert(test.ensures((s,), false));
            }
        }
        match random_word(index, test, Some(letter)) {
            Ok(word) => {
                proof {
                    let (c, j) = choose|c: char, j: int|
                        #![trigger may_begin(Some(letter), c), rows[j]]
                        may_begin(Some(letter), c) && is_candidate(rows, c, j) && rows[j].word
                            == word@;
                    assert(is_candidate(rows, letter, j) && rows[j].word == word@);
                }
                Some(word)
            },
            Err(_) => {
                proof {
                    let c = choose|c: char|
                        #![trigger may_begin(Some(letter), c)]
                        may_begin(Some(letter), c) && forall|j: int|
                            #![trigger rows[j]]
                            is_candidate(rows, c, j) ==> rejects(test, rows[j].word);
                    assert forall|k: int|
                        #![trigger rows[k]]
                        is_candidate(rows, letter, k) implies !admits(
                        rows[k].word,
                        view,
                        rows,
                        dict,
                    ) by {
                        assert(rejects(test, rows[k].word));
                    }
                }
                None
            },
        }
    }

    /// Makes the next attempt. While attempts are left, one is made: where
    /// the search has a word to propose, that word is the step; where it
    /// has none, the attempts that are left are made in vain.
    pub fn next_candidate(&mut self, index: &EmbeddingIndex, phonetics: &PhoneticDict) -> (step:
        SearchStep)
        ensures
            final(self)@ == (SearchView { attempts: final(self)@.attempts, ..old(self)@ }),
            step matches SearchStep::Candidate(word) ==> {
                &&& old(self)@.attempts < old(self)@.budget
                &&& final(self)@.attempts == old(self)@.attempts + 1
                &&& exists|j: int|
                    proposes(old(self)@, index@, phonetics@, j) && (#[trigger] index@[j]).word
                        == word@
            },
            step is Exhausted ==> {
                &&& final(self)@.attempts >= final(self)@.budget
                &&& old(self)@.attempts <= old(self)@.budget ==> final(self)@.attempts
                    == old(self)@.budget
                &&& old(self)@.attempts < old(self)@.budget ==> nothing_to_propose(
                    old(self)@,
                    index@,
                    phonetics@,
                )
            },
    {
        if self.attempts >= self.budget {
            return SearchStep::Exhausted;
        }
        match self.propose(index, phonetics) {
            Some(word) => {
                self.attempts = self.attempts + 1;
                SearchStep::Candidate(word)
            },
            None => {
                while self.attempts < self.budget
                    invariant
                        self.attempts <= self.budget,
                        self@ == (SearchView { attempts: self@.attempts, ..old(self)@ }),
                        nothing_to_propose(self@, index@, phonetics@),
                    decreases self.budget - self.attempts,
                {
                    let again = self.propose(index, phonetics);
                    proof {
                        if again is Some {
                            let j = choose|j: int|
                                proposes(self@, index@, phonetics@, j) && (#[trigger] index@[j]).word
                                    == again->0@;
                            assert(is_candidate(index@, self@.rules.starting_char.unwrap(), j));
                        }
                    }
                    self.attempts = self.attempts + 1;
                }
                SearchStep::Exhausted
            },
        }
    }

    /// Takes in what resolving a proposed word came to. A resolved word that
    /// shares no stem with the chain is the answer. Otherwise the word is
    /// excluded, with the keys of what it resolved to, and the search goes
    /// on.
    pub fn settle(
        &mut self,
        candidate: &str,
        resolved: Result<WordInfo, DictionaryError>,
        chain: &Chain,
    ) -> (answer: Option<WordInfo>)
        ensures
            answer matches Some(info) ==> {
                &&& resolved matches Ok(given) && given@ == info@
                &&& !is_used(chain@, info@)
                &&& final(self)@ == old(self)@
            },
            answer is None ==> {
                &&& resolved matches Ok(given) ==> is_used(chain@, given@)
                &&& final(self)@ == (SearchView {
                    excluded: old(self)@.excluded + failure_keys(resolved) + seq![
                        lowercase_of(candidate@),
                    ],
                    ..old(self)@
                })
                &&& final(self)@.excluded.contains(lowercase_of(candidate@))
                &&& forall|k: Seq<char>|
                    old(self)@.excluded.contains(k) ==> final(self)@.excluded.contains(k)
            },
    {
        let ghost before = texts(self.excluded@);
        let ghost fresh = failure_keys(resolved);
        match resolved {
            Ok(info) => {
                if !chain.uses(&info) {
                    return Some(info);
                }
                let keys = keys_of(&info);
                let mut i: usize = 0;
                assert(texts(self.excluded@) =~= before + texts(keys@).take(0));
                while i < keys.len()
                    invariant
                        i <= keys.len(),
                        self@ == (SearchView { excluded: self@.excluded, ..old(self)@ }),
                        texts(self.excluded@) == before + texts(keys@).take(i as int),
                        forall|k: Seq<char>| before.contains(k) ==> self@.excluded.contains(k),
                    decreases keys.len() - i,
                {
                    let ghost prior = texts(self.excluded@);
                    self.excluded.push(keys[i].clone());
                    proof {
                        assert(texts(self.excluded@) =~= prior.push(keys@[i as int]@));
                        assert(texts(keys@).take(i as int + 1) =~= texts(keys@).take(i as int).push(
                            keys@[i as int]@,
                        ));
                        assert forall|k: Seq<char>| before.contains(k) implies texts(
                            self.excluded@,
                        ).contains(k) by {
                            vstd::seq_lib::lemma_seq_contains_after_push(prior, keys@[i as int]@, k);
                        }
                    }
                    i += 1;
                }
                assert(texts(keys@).take(keys.len() as int) =~= texts(keys@));
            },
            Err(_) => {
                assert(texts(self.excluded@) =~= before + fresh);
            },
        }
        assert(texts(self.excluded@) == before + fresh);
        let ghost prior = texts(self.excluded@);
        let key = lowercase(candidate);
        self.excluded.push(key);
        proof {
            assert(texts(self.excluded@) =~= prior.push(lowercase_of(candidate@)));
            assert(texts(self.excluded@) =~= before + fresh + seq![lowercase_of(candidate@)]);
            assert forall|k: Seq<char>| before.contains(k) implies texts(self.excluded@).contains(
                k,
            ) by {
                vstd::seq_lib::lemma_seq_contains_after_push(prior, lowercase_of(candidate@), k);
            }
            vstd::seq_lib::lemma_seq_contains_after_push(
                prior,
                lowercase_of(candidate@),
                lowercase_of(candidate@),
            );
        }
        None
    }
}

/// The answer `info` came from resolving, through `resolve`, a word that
/// meets the rules as an answer to `previous`.
pub open spec fn answers<F: Fn(&str) -> Result<WordInfo, DictionaryError>>(
    resolve: F,
    previous: Seq<char>,
    rules: Rules,
    index: Seq<Row>,
    dict: Map<Seq<char>, Seq<Seq<char>>>,
    info: WordInfoView,
) -> bool {
    exists|s: &str, given: WordInfo|
        resolve.ensures((s,), Ok(given)) && given@ == info && holds(index, s@) && first_violation(
            s@,
            Some(previous),
            rules,
            index,
            dict,
        ) is None
}

/// The search for an answer to `previous` as it begins: the keys of the
/// chain are excluded, and no attempt is made yet.
pub open spec fn search_begun(
    previous: Seq<char>,
    rules: Rules,
    chain: Seq<WordInfoView>,
    budget: nat,
) -> SearchView {
    SearchView { previous, rules, excluded: crate::chain::used_keys(chain), budget, attempts: 0 }
}

/// The keys that a failed proposal excludes besides the word proposed: the
/// keys of what the dictionary made known of it.
pub open spec fn failure_keys(resolved: Result<WordInfo, DictionaryError>) -> Seq<Seq<char>> {
    match resolved {
        Ok(given) => crate::dictionary::stem_keys(given@),
        Err(_) => Seq::empty(),
    }
}

/// The search after a proposal was of no use: one attempt more is made, and
/// the word is excluded with the keys of what it resolved to.
pub open spec fn after_failure(
    s: SearchView,
    word: Seq<char>,
    resolved: Result<WordInfo, DictionaryError>,
) -> SearchView {
    SearchView {
        excluded: s.excluded + failure_keys(resolved) + seq![lowercase_of(word)],
        attempts: s.attempts + 1,
        ..s
    }
}

/// What a search comes to, where the dictionary is asked through `resolve`.
/// Where no attempt is left or the search has nothing to propose, no valid
/// word is found. Else the word that the search proposes is resolved: what
/// the dictionary makes known is the answer where it shares no stem with
/// the chain; otherwise the search goes on after the failure.
pub open spec fn search_outcome<F: Fn(&str) -> Result<WordInfo, DictionaryError>>(
    resolve: F,
    s: SearchView,
    chain: Seq<WordInfoView>,
    index: Seq<Row>,
    dict: Map<Seq<char>, Seq<Seq<char>>>,
    r: Result<WordInfo, MoveError>,
) -> bool
    decreases s.budget - s.attempts,
{
    if s.attempts >= s.budget || nothing_to_propose(s, index, dict) {
        r matches Err(MoveError::NoValidWord)
    } else {
        exists|j: int, word: &str, resolved: Result<WordInfo, DictionaryError>|
            #![trigger index[j], resolve.ensures((word,), resolved)]
            proposes(s, index, dict, j) && word@ == index[j].word && resolve.ensures(
                (word,),
                resolved,
            ) && match resolved {
                Ok(given) => if is_used(chain, given@) {
                    search_outcome(
                        resolve,
                        after_failure(s, index[j].word, resolved),
                        chain,
                        index,
                        dict,
                        r,
                    )
                } else {
                    r matches Ok(info) && info@ == given@
                },
                Err(_) => search_outcome(
                    resolve,
                    after_failure(s, index[j].word, resolved),
                    chain,
                    index,
                    dict,
                    r,
                ),
            }
    }
}

/// A search comes to what the search after a failed proposal comes to.
proof fn lemma_outcome_after_failure<F: Fn(&str) -> Result<WordInfo, DictionaryError>>(
    resolve: F,
    s: SearchView,
    chain: Seq<WordInfoView>,
    index: Seq<Row>,
    dict: Map<Seq<char>, Seq<Seq<char>>>,
    j: int,
    word: &str,
    resolved: Result<WordInfo, DictionaryError>,
    r: Result<WordInfo, MoveError>,
)
    requires
        s.attempts < s.budget,
        proposes(s, index, dict, j),
        word@ == index[j].word,
        resolve.ensures((word,), resolved),
        resolved matches Ok(given) ==> is_used(chain, given@),
        search_outcome(resolve, after_failure(s, index[j].word, resolved), chain, index, dict, r),
    ensures
        search_outcome(resolve, s, chain, index, dict, r),
{
    assert(!nothing_to_propose(s, index, dict)) by {
        assert(is_candidate(index, s.rules.starting_char.unwrap(), j));
    }
}

/// A search whose proposal resolves to a word that shares no stem with the
/// chain comes to that word.
proof fn lemma_outcome_found<F: Fn(&str) -> Result<WordInfo, DictionaryError>>(
    resolve: F,
    s: SearchView,
    chain: Seq<WordInfoView>,
    index: Seq<Row>,
    dict: Map<Seq<char>, Seq<Seq<char>>>,
    j: int,
    word: &str,
    given: WordInfo,
    r: Result<WordInfo, MoveError>,
)
    requires
        s.attempts < s.budget,
        proposes(s, index, dict, j),
        word@ == index[j].word,
        resolve.ensures((word,), Ok(given)),
        !is_used(chain, given@),
        r matches Ok(info) && info@ == given@,
    ensures
        search_outcome(resolve, s, chain, index, dict, r),
{
    assert(!nothing_to_propose(s, index, dict)) by {
        assert(is_candidate(index, s.rules.starting_char.unwrap(), j));
    }
    let resolved: Result<WordInfo, DictionaryError> = Ok(given);
    assert(resolve.ensures((word,), resolved));
}

/// Selects the machine's answer to `previous`: up to `budget` attempts, each
/// of which proposes a word and asks the dictionary for it through
/// `resolve`. The answer meets the rules and shares no stem with the chain.
/// What the selection comes to is what the search comes to, from its
/// beginning.
pub fn select_response<F>(
    previous: &str,
    chain: &Chain,
    constraints: Constraints,
    index: &EmbeddingIndex,
    phonetics: &PhoneticDict,
    budget: usize,
    resolve: F,
) -> (r: Result<WordInfo, MoveError>) where F: Fn(&str) -> Result<WordInfo, DictionaryError>
    requires
        forall|s: &str| resolve.requires((s,)),
    ensures
        search_outcome(
            resolve,
            search_begun(previous@, constraints@, chain@, budget as nat),
            chain@,
            index@,
            phonetics@,
            r,
        ),
        match r {
            Ok(info) => !is_used(chain@, info@) && answers(
                resolve,
                previous@,
                constraints@,
                index@,
                phonetics@,
                info@,
            ),
            Err(e) => e == MoveError::NoValidWord,
        },
{
    let ghost begun = search_begun(previous@, constraints@, chain@, budget as nat);
    let mut search = ResponseSearch::new(previous, constraints, chain, budget);
    assert(search@ == begun);
    loop
        invariant
            forall|s: &str| resolve.requires((s,)),
            begun == search_begun(previous@, constraints@, chain@, budget as nat),
            search@.previous == previous@,
            search@.rules == constraints@,
            search@.budget == budget,
            search@.attempts <= budget,
            forall|r: Result<WordInfo, MoveError>| #[trigger]
                search_outcome(resolve, search@, chain@, index@, phonetics@, r) ==> search_outcome(
                    resolve,
                    begun,
                    chain@,
                    index@,
                    phonetics@,
                    r,
                ),
        decreases budget - search@.attempts,
    {
        let ghost before = search@;
        match search.next_candidate(index, phonetics) {
            SearchStep::Exhausted => {
                let r = Err(MoveError::NoValidWord);
                assert(search_outcome(resolve, before, chain@, index@, phonetics@, r));
                return r;
            },
            SearchStep::Candidate(word) => {
                let name = word.as_str();
                let resolved = resolve(name);
                let ghost kept = resolved;
                let ghost j = choose|j: int|
                    proposes(before, index@, phonetics@, j) && (#[trigger] index@[j]).word == word@;
                match search.settle(name, resolved, chain) {
                    Some(info) => {
                        let r = Ok(info);
                        proof {
                            let given = kept->Ok_0;
                            assert(resolve.ensures((name,), Ok(given)) && given@ == info@);
                            lemma_outcome_found(
                                resolve,
                                before,
                                chain@,
                                index@,
                                phonetics@,
                                j,
                                name,
                                given,
                                r,
                            );
                        }
                        return r;
                    },
                    None => {
                        proof {
                            assert(search@ == after_failure(before, index@[j].word, kept));
                            assert forall|r: Result<WordInfo, MoveError>| #[trigger]
                                search_outcome(
                                    resolve,
                                    search@,
                                    chain@,
                                    index@,
                                    phonetics@,
                                    r,
                                ) implies search_outcome(
                                resolve,
                                begun,
                                chain@,
                                index@,
                                phonetics@,
                                r,
                            ) by {
                                lemma_outcome_after_failure(
                                    resolve,
                                    before,
                                    chain@,
                                    index@,
                                    phonetics@,
                                    j,
                                    name,
                                    kept,
                                    r,
                                );
                            }
                        }
                    },
                }
            },
        }
    }
}

} // verus!
