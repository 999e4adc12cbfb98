//! The chain of a game: the words played so far, no two of which share a
//! stem.

use vstd::prelude::*;
use crate::dictionary::{
    copy_texts, infos, keys_of, shares_stem, stem_keys, WordInfo, WordInfoView,
};
use crate::letters::{lists_overlap, shares_entry, texts};

verus! {

/// No two words of the chain share a stem.
pub open spec fn no_shared_stems(chain: Seq<WordInfoView>) -> bool {
    forall|i: int, j: int|
        0 <= i < j < chain.len() ==> !shares_stem(#[trigger] chain[i], #[trigger] chain[j])
}

/// The keys of all words of the chain, in order.
pub open spec fn used_keys(chain: Seq<WordInfoView>) -> Seq<Seq<char>>
    decreases chain.len(),
{
    if chain.len() == 0 {
        Seq::empty()
    } else {
        used_keys(chain.drop_last()) + stem_keys(chain.last())
    }
}

/// Some word of the chain shares a stem with `info`.
pub open spec fn is_used(chain: Seq<WordInfoView>, info: WordInfoView) -> bool {
    exists|i: int| 0 <= i < chain.len() && shares_stem(#[trigger] chain[i], info)
}

/// A list of keys meets the keys of a chain where it meets those of one of
/// its words.
pub proof fn lemma_used_keys(chain: Seq<WordInfoView>, keys: Seq<Seq<char>>)
    ensures
        lists_overlap(used_keys(chain), keys) <==> exists|i: int|
            0 <= i < chain.len() && lists_overlap(stem_keys(#[trigger] chain[i]), keys),
    decreases chain.len(),
{
    if chain.len() > 0 {
        let head = chain.drop_last();
        let last = stem_keys(chain.last());
        lemma_used_keys(head, keys);
        if lists_overlap(used_keys(chain), keys) {
            let (a, b) = choose|a: int, b: int|
                0 <= a < used_keys(chain).len() && 0 <= b < keys.len() && used_keys(chain)[a]
                    == keys[b];
            if a < used_keys(head).len() {
                assert(used_keys(head)[a] == keys[b]);
                let i = choose|i: int|
                    0 <= i < head.len() && lists_overlap(stem_keys(#[trigger] head[i]), keys);
                assert(chain[i] == head[i]);
            } else {
                assert(last[a - used_keys(head).len()] == keys[b]);
                assert(lists_overlap(stem_keys(chain[chain.len() - 1]), keys));
            }
        }
        if exists|i: int|
            0 <= i < chain.len() && lists_overlap(stem_keys(#[trigger] chain[i]), keys) {
            let i = choose|i: int|
                0 <= i < chain.len() && lists_overlap(stem_keys(#[trigger] chain[i]), keys);
            if i < head.len() {
                assert(head[i] == chain[i]);
                let (a, b) = choose|a: int, b: int|
                    0 <= a < used_keys(head).len() && 0 <= b < keys.len() && used_keys(head)[a]
                        == keys[b];
                assert(used_keys(chain)[a] == keys[b]);
            } else {
                let (a, b) = choose|a: int, b: int|
                    0 <= a < last.len() && 0 <= b < keys.len() && last[a] == keys[b];
                assert(used_keys(chain)[used_keys(head).len() + a] == keys[b]);
            }
        }
    }
}

/// The words played so far.
#[derive(Debug)]
pub struct Chain {
    words: Vec<WordInfo>,
    keys: Vec<String>,
}

impl View for Chain {
    type V = Seq<WordInfoView>;

    closed spec fn view(&self) -> Seq<WordInfoView> {
        infos(self.words@)
    }
}

impl Clone for Chain {
    /// A copy of the chain.
    fn clone(&self) -> (copy: Chain)
        ensures
            copy@ == self@,
    {
        proof {
            use_type_invariant(self);
        }
        let mut words: Vec<WordInfo> = Vec::new();
        let mut i: usize = 0;
        while i < self.words.len()
            invariant
                i <= self.words.len(),
                infos(words@) == infos(self.words@).take(i as int),
            decreases self.words.len() - i,
        {
            let ghost before = words@;
            let w = self.words[i].copied();
            words.push(w);
            proof {
                assert(infos(words@) =~= infos(before).push(w@));
                assert(infos(self.words@).take(i as int + 1) =~= infos(self.words@).take(
                    i as int,
                ).push(self.words@[i as int]@));
            }
            i += 1;
        }
        assert(infos(self.words@).take(self.words.len() as int) =~= infos(self.words@));
        let keys = copy_texts(&self.keys);
        Chain { words, keys }
    }
}

impl Chain {
    #[verifier::type_invariant]
    spec fn inv(&self) -> bool {
        &&& no_shared_stems(infos(self.words@))
        &&& texts(self.keys@) == used_keys(infos(self.words@))
    }

    /// The chain without a word.
    pub fn new() -> (chain: Chain)
        ensures
            chain@ == Seq::<WordInfoView>::empty(),
    {
        let words: Vec<WordInfo> = Vec::new();
        let keys: Vec<String> = Vec::new();
        assert(infos(words@) =~= Seq::<WordInfoView>::empty());
        assert(texts(keys@) =~= used_keys(infos(words@)));
        Chain { words, keys }
    }

    /// The number of words in the chain.
    pub fn len(&self) -> (n: usize)
        ensures
            n == self@.len(),
            no_shared_stems(self@),
    {
        proof {
            use_type_invariant(self);
        }
        self.words.len()
    }

    /// The words of the chain, in the order in which they were played.
    pub fn words(&self) -> (words: &Vec<WordInfo>)
        ensures
            infos(words@) == self@,
            no_shared_stems(self@),
    {
        proof {
            use_type_invariant(self);
        }
        &self.words
    }

    /// The word played last.
    pub fn last(&self) -> (word: Option<&WordInfo>)
        ensures
            self@.len() == 0 ==> word is None,
            self@.len() > 0 ==> (word matches Some(w) && w@ == self@.last()),
    {
        if self.words.len() == 0 {
            None
        } else {
            Some(&self.words[self.words.len() - 1])
        }
    }

    /// The keys of all words of the chain.
    pub fn keys(&self) -> (keys: &Vec<String>)
        ensures
            texts(keys@) == used_keys(self@),
    {
        proof {
            use_type_invariant(self);
        }
        &self.keys
    }

    /// Tells whether a word of the chain shares a stem with `info`.
    pub fn uses(&self, info: &WordInfo) -> (used: bool)
        ensures
            used == is_used(self@, info@),
            no_shared_stems(self@),
    {
        proof {
            use_type_invariant(self);
            lemma_used_keys(self@, stem_keys(info@));
        }
        let keys = keys_of(info);
        shares_entry(self.keys.as_slice(), keys.as_slice())
    }

    /// Adds a word to the chain, unless a word of the chain shares a stem
    /// with it. Tells whether the word was added.
    pub fn push(self, info: WordInfo) -> (r: (Chain, bool))
        ensures
            r.1 == !is_used(self@, info@),
            r.1 ==> r.0@ == self@.push(info@),
            !r.1 ==> r.0@ == self@,
            no_shared_stems(r.0@),
    {
        proof {
            use_type_invariant(&self);
            lemma_used_keys(self@, stem_keys(info@));
        }
        let ghost before = self@;
        let fresh = keys_of(&info);
        if shares_entry(self.keys.as_slice(), fresh.as_slice()) {
            return (self, false);
        }
        let Chain { mut words, mut keys } = self;
        let ghost old_keys = keys@;
        let ghost old_words = words@;
        let mut i: usize = 0;
        assert(texts(fresh@).take(0) =~= Seq::<Seq<char>>::empty());
        while i < fresh.len()
            invariant
                i <= fresh.len(),
                texts(keys@) == texts(old_keys) + texts(fresh@).take(i as int),
            decreases fresh.len() - i,
        {
            let ghost prior = keys@;
            keys.push(fresh[i].clone());
            proof {
                assert(texts(keys@) =~= texts(prior).push(fresh@[i as int]@));
                assert(texts(fresh@).take(i as int + 1) =~= texts(fresh@).take(i as int).push(
                    fresh@[i as int]@,
                ));
            }
            i += 1;
        }
        let ghost added = info@;
        words.push(info);
        proof {
            assert(texts(fresh@).take(fresh.len() as int) =~= texts(fresh@));
            assert(infos(words@) =~= before.push(added));
            assert(infos(words@).drop_last() =~= before);
            assert forall|a: int, b: int| 0 <= a < b < infos(words@).len() implies !shares_stem(
                #[trigger] infos(words@)[a],
                #[trigger] infos(words@)[b],
            ) by {
                if b < before.len() {
                    assert(!shares_stem(before[a], before[b]));
                } else {
                    assert(before[a] == infos(words@)[a]);
                    assert(!shares_stem(before[a], added));
                }
            }
        }
        (Chain { words, keys }, true)
    }
}

} // verus!
