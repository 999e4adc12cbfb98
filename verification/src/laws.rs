//! What holds of the engine as a whole, stated over the models that the
//! contracts of its functions use.

use vstd::prelude::*;
use crate::cache::{lemma_loaded_from_exact_list, lists_exactly, loaded, sound};
use crate::chain::{is_used, no_shared_stems};
use crate::cosine::{cosine_score, lemma_self_score, norm_sq, SCORE_ONE};
use crate::dictionary::{shares_stem, WordInfo, WordInfoView};
use crate::embeddings::{
    accepts, is_best, lemma_lookup_at, lookup, similarity_of, valid_rows, Row,
};
use crate::letters::{has_forbidden, lists_overlap, lowered};
use crate::state::State;

verus! {

/// Two lists share an entry whichever of them is asked first.
pub proof fn law_overlap_is_mutual(a: Seq<Seq<char>>, b: Seq<Seq<char>>)
    ensures
        lists_overlap(a, b) == lists_overlap(b, a),
{
    if lists_overlap(a, b) {
        let (i, j) = choose|i: int, j: int| 0 <= i < a.len() && 0 <= j < b.len() && a[i] == b[j];
        assert(b[j] == a[i]);
    }
    if lists_overlap(b, a) {
        let (i, j) = choose|i: int, j: int| 0 <= i < b.len() && 0 <= j < a.len() && b[i] == a[j];
        assert(a[j] == b[i]);
    }
}

/// A list without entries shares no entry with any list.
pub proof fn law_nothing_overlaps_the_empty_list(a: Seq<Seq<char>>, b: Seq<Seq<char>>)
    requires
        a.len() == 0 || b.len() == 0,
    ensures
        !lists_overlap(lowered(a), lowered(b)),
{
}

/// Two words share a stem whichever of them is asked first.
pub proof fn law_shared_stem_is_mutual(a: WordInfoView, b: WordInfoView)
    ensures
        shares_stem(a, b) == shares_stem(b, a),
{
    let ka = crate::dictionary::stem_keys(a);
    let kb = crate::dictionary::stem_keys(b);
    if shares_stem(a, b) {
        let (i, j) = choose|i: int, j: int| 0 <= i < ka.len() && 0 <= j < kb.len() && ka[i] == kb[j];
        assert(kb[j] == ka[i]);
    }
    if shares_stem(b, a) {
        let (i, j) = choose|i: int, j: int| 0 <= i < kb.len() && 0 <= j < ka.len() && kb[i] == ka[j];
        assert(ka[j] == kb[i]);
    }
}

/// A chain stays free of repeats when a word is added that shares no stem
/// with any of its words.
pub proof fn law_added_word_keeps_chain_distinct(chain: Seq<WordInfoView>, info: WordInfoView)
    requires
        no_shared_stems(chain),
        !is_used(chain, info),
    ensures
        no_shared_stems(chain.push(info)),
{
    let grown = chain.push(info);
    assert forall|i: int, j: int| 0 <= i < j < grown.len() implies !shares_stem(
        #[trigger] grown[i],
        #[trigger] grown[j],
    ) by {
        if j < chain.len() {
            assert(!shares_stem(chain[i], chain[j]));
        } else {
            assert(grown[i] == chain[i]);
            assert(!shares_stem(chain[i], info));
        }
    }
}

/// In a chain without repeats, no word shares a stem with another word of
/// the chain.
pub proof fn law_no_word_shares_a_stem(chain: Seq<WordInfoView>, i: int, j: int)
    requires
        no_shared_stems(chain),
        0 <= i < chain.len(),
        0 <= j < chain.len(),
        i != j,
    ensures
        !shares_stem(chain[i], chain[j]),
{
    if i < j {
        assert(!shares_stem(chain[i], chain[j]));
    } else {
        assert(!shares_stem(chain[j], chain[i]));
        law_shared_stem_is_mutual(chain[i], chain[j]);
    }
}

/// In a game of forbidden letters, the characters of each word of the chain
/// and the forbidden letters have nothing in common.
pub proof fn law_forbidden_letters_stay_out(state: State, i: int)
    requires
        state.wf(),
        state is ForbiddenLetters,
        0 <= i < state.chain_view().len(),
    ensures
        state.chain_view()[i].word.to_set().disjoint(state.rules().forbidden_chars.to_set()),
{
    let word = state.chain_view()[i].word;
    let forbidden = state.rules().forbidden_chars;
    assert(!has_forbidden(word, forbidden));
    assert forall|c: char| !(word.to_set().contains(c) && forbidden.to_set().contains(c)) by {
        if word.contains(c) && forbidden.contains(c) {
            let k = choose|k: int| 0 <= k < word.len() && word[k] == c;
            assert(forbidden.contains(word[k]));
        }
    }
}

/// A word of the index whose vector is not the zero vector has the full
/// similarity score with itself.
pub proof fn law_self_similarity(rows: Seq<Row>, a: Seq<char>)
    requires
        valid_rows(rows),
        lookup(rows, a) is Some,
        norm_sq(lookup(rows, a).unwrap()) != 0,
    ensures
        similarity_of(rows, a, a) == Ok::<int, Seq<char>>(SCORE_ONE as int),
{
    lemma_self_score(lookup(rows, a).unwrap());
}

/// The word that a search for the most similar word finds is one that the
/// test accepted.
pub proof fn law_found_word_passed_the_test<P: Fn(&str) -> bool>(
    rows: Seq<Row>,
    pred: P,
    reference: Seq<i32>,
    c: char,
    j: int,
)
    requires
        is_best(rows, pred, reference, c, j),
    ensures
        accepts(pred, rows[j].word),
{
}

/// What a cache filled from a snapshot holds of a word, the cache that gave
/// the snapshot held of it: `snapshot` lists the entries of `saved`, and
/// `reloaded` holds nothing but what the snapshot makes known.
pub proof fn law_reloaded_cache_holds_saved_values(
    saved: Map<Seq<char>, WordInfoView>,
    snapshot: Seq<(String, WordInfo)>,
    reloaded: Map<Seq<char>, WordInfoView>,
)
    requires
        sound(saved),
        lists_exactly(snapshot, saved),
        reloaded.submap_of(loaded(snapshot)),
    ensures
        reloaded.submap_of(saved),
{
    lemma_loaded_from_exact_list(snapshot, saved);
}

/// A cache filled from the snapshot of a cache holds what that cache held,
/// where it keeps as many words as that cache held: `snapshot` lists the
/// entries of `saved`, and `reloaded` holds all that the snapshot makes
/// known where the snapshot has no more than `capacity` entries.
pub proof fn law_reloaded_cache_is_the_saved_cache(
    saved: Map<Seq<char>, WordInfoView>,
    snapshot: Seq<(String, WordInfo)>,
    reloaded: Map<Seq<char>, WordInfoView>,
    capacity: u64,
)
    requires
        sound(saved),
        lists_exactly(snapshot, saved),
        saved.len() <= capacity,
        snapshot.len() <= capacity ==> reloaded == loaded(snapshot),
    ensures
        snapshot.len() == saved.len(),
        reloaded == saved,
{
    lemma_loaded_from_exact_list(snapshot, saved);
}

} // verus!
