//! The word cache: a bounded store of resolved words, and the steps by which
//! a word is resolved through it.

use vstd::prelude::*;
use crate::dictionary::{
    entry_views, info_of, word_info_from_entries, DictEntry, DictionaryError, WordInfo,
    WordInfoView,
};
use crate::embeddings::{holds, is_valid_word, EmbeddingIndex};

verus! {

/// The number of words that the cache of a running game holds at most.
pub const CACHE_SIZE: u64 = 100_000;

/// The cache of the `moka` crate. Its inside stays hidden: what it holds is
/// known by `cached` alone.
#[verifier::external_type_specification]
#[verifier::external_body]
#[verifier::reject_recursive_types(K)]
#[verifier::reject_recursive_types(V)]
#[verifier::reject_recursive_types(S)]
pub struct ExCache<K, V, S>(moka::sync::Cache<K, V, S>);

/// The entries that a `moka::sync::Cache` holds: each key with its value.
/// What the calls below do to the entries is taken from the source of the
/// crate and believed, not proved. It holds of a store that no other owner
/// reads or writes.
pub uninterp spec fn cached(store: moka::sync::Cache<String, WordInfo>) -> Map<
    Seq<char>,
    WordInfoView,
>;

/// The entries of a store that holds nothing.
pub open spec fn no_entries() -> Map<Seq<char>, WordInfoView> {
    Map::empty()
}

/// The number of entries that a `moka::sync::Cache` was made to keep:
/// what `Cache::new` was given. While a store holds no more entries than
/// that, it drops none. Taken from the source of the crate and believed,
/// not proved.
pub uninterp spec fn bound_of(store: moka::sync::Cache<String, WordInfo>) -> nat;

/// The store holds a finite number of entries, within its bound.
pub open spec fn has_room(entries: Map<Seq<char>, WordInfoView>, bound: nat) -> bool {
    entries.dom().finite() && entries.len() <= bound
}

/// Makes a store through `Cache::new`; it holds nothing, and its bound is
/// `capacity`. Believed, not proved.
#[verifier::external_body]
fn store_new(capacity: u64) -> (made: moka::sync::Cache<String, WordInfo>)
    ensures
        cached(made) == no_entries(),
        bound_of(made) == capacity,
{
    moka::sync::Cache::new(capacity)
}

/// Reads a store through `Cache::get`. What comes back is the value held
/// under the key, or nothing where the store holds none. The store may drop
/// entries once it has been read, and gains none; it drops none while it is
/// within its bound. The call does not unwind. Believed, not proved.
#[verifier::external_body]
fn store_get(store: &mut moka::sync::Cache<String, WordInfo>, key: &str) -> (r: Option<WordInfo>)
    ensures
        r matches Some(info) ==> cached(*old(store)).contains_key(key@) && cached(*old(store))[key@]
            == info@,
        r is None ==> !cached(*old(store)).contains_key(key@),
        cached(*final(store)).submap_of(cached(*old(store))),
        has_room(cached(*old(store)), bound_of(*old(store))) ==> cached(*final(store)) == cached(
            *old(store),
        ),
        bound_of(*final(store)) == bound_of(*old(store)),
    no_unwind
{
    store.get(key)
}

/// Writes to a store through `Cache::insert`. The store may drop entries as
/// it is written to, the new one among them; it gains no other entry, and
/// holds no older value under the key. Where the store with the new entry
/// is within its bound, it drops none: it holds what it held and the new
/// entry. The call does not unwind. Believed, not proved.
#[verifier::external_body]
fn store_insert(store: &mut moka::sync::Cache<String, WordInfo>, key: String, value: WordInfo)
    ensures
        cached(*final(store)).submap_of(cached(*old(store)).insert(key@, value@)),
        has_room(cached(*old(store)).insert(key@, value@), bound_of(*old(store))) ==> cached(
            *final(store),
        ) == cached(*old(store)).insert(key@, value@),
        bound_of(*final(store)) == bound_of(*old(store)),
    no_unwind
{
    store.insert(key, value)
}

/// Lists a store through `Cache::iter`: each pair that comes back is an
/// entry of the store, each entry of the store comes back, and no key comes
/// back twice. The store stays as it is. The call does not unwind.
/// Believed, not proved.
#[verifier::external_body]
fn store_entries(store: &mut moka::sync::Cache<String, WordInfo>) -> (entries: Vec<
    (String, WordInfo),
>)
    ensures
        forall|i: int|
            0 <= i < entries@.len() ==> cached(*old(store)).contains_key(
                (#[trigger] entries@[i]).0@,
            ) && cached(*old(store))[entries@[i].0@] == entries@[i].1@,
        forall|k: Seq<char>| #[trigger]
            cached(*old(store)).contains_key(k) ==> exists|i: int|
                0 <= i < entries@.len() && (#[trigger] entries@[i]).0@ == k,
        forall|i: int, j: int|
            0 <= i < j < entries@.len() ==> (#[trigger] entries@[i]).0@ != (
            #[trigger] entries@[j]).0@,
        cached(*final(store)) == cached(*old(store)),
        bound_of(*final(store)) == bound_of(*old(store)),
    no_unwind
{
    store.iter().map(|(k, v)| (k.as_ref().clone(), v)).collect()
}

/// An entry that the cache keeps: it stands under its own word and has a
/// definition.
pub open spec fn sound_entry(key: Seq<char>, info: WordInfoView) -> bool {
    info.word == key && info.defs.len() > 0
}

/// The entries are finite in number, and each is one that the cache keeps.
pub open spec fn sound(entries: Map<Seq<char>, WordInfoView>) -> bool {
    &&& entries.dom().finite()
    &&& forall|k: Seq<char>| #[trigger] entries.contains_key(k) ==> sound_entry(k, entries[k])
}

/// What a snapshot makes known: each of its entries that the cache keeps,
/// under its key; of two entries with one key, the later one.
pub open spec fn loaded(entries: Seq<(String, WordInfo)>) -> Map<Seq<char>, WordInfoView>
    decreases entries.len(),
{
    if entries.len() == 0 {
        Map::empty()
    } else if sound_entry(entries.last().0@, entries.last().1@) {
        loaded(entries.drop_last()).insert(entries.last().0@, entries.last().1@)
    } else {
        loaded(entries.drop_last())
    }
}

/// The snapshot lists the entries of `saved`, each once.
pub open spec fn lists_exactly(
    snapshot: Seq<(String, WordInfo)>,
    saved: Map<Seq<char>, WordInfoView>,
) -> bool {
    &&& forall|i: int|
        0 <= i < snapshot.len() ==> saved.contains_key((#[trigger] snapshot[i]).0@)
            && saved[snapshot[i].0@] == snapshot[i].1@
    &&& forall|k: Seq<char>| #[trigger]
        saved.contains_key(k) ==> exists|i: int|
            0 <= i < snapshot.len() && (#[trigger] snapshot[i]).0@ == k
    &&& forall|i: int, j: int|
        0 <= i < j < snapshot.len() ==> (#[trigger] snapshot[i]).0@ != (#[trigger] snapshot[j]).0@
}

/// What a snapshot makes known is sound, and holds no more entries than the
/// snapshot.
pub proof fn lemma_loaded_sound(entries: Seq<(String, WordInfo)>)
    ensures
        sound(loaded(entries)),
        loaded(entries).len() <= entries.len(),
    decreases entries.len(),
{
    if entries.len() > 0 {
        lemma_loaded_sound(entries.drop_last());
        let head = loaded(entries.drop_last());
        let k = entries.last().0@;
        let v = entries.last().1@;
        if sound_entry(k, v) {
            assert(head.insert(k, v).dom() =~= head.dom().insert(k));
            assert forall|x: Seq<char>| #[trigger] head.insert(k, v).contains_key(x) implies sound_entry(
                x,
                head.insert(k, v)[x],
            ) by {
                if x != k {
                    assert(head.contains_key(x));
                }
            }
        }
    }
}

/// What a snapshot that lists a sound cache exactly makes known, is what the
/// cache held.
pub proof fn lemma_loaded_from_exact_list(
    snapshot: Seq<(String, WordInfo)>,
    saved: Map<Seq<char>, WordInfoView>,
)
    requires
        sound(saved),
        lists_exactly(snapshot, saved),
    ensures
        loaded(snapshot) == saved,
        snapshot.len() == saved.len(),
    decreases snapshot.len(),
{
    if snapshot.len() == 0 {
        assert(loaded(snapshot) =~= saved) by {
            assert forall|k: Seq<char>| !saved.contains_key(k) by {
                if saved.contains_key(k) {
                    let i = choose|i: int|
                        0 <= i < snapshot.len() && (#[trigger] snapshot[i]).0@ == k;
                }
            }
        }
    } else {
        let head = snapshot.drop_last();
        let last = snapshot.last();
        let n = snapshot.len() - 1;
        assert(snapshot[n] == last);
        assert(saved.contains_key(last.0@) && saved[last.0@] == last.1@);
        let rest = saved.remove(last.0@);
        assert(sound(rest)) by {
            assert(rest.dom() =~= saved.dom().remove(last.0@));
            assert forall|k: Seq<char>| #[trigger] rest.contains_key(k) implies sound_entry(
                k,
                rest[k],
            ) by {
                assert(saved.contains_key(k));
            }
        }
        assert(lists_exactly(head, rest)) by {
            assert forall|i: int| 0 <= i < head.len() implies rest.contains_key(
                (#[trigger] head[i]).0@,
            ) && rest[head[i].0@] == head[i].1@ by {
                assert(head[i] == snapshot[i]);
                assert(snapshot[i].0@ != snapshot[n].0@);
            }
            assert forall|k: Seq<char>| #[trigger] rest.contains_key(k) implies exists|i: int|
                0 <= i < head.len() && (#[trigger] head[i]).0@ == k by {
                assert(saved.contains_key(k));
                let i = choose|i: int| 0 <= i < snapshot.len() && (#[trigger] snapshot[i]).0@ == k;
                assert(i != n);
                assert(head[i] == snapshot[i]);
            }
            assert forall|i: int, j: int| 0 <= i < j < head.len() implies (#[trigger] head[i]).0@ != (
            #[trigger] head[j]).0@ by {
                assert(head[i] == snapshot[i] && head[j] == snapshot[j]);
            }
        }
        lemma_loaded_from_exact_list(head, rest);
        assert(sound_entry(last.0@, last.1@));
        assert(loaded(snapshot) =~= saved);
    }
}

/// The word cache.
pub struct WordCache {
    store: moka::sync::Cache<String, WordInfo>,
}

impl View for WordCache {
    type V = Map<Seq<char>, WordInfoView>;

    closed spec fn view(&self) -> Map<Seq<char>, WordInfoView> {
        cached(self.store)
    }
}

/// A step in resolving a word.
#[derive(Clone, Debug, PartialEq, Eq)]
pub enum ResolveStep {
    /// The cache holds the word.
    Hit(WordInfo),
    /// The word is not in the index of valid words.
    Unknown,
    /// The dictionary must be asked.
    Fetch,
}

/// What a sound store keeps of its entries is sound.
pub proof fn lemma_sound_submap(small: Map<Seq<char>, WordInfoView>, big: Map<Seq<char>, WordInfoView>)
    requires
        sound(big),
        small.submap_of(big),
    ensures
        sound(small),
{
    assert forall|k: Seq<char>| #[trigger] small.contains_key(k) implies sound_entry(k, small[k]) by {
        assert(big.contains_key(k));
    }
    assert(small.dom().subset_of(big.dom())) by {
        assert forall|k: Seq<char>| small.dom().contains(k) implies big.dom().contains(k) by {
            assert(small.contains_key(k));
            assert(big.contains_key(k));
        }
    }
    vstd::set_lib::lemma_len_subset(small.dom(), big.dom());
}

impl WordCache {
    #[verifier::type_invariant]
    spec fn inv(&self) -> bool {
        sound(cached(self.store))
    }

    /// The number of words that the cache was made to keep. While it holds
    /// no more, it drops none.
    pub closed spec fn limit(&self) -> nat {
        bound_of(self.store)
    }

    /// The cache holds no more words than it was made to keep.
    pub open spec fn within_limit(&self) -> bool {
        has_room(self@, self.limit())
    }

    /// A cache that holds nothing and keeps up to `capacity` words.
    pub fn new(capacity: u64) -> (cache: WordCache)
        ensures
            cache@ == Map::<Seq<char>, WordInfoView>::empty(),
            cache.limit() == capacity,
    {
        WordCache { store: store_new(capacity) }
    }

    /// Looks a word up. The cache gains nothing; it may drop entries
    /// afterwards, but drops none while it is within its limit.
    pub fn lookup(&mut self, word: &str) -> (r: Option<WordInfo>)
        ensures
            r matches Some(info) ==> old(self)@.contains_key(word@) && old(self)@[word@] == info@
                && sound_entry(word@, info@),
            r is None ==> !old(self)@.contains_key(word@),
            final(self)@.submap_of(old(self)@),
            old(self).within_limit() ==> final(self)@ == old(self)@,
            final(self).limit() == old(self).limit(),
            sound(final(self)@),
    {
        proof {
            use_type_invariant(&*self);
            let before = cached(self.store);
            assert forall|m: Map<Seq<char>, WordInfoView>| #[trigger]
                m.submap_of(before) implies sound(m) by {
                lemma_sound_submap(m, before);
            }
        }
        store_get(&mut self.store, word)
    }

    /// Puts a word into the cache, under its own word. A word without a
    /// definition is not kept. The cache may drop entries, the new one among
    /// them; where the cache with the new word is within its limit, it
    /// drops none.
    pub fn insert(&mut self, info: WordInfo)
        ensures
            info@.defs.len() > 0 ==> final(self)@.submap_of(old(self)@.insert(info@.word, info@)),
            info@.defs.len() > 0 && has_room(
                old(self)@.insert(info@.word, info@),
                old(self).limit(),
            ) ==> final(self)@ == old(self)@.insert(info@.word, info@),
            info@.defs.len() == 0 ==> final(self)@ == old(self)@,
            final(self).limit() == old(self).limit(),
            sound(final(self)@),
    {
        proof {
            use_type_invariant(&*self);
        }
        if info.defs.len() == 0 {
            return ;
        }
        let key = info.word.clone();
        proof {
            let after = cached(self.store).insert(key@, info@);
            assert(sound(after)) by {
                assert(after.dom() =~= cached(self.store).dom().insert(key@));
                assert forall|k: Seq<char>| #[trigger] after.contains_key(k) implies sound_entry(
                    k,
                    after[k],
                ) by {
                    if k != key@ {
                        assert(cached(self.store).contains_key(k));
                    }
                }
            }
            assert forall|m: Map<Seq<char>, WordInfoView>| #[trigger]
                m.submap_of(after) implies sound(m) by {
                lemma_sound_submap(m, after);
            }
        }
        store_insert(&mut self.store, key, info);
    }

    /// The entries of the cache, for a snapshot: each word that the cache
    /// holds, once, with what it holds of it. The cache stays as it is.
    pub fn entries(&mut self) -> (entries: Vec<(String, WordInfo)>)
        ensures
            lists_exactly(entries@, old(self)@),
            final(self)@ == old(self)@,
            final(self).limit() == old(self).limit(),
            sound(final(self)@),
    {
        proof {
            use_type_invariant(&*self);
        }
        store_entries(&mut self.store)
    }

    /// A cache filled from the entries of a snapshot, one after the other.
    /// An entry that does not stand under its own word, or has no
    /// definition, is left out. Where the snapshot has no more entries than
    /// the cache keeps, the cache holds all that the snapshot makes known.
    pub fn from_entries(capacity: u64, entries: Vec<(String, WordInfo)>) -> (cache: WordCache)
        ensures
            sound(cache@),
            cache.limit() == capacity,
            cache@.submap_of(loaded(entries@)),
            entries@.len() <= capacity ==> cache@ == loaded(entries@),
    {
        let mut cache = WordCache::new(capacity);
        assert(entries@.take(0) =~= Seq::<(String, WordInfo)>::empty());
        for entry in it: entries
            invariant
                it.seq() == entries@,
                sound(cache@),
                cache.limit() == capacity,
                cache@.submap_of(loaded(entries@.take(it.index() as int))),
                entries@.len() <= capacity ==> cache@ == loaded(entries@.take(it.index() as int)),
        {
            let ghost n = it.index() as int;
            let ghost before = cache@;
            let ghost known = loaded(entries@.take(n));
            let ghost key = entry.0@;
            let ghost value = entry.1@;
            proof {
                assert(entries@[n] == entry);
                assert(entries@.take(n + 1).drop_last() =~= entries@.take(n));
                assert(entries@.take(n + 1).last() == entry);
                lemma_loaded_sound(entries@.take(n));
                lemma_loaded_sound(entries@.take(n + 1));
            }
            let fits = entry.0 == entry.1.word;
            if fits {
                proof {
                    if value.defs.len() > 0 {
                        assert(sound_entry(key, value));
                        let mid = before.insert(key, value);
                        assert forall|k: Seq<char>| #[trigger] mid.contains_key(k) implies (k == key
                            && mid[k] == value) || (k != key && known.contains_key(k) && mid[k]
                            == known[k]) by {
                            if k != key {
                                assert(before.contains_key(k));
                                assert(known.contains_key(k));
                                assert(before[k] == known[k]);
                            }
                        }
                        assert forall|m: Map<Seq<char>, WordInfoView>| #[trigger]
                            m.submap_of(mid) implies m.submap_of(known.insert(key, value)) by {
                            lemma_submap_grown(m, mid, known, key, value);
                        }
                    }
                }
                cache.insert(entry.1);
            }
        }
        assert(entries@.take(entries@.len() as int) =~= entries@);
        cache
    }
}

/// Begins to resolve a word: the cache is asked first; a word that it does
/// not hold must be in the index of valid words for the dictionary to be
/// asked.
pub fn begin_resolve(cache: &mut WordCache, index: &EmbeddingIndex, word: &str) -> (step:
    ResolveStep)
    ensures
        match step {
            ResolveStep::Hit(info) => old(cache)@.contains_key(word@) && old(cache)@[word@] == info@
                && sound_entry(word@, info@),
            ResolveStep::Unknown => !old(cache)@.contains_key(word@) && !holds(index@, word@),
            ResolveStep::Fetch => !old(cache)@.contains_key(word@) && holds(index@, word@),
        },
        final(cache)@.submap_of(old(cache)@),
        old(cache).within_limit() ==> final(cache)@ == old(cache)@,
        final(cache).limit() == old(cache).limit(),
        sound(final(cache)@),
{
    match cache.lookup(word) {
        Some(info) => ResolveStep::Hit(info),
        None => {
            if is_valid_word(index, word) {
                ResolveStep::Fetch
            } else {
                ResolveStep::Unknown
            }
        },
    }
}

/// What the dictionary's answer makes of a word: `fetched` leads to `r`.
pub open spec fn resolved_from(
    word: Seq<char>,
    fetched: Option<Vec<DictEntry>>,
    r: Result<WordInfo, DictionaryError>,
) -> bool {
    match fetched {
        Some(entries) => match info_of(word, entry_views(entries@)) {
            Some(v) => r matches Ok(info) && info@ == v,
            None => r matches Err(DictionaryError::LookupFailed(w)) && w@ == word,
        },
        None => r matches Err(DictionaryError::LookupFailed(w)) && w@ == word,
    }
}

/// Ends the resolving of a word with the dictionary's answer: its records,
/// or nothing where the dictionary failed. A word that the records make
/// known is put into the cache.
pub fn finish_resolve(cache: &mut WordCache, word: &str, fetched: Option<Vec<DictEntry>>) -> (r:
    Result<WordInfo, DictionaryError>)
    ensures
        resolved_from(word@, fetched, r),
        r matches Ok(info) ==> sound_entry(word@, info@) && final(cache)@.submap_of(
            old(cache)@.insert(word@, info@),
        ),
        r matches Ok(info) ==> (has_room(old(cache)@.insert(word@, info@), old(cache).limit())
            ==> final(cache)@ == old(cache)@.insert(word@, info@)),
        r is Err ==> final(cache)@ == old(cache)@,
        final(cache).limit() == old(cache).limit(),
        sound(final(cache)@),
{
    match &fetched {
        Some(entries) => {
            match word_info_from_entries(word, entries.as_slice()) {
                Ok(info) => {
                    cache.insert(info.copied());
                    Ok(info)
                },
                Err(e) => {
                    proof {
                        use_type_invariant(&*cache);
                    }
                    Err(e)
                },
            }
        },
        None => {
            proof {
                use_type_invariant(&*cache);
            }
            Err(DictionaryError::LookupFailed(word.to_owned()))
        },
    }
}

/// Where each entry of `mid` is the entry of `key` or, under another key, an
/// entry of `big`, what a store keeps of `mid` is kept of `big` with the
/// entry of `key` put in.
pub proof fn lemma_submap_grown(
    small: Map<Seq<char>, WordInfoView>,
    mid: Map<Seq<char>, WordInfoView>,
    big: Map<Seq<char>, WordInfoView>,
    key: Seq<char>,
    value: WordInfoView,
)
    requires
        small.submap_of(mid),
        forall|k: Seq<char>| #[trigger]
            mid.contains_key(k) ==> (k == key && mid[k] == value) || (k != key
                && big.contains_key(k) && mid[k] == big[k]),
    ensures
        small.submap_of(big.insert(key, value)),
{
    let grown = big.insert(key, value);
    assert forall|k: Seq<char>| #[trigger] small.contains_key(k) implies grown.contains_key(k)
        && small[k] == grown[k] by {
        assert(mid.contains_key(k));
        assert(small[k] == mid[k]);
    }
}

/// What resolving a word comes to, where the dictionary is asked through
/// `fetch`: what the cache holds of the word; or, for a word that it does
/// not hold, `NotFound` where the word is not in the index, and else what
/// the dictionary's answer makes of the word.
pub open spec fn resolves_to<F: Fn(&str) -> Option<Vec<DictEntry>>>(
    before: Map<Seq<char>, WordInfoView>,
    index: Seq<crate::embeddings::Row>,
    word: Seq<char>,
    fetch: F,
    r: Result<WordInfo, DictionaryError>,
) -> bool {
    if before.contains_key(word) {
        r matches Ok(info) && before[word] == info@
    } else if !holds(index, word) {
        r matches Err(DictionaryError::NotFound(w)) && w@ == word
    } else {
        exists|s: &str, fetched: Option<Vec<DictEntry>>|
            s@ == word && fetch.ensures((s,), fetched) && resolved_from(word, fetched, r)
    }
}

/// Resolves a word: from the cache where it holds the word, and else, for a
/// word of the index, from the dictionary, which is asked through `fetch`.
/// The cache gains no entry but that of a word that the dictionary made
/// known.
pub fn get_word_details<F>(
    cache: &mut WordCache,
    index: &EmbeddingIndex,
    word: &str,
    fetch: F,
) -> (r: Result<WordInfo, DictionaryError>) where F: Fn(&str) -> Option<Vec<DictEntry>>
    requires
        forall|s: &str| fetch.requires((s,)),
    ensures
        resolves_to(old(cache)@, index@, word@, fetch, r),
        r matches Ok(info) ==> sound_entry(word@, info@) && final(cache)@.submap_of(
            old(cache)@.insert(word@, info@),
        ),
        r is Err ==> final(cache)@.submap_of(old(cache)@),
        old(cache).within_limit() && (r is Err || old(cache)@.contains_key(word@))
            ==> final(cache)@ == old(cache)@,
        r matches Ok(info) ==> (has_room(old(cache)@.insert(word@, info@), old(cache).limit())
            ==> final(cache)@ == old(cache)@.insert(word@, info@)),
        final(cache).limit() == old(cache).limit(),
        sound(final(cache)@),
{
    let ghost before = cache@;
    proof {
        use_type_invariant(&*cache);
    }
    match begin_resolve(cache, index, word) {
        ResolveStep::Hit(info) => {
            proof {
                lemma_submap_grown(cache@, before, before, word@, info@);
                assert(before.insert(word@, info@) =~= before);
            }
            Ok(info)
        },
        ResolveStep::Unknown => Err(DictionaryError::NotFound(word.to_owned())),
        ResolveStep::Fetch => {
            let ghost asked = cache@;
            let fetched = fetch(word);
            let r = finish_resolve(cache, word, fetched);
            proof {
                assert(fetch.ensures((word,), fetched) && resolved_from(word@, fetched, r));
                if r is Ok {
                    let info = r->Ok_0@;
                    assert(before.insert(word@, info).dom() =~= before.dom().insert(word@));
                    let mid = asked.insert(word@, info);
                    assert forall|k: Seq<char>| #[trigger] mid.contains_key(k) implies (k == word@
                        && mid[k] == info) || (k != word@ && before.contains_key(k) && mid[k]
                        == before[k]) by {
                        if k != word@ {
                            assert(asked.contains_key(k));
                            assert(before.contains_key(k));
                            assert(asked[k] == before[k]);
                        }
                    }
                    lemma_submap_grown(cache@, mid, before, word@, info);
                }
            }
            r
        },
    }
}

} // verus!
