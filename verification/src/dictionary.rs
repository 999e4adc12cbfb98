//! What the dictionary knows of a word: its stems and its definitions.

use vstd::prelude::*;
use crate::letters::{lists_overlap, lowered, texts};
use crate::text::{lowercase, lowercase_of};

verus! {

/// Why a word could not be resolved or a snapshot not be kept.
#[derive(Clone, Debug, PartialEq, Eq)]
pub enum DictionaryError {
    /// The word is not in the index of valid words.
    NotFound(String),
    /// The dictionary gave an error or no usable definition.
    LookupFailed(String),
    /// The snapshot could not be written.
    StoreFailed(String),
}

/// The definitions of a word under one functional label.
#[derive(Clone, Debug, PartialEq, Eq)]
pub struct Def {
    pub definitions: Vec<String>,
    pub functional_label: String,
}

/// A resolved word: its stems and its definitions.
#[derive(Clone, Debug, PartialEq, Eq)]
pub struct WordInfo {
    pub word: String,
    pub stems: Vec<String>,
    pub defs: Vec<Def>,
}

/// A `Def` as plain values.
pub ghost struct DefView {
    pub definitions: Seq<Seq<char>>,
    pub functional_label: Seq<char>,
}

/// A `WordInfo` as plain values.
pub ghost struct WordInfoView {
    pub word: Seq<char>,
    pub stems: Seq<Seq<char>>,
    pub defs: Seq<DefView>,
}

impl View for Def {
    type V = DefView;

    open spec fn view(&self) -> DefView {
        DefView { definitions: texts(self.definitions@), functional_label: self.functional_label@ }
    }
}

/// The definitions of a list, as plain values.
pub open spec fn def_views(v: Seq<Def>) -> Seq<DefView> {
    v.map_values(|d: Def| d@)
}

impl View for WordInfo {
    type V = WordInfoView;

    open spec fn view(&self) -> WordInfoView {
        WordInfoView { word: self.word@, stems: texts(self.stems@), defs: def_views(self.defs@) }
    }
}

/// The words of a list, as plain values.
pub open spec fn infos(v: Seq<WordInfo>) -> Seq<WordInfoView> {
    v.map_values(|w: WordInfo| w@)
}

/// A copy of a list of strings.
pub fn copy_texts(v: &Vec<String>) -> (c: Vec<String>)
    ensures
        texts(c@) == texts(v@),
{
    let mut c: Vec<String> = Vec::new();
    let mut i: usize = 0;
    while i < v.len()
        invariant
            i <= v.len(),
            texts(c@) == texts(v@).take(i as int),
        decreases v.len() - i,
    {
        let ghost before = c@;
        c.push(v[i].clone());
        assert(texts(c@) =~= texts(before).push(v@[i as int]@));
        assert(texts(v@).take(i as int + 1) =~= texts(v@).take(i as int).push(v@[i as int]@));
        i += 1;
    }
    assert(texts(v@).take(v.len() as int) =~= texts(v@));
    c
}

impl Def {
    /// A copy of the definitions.
    pub fn copied(&self) -> (c: Def)
        ensures
            c@ == self@,
    {
        Def {
            definitions: copy_texts(&self.definitions),
            functional_label: self.functional_label.clone(),
        }
    }
}

impl WordInfo {
    /// A copy of the word.
    pub fn copied(&self) -> (c: WordInfo)
        ensures
            c@ == self@,
    {
        let mut defs: Vec<Def> = Vec::new();
        let mut i: usize = 0;
        while i < self.defs.len()
            invariant
                i <= self.defs.len(),
                def_views(defs@) == def_views(self.defs@).take(i as int),
            decreases self.defs.len() - i,
        {
            let ghost before = defs@;
            let d = self.defs[i].copied();
            defs.push(d);
            assert(def_views(defs@) =~= def_views(before).push(d@));
            assert(def_views(self.defs@).take(i as int + 1) =~= def_views(self.defs@).take(
                i as int,
            ).push(self.defs@[i as int]@));
            i += 1;
        }
        assert(def_views(self.defs@).take(self.defs.len() as int) =~= def_views(self.defs@));
        WordInfo { word: self.word.clone(), stems: copy_texts(&self.stems), defs }
    }
}

/// One record of the dictionary's answer for a word.
#[derive(Clone, Debug, PartialEq, Eq)]
pub struct DictEntry {
    pub functional_label: Option<String>,
    pub short_definitions: Option<Vec<String>>,
    pub stems: Vec<String>,
}

/// A `DictEntry` as plain values.
pub ghost struct DictEntryView {
    pub functional_label: Option<Seq<char>>,
    pub short_definitions: Option<Seq<Seq<char>>>,
    pub stems: Seq<Seq<char>>,
}

impl View for DictEntry {
    type V = DictEntryView;

    open spec fn view(&self) -> DictEntryView {
        DictEntryView {
            functional_label: match self.functional_label {
                Some(l) => Some(l@),
                None => None,
            },
            short_definitions: match self.short_definitions {
                Some(d) => Some(texts(d@)),
                None => None,
            },
            stems: texts(self.stems@),
        }
    }
}

/// The records of a list, as plain values.
pub open spec fn entry_views(v: Seq<DictEntry>) -> Seq<DictEntryView> {
    v.map_values(|e: DictEntry| e@)
}

/// A record that gives at least one short definition.
pub open spec fn is_usable_entry(e: DictEntryView) -> bool {
    e.short_definitions matches Some(d) && d.len() > 0
}

/// The definitions that a usable record gives; its label is empty where the
/// record has none.
pub open spec fn def_of(e: DictEntryView) -> DefView {
    DefView {
        definitions: e.short_definitions.unwrap(),
        functional_label: match e.functional_label {
            Some(l) => l,
            None => Seq::empty(),
        },
    }
}

/// The definitions of the usable records, in order.
pub open spec fn defs_of(entries: Seq<DictEntryView>) -> Seq<DefView>
    decreases entries.len(),
{
    if entries.len() == 0 {
        Seq::empty()
    } else if is_usable_entry(entries.last()) {
        defs_of(entries.drop_last()).push(def_of(entries.last()))
    } else {
        defs_of(entries.drop_last())
    }
}

/// The stems of all records, in order.
pub open spec fn stems_of(entries: Seq<DictEntryView>) -> Seq<Seq<char>>
    decreases entries.len(),
{
    if entries.len() == 0 {
        Seq::empty()
    } else {
        stems_of(entries.drop_last()) + entries.last().stems
    }
}

/// What the records make known of `word`; nothing where no record is usable.
pub open spec fn info_of(word: Seq<char>, entries: Seq<DictEntryView>) -> Option<WordInfoView> {
    if defs_of(entries).len() == 0 {
        None
    } else {
        Some(WordInfoView { word, stems: stems_of(entries), defs: defs_of(entries) })
    }
}

/// Puts together what the dictionary's records make known of a word.
pub fn word_info_from_entries(word: &str, entries: &[DictEntry]) -> (r: Result<
    WordInfo,
    DictionaryError,
>)
    ensures
        match r {
            Ok(info) => info_of(word@, entry_views(entries@)) == Some(info@),
            Err(DictionaryError::LookupFailed(w)) => info_of(word@, entry_views(entries@)) is None
                && w@ == word@,
            Err(_) => false,
        },
{
    let ghost all = entry_views(entries@);
    let mut defs: Vec<Def> = Vec::new();
    let mut stems: Vec<String> = Vec::new();
    let mut i: usize = 0;
    assert(all.take(0) =~= Seq::<DictEntryView>::empty());
    while i < entries.len()
        invariant
            i <= entries.len(),
            all == entry_views(entries@),
            def_views(defs@) == defs_of(all.take(i as int)),
            texts(stems@) == stems_of(all.take(i as int)),
        decreases entries.len() - i,
    {
        let entry = &entries[i];
        proof {
            assert(all.take(i as int + 1).drop_last() =~= all.take(i as int));
            assert(all.take(i as int + 1).last() == entry@);
        }
        match &entry.short_definitions {
            Some(d) => {
                if d.len() > 0 {
                    let label = match &entry.functional_label {
                        Some(l) => l.clone(),
                        None => String::new(),
                    };
                    let ghost before = defs@;
                    let def = Def { definitions: copy_texts(d), functional_label: label };
                    assert(def@ == def_of(entry@));
                    defs.push(def);
                    assert(def_views(defs@) =~= def_views(before).push(def@));
                }
            },
            None => {},
        }
        let mut k: usize = 0;
        let ghost head = texts(stems@);
        assert(texts(entry.stems@).take(0) =~= Seq::<Seq<char>>::empty());
        while k < entry.stems.len()
            invariant
                k <= entry.stems.len(),
                texts(stems@) == head + texts(entry.stems@).take(k as int),
            decreases entry.stems.len() - k,
        {
            let ghost before = stems@;
            stems.push(entry.stems[k].clone());
            proof {
                assert(texts(stems@) =~= texts(before).push(entry.stems@[k as int]@));
                assert(texts(entry.stems@).take(k as int + 1) =~= texts(entry.stems@).take(
                    k as int,
                ).push(entry.stems@[k as int]@));
            }
            k += 1;
        }
        assert(texts(entry.stems@).take(entry.stems.len() as int) =~= texts(entry.stems@));
        i += 1;
    }
    assert(all.take(entries.len() as int) =~= all);
    if defs.len() == 0 {
        Err(DictionaryError::LookupFailed(word.to_owned()))
    } else {
        Ok(WordInfo { word: word.to_owned(), stems, defs })
    }
}

/// The keys under which a word counts as used: the word and its stems, in
/// lower case.
pub open spec fn stem_keys(info: WordInfoView) -> Seq<Seq<char>> {
    seq![lowercase_of(info.word)] + lowered(info.stems)
}

/// Two words share a stem: a key of the one is a key of the other.
pub open spec fn shares_stem(a: WordInfoView, b: WordInfoView) -> bool {
    lists_overlap(stem_keys(a), stem_keys(b))
}

/// The keys under which a word counts as used.
pub fn keys_of(info: &WordInfo) -> (keys: Vec<String>)
    ensures
        texts(keys@) == stem_keys(info@),
{
    let mut keys: Vec<String> = Vec::new();
    keys.push(lowercase(info.word.as_str()));
    let ghost stems = texts(info.stems@);
    assert(texts(keys@) =~= seq![lowercase_of(info.word@)] + lowered(stems).take(0));
    let mut i: usize = 0;
    while i < info.stems.len()
        invariant
            i <= info.stems.len(),
            stems == texts(info.stems@),
            texts(keys@) == seq![lowercase_of(info.word@)] + lowered(stems).take(i as int),
        decreases info.stems.len() - i,
    {
        let ghost before = keys@;
        let key = lowercase(info.stems[i].as_str());
        keys.push(key);
        proof {
            assert(texts(keys@) =~= texts(before).push(key@));
            assert(lowered(stems).take(i as int + 1) =~= lowered(stems).take(i as int).push(key@));
        }
        i += 1;
    }
    assert(lowered(stems).take(stems.len() as int) =~= lowered(stems));
    keys
}

} // verus!
