//! The phonetic dictionary and the rhyme rule: two words rhyme where their
//! last phonemes are the same.

use vstd::prelude::*;
use vstd::hash_map::StringHashMap;
use vstd::slice::slice_subrange;
use crate::letters::{chars_of, texts};
use crate::text::{fields, lines, lowercase, lowercase_of, parts, split_fields, split_lines, string_of};

verus! {

/// The number of phonemes that two rhyming words share at their end.
pub const RHYME_LENGTH: usize = 3;

/// The phonemes of each known word.
pub struct PhoneticDict {
    entries: StringHashMap<Vec<String>>,
}

impl View for PhoneticDict {
    type V = Map<Seq<char>, Seq<Seq<char>>>;

    closed spec fn view(&self) -> Map<Seq<char>, Seq<Seq<char>>> {
        Map::new(
            |w: Seq<char>| self.entries@.contains_key(w),
            |w: Seq<char>| texts(self.entries@[w]@),
        )
    }
}

/// A line that begins with three semicolons: a comment.
pub open spec fn is_comment(line: Seq<char>) -> bool {
    line.len() >= 3 && line[0] == ';' && line[1] == ';' && line[2] == ';'
}

/// What a list of lines makes known: each line that is no comment and has
/// two fields or more gives the word of its first field, in lower case, the
/// phonemes of its other fields. A later line for a word replaces an earlier
/// one.
pub open spec fn phonetics_of(ls: Seq<Seq<char>>) -> Map<Seq<char>, Seq<Seq<char>>>
    decreases ls.len(),
{
    if ls.len() == 0 {
        Map::empty()
    } else {
        let f = fields(ls.last());
        if !is_comment(ls.last()) && f.len() > 1 {
            phonetics_of(ls.drop_last()).insert(lowercase_of(f[0]), f.skip(1))
        } else {
            phonetics_of(ls.drop_last())
        }
    }
}

/// The last `length` phonemes of a word, the last one first; all of them
/// where the word has fewer.
pub open spec fn suffix_of(phonemes: Seq<Seq<char>>, length: nat) -> Seq<Seq<char>> {
    if length <= phonemes.len() {
        phonemes.reverse().take(length as int)
    } else {
        phonemes.reverse()
    }
}

/// The rhyme suffix of a word, if the dictionary knows the word.
pub open spec fn rhyme_suffix_of(
    dict: Map<Seq<char>, Seq<Seq<char>>>,
    word: Seq<char>,
    length: nat,
) -> Option<Seq<Seq<char>>> {
    if dict.contains_key(word) {
        Some(suffix_of(dict[word], length))
    } else {
        None
    }
}

/// Two words rhyme: the dictionary knows both, and their rhyme suffixes are
/// the same.
pub open spec fn rhyme(dict: Map<Seq<char>, Seq<Seq<char>>>, a: Seq<char>, b: Seq<char>) -> bool {
    match (
        rhyme_suffix_of(dict, a, RHYME_LENGTH as nat),
        rhyme_suffix_of(dict, b, RHYME_LENGTH as nat),
    ) {
        (Some(x), Some(y)) => x == y,
        _ => false,
    }
}

impl PhoneticDict {
    /// A dictionary that knows no word.
    pub fn new() -> (dict: PhoneticDict)
        ensures
            dict@ == Map::<Seq<char>, Seq<Seq<char>>>::empty(),
    {
        let dict = PhoneticDict { entries: StringHashMap::new() };
        assert(dict@ =~= Map::<Seq<char>, Seq<Seq<char>>>::empty());
        dict
    }

    /// Makes the phonemes of a word known. What was known of it is replaced.
    pub fn insert(&mut self, word: String, phonemes: Vec<String>)
        ensures
            final(self)@ == old(self)@.insert(word@, texts(phonemes@)),
    {
        self.entries.insert(word, phonemes);
        assert(self@ =~= old(self)@.insert(word@, texts(phonemes@)));
    }

    /// The phonemes of a word.
    pub fn get(&self, word: &str) -> (r: Option<&Vec<String>>)
        ensures
            match r {
                Some(p) => self@.contains_key(word@) && texts(p@) == self@[word@],
                None => !self@.contains_key(word@),
            },
    {
        self.entries.get(word)
    }
}

/// Tells whether a line is a comment.
fn is_comment_line(line: &[char]) -> (b: bool)
    ensures
        b == is_comment(line@),
{
    line.len() >= 3 && line[0] == ';' && line[1] == ';' && line[2] == ';'
}

/// Reads a phonetic dictionary: one word to a line, then its phonemes, with
/// white space between them.
pub fn load_cmu_dict(text: &str) -> (dict: PhoneticDict)
    ensures
        dict@ == phonetics_of(lines(text@)),
{
    let raw = chars_of(text);
    let spans = split_lines(raw.as_slice());
    let ghost ls = lines(raw@);
    let mut dict = PhoneticDict::new();
    let mut i: usize = 0;
    assert(ls.take(0) =~= Seq::<Seq<char>>::empty());
    while i < spans.len()
        invariant
            i <= spans.len(),
            raw@ == text@,
            ls == lines(raw@),
            parts(raw@, spans@) == ls,
            forall|k: int| 0 <= k < spans.len() ==> (#[trigger] spans[k]).within(raw@.len()),
            dict@ == phonetics_of(ls.take(i as int)),
        decreases spans.len() - i,
    {
        assert(spans@[i as int].within(raw@.len()));
        let line = slice_subrange(raw.as_slice(), spans[i].start, spans[i].end);
        proof {
            assert(line@ == ls[i as int]);
            assert(ls.take(i as int + 1).drop_last() =~= ls.take(i as int));
        }
        if !is_comment_line(line) {
            let toks = split_fields(line);
            if toks.len() > 1 {
                let ghost f = fields(line@);
                assert(toks@[0].within(line@.len()));
                assert(f[0] == toks@[0].of(line@));
                let first = string_of(slice_subrange(line, toks[0].start, toks[0].end));
                let word = lowercase(first.as_str());
                let mut phonemes: Vec<String> = Vec::new();
                let mut k: usize = 1;
                assert(f.skip(1).take(0) =~= Seq::<Seq<char>>::empty());
                while k < toks.len()
                    invariant
                        1 <= k <= toks.len(),
                        f == fields(line@),
                        parts(line@, toks@) == f,
                        forall|j: int|
                            0 <= j < toks.len() ==> (#[trigger] toks[j]).within(line@.len()),
                        texts(phonemes@) == f.skip(1).take(k - 1),
                    decreases toks.len() - k,
                {
                    assert(toks@[k as int].within(line@.len()));
                    let ghost before = phonemes@;
                    let p = string_of(slice_subrange(line, toks[k].start, toks[k].end));
                    phonemes.push(p);
                    proof {
                        assert(p@ == f[k as int]);
                        assert(texts(phonemes@) =~= texts(before).push(p@));
                        assert(f.skip(1).take(k as int) =~= f.skip(1).take(k - 1).push(f[k as int]));
                    }
                    k += 1;
                }
                assert(f.skip(1).take(f.len() - 1) =~= f.skip(1));
                dict.insert(word, phonemes);
            }
        }
        i += 1;
    }
    assert(ls.take(ls.len() as int) =~= ls);
    dict
}

/// The rhyme suffix of a word: its last `length` phonemes, the last first.
pub fn get_rhyme_suffix(word: &str, dict: &PhoneticDict, length: usize) -> (r: Option<Vec<String>>)
    ensures
        match r {
            Some(s) => rhyme_suffix_of(dict@, word@, length as nat) == Some(texts(s@)),
            None => rhyme_suffix_of(dict@, word@, length as nat) is None,
        },
{
    match dict.get(word) {
        Some(phonemes) => {
            let n = phonemes.len();
            let count = if length <= n {
                length
            } else {
                n
            };
            let ghost all = texts(phonemes@);
            let mut out: Vec<String> = Vec::new();
            let mut i: usize = 0;
            assert(all.reverse().take(0) =~= Seq::<Seq<char>>::empty());
            while i < count
                invariant
                    i <= count <= n,
                    n == phonemes.len(),
                    all == texts(phonemes@),
                    texts(out@) == all.reverse().take(i as int),
                decreases count - i,
            {
                let ghost before = out@;
                out.push(phonemes[n - 1 - i].clone());
                proof {
                    assert(texts(out@) =~= texts(before).push(phonemes@[n - 1 - i]@));
                    assert(all.reverse().take(i as int + 1) =~= all.reverse().take(i as int).push(
                        all.reverse()[i as int],
                    ));
                }
                i += 1;
            }
            assert(all.reverse().take(n as int) =~= all.reverse());
            Some(out)
        },
        None => None,
    }
}

/// Tells whether two lists of strings hold the same strings in the same order.
pub fn same_texts(a: &Vec<String>, b: &Vec<String>) -> (same: bool)
    ensures
        same == (texts(a@) == texts(b@)),
{
    if a.len() != b.len() {
        assert(texts(a@).len() != texts(b@).len());
        return false;
    }
    let mut i: usize = 0;
    while i < a.len()
        invariant
            i <= a.len(),
            a.len() == b.len(),
            forall|k: int| 0 <= k < i ==> texts(a@)[k] == texts(b@)[k],
        decreases a.len() - i,
    {
        if a[i] != b[i] {
            assert(texts(a@)[i as int] != texts(b@)[i as int]);
            return false;
        }
        i += 1;
    }
    assert(texts(a@) =~= texts(b@));
    true
}

/// Tells whether two words rhyme.
pub fn rhymes(word1: &str, word2: &str, dict: &PhoneticDict) -> (r: bool)
    ensures
        r == rhyme(dict@, word1@, word2@),
{
    match (get_rhyme_suffix(word1, dict, RHYME_LENGTH), get_rhyme_suffix(word2, dict, RHYME_LENGTH)) {
        (Some(a), Some(b)) => same_texts(&a, &b),
        _ => false,
    }
}

} // verus!
