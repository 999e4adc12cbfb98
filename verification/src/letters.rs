//! Character-level rules on words: forbidden letters, shared letters and
//! shared entries of two word lists.

use vstd::prelude::*;
use crate::text::{lowercase, lowercase_of};

verus! {

/// The characters of a string, one by one.
pub fn chars_of(s: &str) -> (v: Vec<char>)
    ensures
        v@ == s@,
{
    let mut v: Vec<char> = Vec::new();
    for c in it: s.chars()
        invariant
            v@ == it.seq().take(it.index() as int),
            it.seq() == s@,
    {
        v.push(c);
    }
    v
}

/// Membership test on a slice of characters.
pub fn char_in(v: &[char], c: char) -> (found: bool)
    ensures
        found == v@.contains(c),
{
    let mut j: usize = 0;
    while j < v.len()
        invariant
            j <= v.len(),
            forall|k: int| 0 <= k < j ==> v@[k] != c,
        decreases v.len() - j,
    {
        if v[j] == c {
            return true;
        }
        j += 1;
    }
    false
}

/// The first character of a word, if it has one.
pub fn first_char(s: &str) -> (c: Option<char>)
    ensures
        s@.len() == 0 ==> c is None,
        s@.len() > 0 ==> c == Some(s@[0]),
{
    if s.unicode_len() == 0 {
        None
    } else {
        Some(s.get_char(0))
    }
}

/// The last character of a word, if it has one.
pub fn last_char(s: &str) -> (c: Option<char>)
    ensures
        s@.len() == 0 ==> c is None,
        s@.len() > 0 ==> c == Some(s@.last()),
{
    let n = s.unicode_len();
    if n == 0 {
        None
    } else {
        Some(s.get_char(n - 1))
    }
}

/// True when some character of `s` is one of `forbidden`.
pub open spec fn has_forbidden(s: Seq<char>, forbidden: Seq<char>) -> bool {
    exists|i: int| 0 <= i < s.len() && forbidden.contains(#[trigger] s[i])
}

/// Tells whether `s` uses any of the forbidden characters.
pub fn contains_forbidden_chars(s: &str, forbidden_chars: &[char]) -> (found: bool)
    ensures
        found == has_forbidden(s@, forbidden_chars@),
{
    let word = chars_of(s);
    let mut i: usize = 0;
    while i < word.len()
        invariant
            word@ == s@,
            i <= word.len(),
            forall|k: int| 0 <= k < i ==> !forbidden_chars@.contains(#[trigger] s@[k]),
        decreases word.len() - i,
    {
        if char_in(forbidden_chars, word[i]) {
            return true;
        }
        i += 1;
    }
    false
}

/// The distinct characters that occur in both `a` and `b`.
pub open spec fn shared_letters(a: Seq<char>, b: Seq<char>) -> Set<char> {
    a.to_set().intersect(b.to_set())
}

/// Tells whether `chars` and `s` have at least `n` distinct characters in
/// common. A character that occurs several times counts once.
pub fn contains_at_least_n_chars(chars: &str, s: &str, n: usize) -> (enough: bool)
    ensures
        enough == (shared_letters(chars@, s@).len() >= n),
{
    let a = chars_of(chars);
    let b = chars_of(s);
    let mut found: Vec<char> = Vec::new();
    let mut i: usize = 0;
    while i < b.len()
        invariant
            a@ == chars@,
            b@ == s@,
            i <= b.len(),
            found@.no_duplicates(),
            found@.to_set() =~= shared_letters(a@, b@.take(i as int)),
        decreases b.len() - i,
    {
        let c = b[i];
        let ghost before = found@;
        assert(b@.take(i as int + 1) =~= b@.take(i as int).push(c));
        if char_in(a.as_slice(), c) && !char_in(found.as_slice(), c) {
            found.push(c);
        }
        proof {
            let prefix = b@.take(i as int);
            let grown = b@.take(i as int + 1);
            assert forall|x: char| grown.contains(x) <==> (prefix.contains(x) || x == c) by {
                vstd::seq_lib::lemma_seq_contains_after_push(prefix, c, x);
            }
            assert forall|x: char| found@.contains(x) <==> (before.contains(x) || (x == c
                && a@.contains(c))) by {
                if found@ != before {
                    vstd::seq_lib::lemma_seq_contains_after_push(before, c, x);
                }
            }
            assert forall|x: char| before.contains(x) <==> (a@.contains(x) && prefix.contains(x)) by {
                assert(before.to_set().contains(x) == shared_letters(a@, prefix).contains(x));
            }
            assert forall|x: char|
                found@.to_set().contains(x) == shared_letters(a@, grown).contains(x) by {
                assert(found@.to_set().contains(x) == found@.contains(x));
                assert(grown.to_set().contains(x) == grown.contains(x));
                assert(a@.to_set().contains(x) == a@.contains(x));
            }
            assert(found@.to_set() =~= shared_letters(a@, grown));
        }
        i += 1;
    }
    proof {
        assert(b@.take(b.len() as int) =~= b@);
        found@.unique_seq_to_set();
    }
    found.len() >= n
}

/// True when some entry of `a` equals some entry of `b`.
pub open spec fn lists_overlap(a: Seq<Seq<char>>, b: Seq<Seq<char>>) -> bool {
    exists|i: int, j: int| 0 <= i < a.len() && 0 <= j < b.len() && a[i] == b[j]
}

/// The entries of a list of strings, each as its characters.
pub open spec fn texts(v: Seq<String>) -> Seq<Seq<char>> {
    v.map_values(|s: String| s@)
}

/// Tells whether `word` is one of `list`.
pub fn contains_word(list: &[String], word: &String) -> (found: bool)
    ensures
        found == texts(list@).contains(word@),
{
    let mut i: usize = 0;
    while i < list.len()
        invariant
            i <= list.len(),
            forall|k: int| 0 <= k < i ==> list@[k]@ != word@,
        decreases list.len() - i,
    {
        if list[i] == *word {
            assert(texts(list@)[i as int] == word@);
            return true;
        }
        i += 1;
    }
    false
}

/// Tells whether any string of the first list also stands in the second,
/// character for character.
pub fn shares_entry(a: &[String], b: &[String]) -> (found: bool)
    ensures
        found == lists_overlap(texts(a@), texts(b@)),
{
    let mut j: usize = 0;
    while j < b.len()
        invariant
            j <= b.len(),
            forall|i: int, k: int| 0 <= i < a.len() && 0 <= k < j ==> texts(a@)[i] != texts(b@)[k],
        decreases b.len() - j,
    {
        if contains_word(a, &b[j]) {
            let ghost i = choose|i: int| 0 <= i < a.len() && texts(a@)[i] == b@[j as int]@;
            assert(texts(a@)[i] == texts(b@)[j as int]);
            return true;
        }
        j += 1;
    }
    false
}

/// The entries of a list, each in lower case.
pub open spec fn lowered(list: Seq<Seq<char>>) -> Seq<Seq<char>> {
    list.map_values(|s: Seq<char>| lowercase_of(s))
}

/// The strings of a list, each in lower case.
pub fn lower_all(list: &[String]) -> (out: Vec<String>)
    ensures
        texts(out@) == lowered(texts(list@)),
{
    let ghost all = lowered(texts(list@));
    let mut out: Vec<String> = Vec::new();
    let mut i: usize = 0;
    assert(texts(out@) =~= all.take(0));
    while i < list.len()
        invariant
            i <= list.len(),
            all == lowered(texts(list@)),
            texts(out@) == all.take(i as int),
        decreases list.len() - i,
    {
        let ghost before = out@;
        let low = lowercase(list[i].as_str());
        out.push(low);
        proof {
            assert(texts(out@) =~= texts(before).push(low@));
            assert(all.take(i as int + 1) =~= all.take(i as int).push(low@));
        }
        i += 1;
    }
    assert(all.take(list.len() as int) =~= all);
    out
}

/// Tells whether any stem of the first list also stands in the second. Two
/// stems are the same where their lower-case forms are.
pub fn contains_any(vec1: &[String], vec2: &[String]) -> (found: bool)
    ensures
        found == lists_overlap(lowered(texts(vec1@)), lowered(texts(vec2@))),
{
    let low1 = lower_all(vec1);
    let low2 = lower_all(vec2);
    shares_entry(low1.as_slice(), low2.as_slice())
}

} // verus!
