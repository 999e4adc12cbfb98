//! The embedding index: every known word with its vector, grouped by first
//! letter, and the similarity queries on it.

use vstd::prelude::*;
use vstd::hash_map::StringHashMap;
use vstd::slice::slice_subrange;
use crate::cosine::{bounded, cosine, cosine_score, MAX_COMPONENT, MAX_DIM};
use crate::decimal::{component_of, parse_component};
use crate::letters::{chars_of, first_char};
use crate::text::{fields, lines, parts, split_fields, split_lines, string_of, strip_cr, without_cr};

verus! {

/// A word and its vector, as plain values.
pub ghost struct Row {
    pub word: Seq<char>,
    pub vector: Seq<i32>,
}

/// A word and its vector.
#[derive(Clone, Debug, PartialEq, Eq)]
pub struct WordVector {
    pub word: String,
    pub vector: Vec<i32>,
}

impl View for WordVector {
    type V = Row;

    open spec fn view(&self) -> Row {
        Row { word: self.word@, vector: self.vector@ }
    }
}

/// The rows of a list of word vectors.
pub open spec fn rows_of(v: Seq<WordVector>) -> Seq<Row> {
    v.map_values(|r: WordVector| r@)
}

/// The letter under which a word is filed: its first character.
pub open spec fn bucket_letter(word: Seq<char>) -> char {
    if word.len() > 0 {
        word[0]
    } else {
        '_'
    }
}

/// The rows filed under the letter `c`.
pub open spec fn has_letter(c: char) -> spec_fn(Row) -> bool {
    |r: Row| bucket_letter(r.word) == c
}

/// A row that an index can hold: a word of at least one character with a
/// vector within the limits.
pub open spec fn usable(r: Row) -> bool {
    r.word.len() > 0 && bounded(r.vector)
}

/// The first position at or after `i` that holds a usable row, or the end.
pub open spec fn first_usable(rows: Seq<Row>, i: int) -> int
    decreases rows.len() - i,
{
    if i < 0 || i >= rows.len() || usable(rows[i]) {
        i
    } else {
        first_usable(rows, i + 1)
    }
}

/// The number of components that the first usable row has.
pub open spec fn dimension(rows: Seq<Row>) -> Option<nat> {
    let k = first_usable(rows, 0);
    if 0 <= k < rows.len() {
        Some(rows[k].vector.len())
    } else {
        None
    }
}

/// The usable rows of `dim` components.
pub open spec fn fits(dim: Option<nat>) -> spec_fn(Row) -> bool {
    |r: Row| usable(r) && dim == Some(r.vector.len())
}

/// The rows that an index built from `rows` keeps: the usable ones that have
/// as many components as the first of them.
pub open spec fn accepted(rows: Seq<Row>) -> Seq<Row> {
    rows.filter(fits(dimension(rows)))
}

/// The vector of the last row of `rows` that holds the word `w`.
pub open spec fn last_vector(rows: Seq<Row>, w: Seq<char>) -> Option<Seq<i32>>
    decreases rows.len(),
{
    if rows.len() == 0 {
        None
    } else if rows.last().word == w {
        Some(rows.last().vector)
    } else {
        last_vector(rows.drop_last(), w)
    }
}

/// Some row of `rows` holds the word `w`.
pub open spec fn holds(rows: Seq<Row>, w: Seq<char>) -> bool {
    exists|j: int| 0 <= j < rows.len() && (#[trigger] rows[j]).word == w
}

/// The vector that `rows` holds for the word `w`.
pub open spec fn lookup(rows: Seq<Row>, w: Seq<char>) -> Option<Seq<i32>> {
    if holds(rows, w) {
        Some(rows[choose|j: int| 0 <= j < rows.len() && (#[trigger] rows[j]).word == w].vector)
    } else {
        None
    }
}

/// What holds of the rows of every index: each is usable, no word occurs
/// twice, and all vectors have one length.
pub open spec fn valid_rows(rows: Seq<Row>) -> bool {
    &&& forall|i: int| 0 <= i < rows.len() ==> usable(#[trigger] rows[i])
    &&& forall|i: int, j: int|
        0 <= i < rows.len() && 0 <= j < rows.len() && i != j ==> (#[trigger] rows[i]).word != (
        #[trigger] rows[j]).word
    &&& forall|i: int, j: int|
        0 <= i < rows.len() && 0 <= j < rows.len() ==> (#[trigger] rows[i]).vector.len() == (
        #[trigger] rows[j]).vector.len()
}

/// In valid rows, the word of a row leads to the vector of that row.
pub proof fn lemma_lookup_at(rows: Seq<Row>, j: int)
    requires
        valid_rows(rows),
        0 <= j < rows.len(),
    ensures
        holds(rows, rows[j].word),
        lookup(rows, rows[j].word) == Some(rows[j].vector),
{
    assert(rows[j].word == rows[j].word);
}

/// A run of rows that share a first letter: positions `start` up to `end`.
struct Bucket {
    letter: char,
    start: usize,
    end: usize,
}

/// The buckets split the rows from the first to the last into runs, and each
/// row of a run is filed under the run's letter.
spec fn buckets_cover(buckets: Seq<Bucket>, rows: Seq<Row>, upto: int) -> bool {
    &&& forall|k: int| 0 <= k < buckets.len() ==> (#[trigger] buckets[k]).start <= buckets[k].end
    &&& forall|k: int|
        0 <= k < buckets.len() - 1 ==> (#[trigger] buckets[k]).end == buckets[k + 1].start
    &&& buckets.len() > 0 ==> buckets[0].start == 0 && buckets.last().end == upto
    &&& buckets.len() == 0 ==> upto == 0
    &&& upto <= rows.len()
    &&& forall|k: int, j: int|
        0 <= k < buckets.len() && buckets[k].start <= j < buckets[k].end ==> bucket_letter(
            (#[trigger] rows[j]).word,
        ) == (#[trigger] buckets[k]).letter
}

/// Each word of the rows, and no other, leads to a position that holds it.
spec fn positions_match(positions: Map<Seq<char>, usize>, rows: Seq<Row>) -> bool {
    &&& forall|w: Seq<char>| #[trigger]
        positions.contains_key(w) ==> positions[w] < rows.len() && rows[positions[w] as int].word
            == w
    &&& forall|j: int| 0 <= j < rows.len() ==> positions.contains_key((#[trigger] rows[j]).word)
}

/// The embedding index.
pub struct EmbeddingIndex {
    rows: Vec<WordVector>,
    positions: StringHashMap<usize>,
    buckets: Vec<Bucket>,
}

impl View for EmbeddingIndex {
    type V = Seq<Row>;

    closed spec fn view(&self) -> Seq<Row> {
        rows_of(self.rows@)
    }
}

impl EmbeddingIndex {
    #[verifier::type_invariant]
    spec fn inv(&self) -> bool {
        &&& valid_rows(rows_of(self.rows@))
        &&& positions_match(self.positions@, rows_of(self.rows@))
        &&& buckets_cover(self.buckets@, rows_of(self.rows@), self.rows@.len() as int)
    }

    /// An index that holds no word.
    pub fn new() -> (index: EmbeddingIndex)
        ensures
            index@ == Seq::<Row>::empty(),
    {
        let index = EmbeddingIndex {
            rows: Vec::new(),
            positions: StringHashMap::new(),
            buckets: Vec::new(),
        };
        assert(index@ =~= Seq::<Row>::empty());
        index
    }

    /// The number of words in the index.
    pub fn len(&self) -> (n: usize)
        ensures
            n == self@.len(),
            valid_rows(self@),
    {
        proof {
            use_type_invariant(self);
        }
        self.rows.len()
    }
}

/// The letter under which a word is filed.
pub fn letter_of(word: &str) -> (c: char)
    ensures
        c == bucket_letter(word@),
{
    match first_char(word) {
        Some(c) => c,
        None => '_',
    }
}

/// Tells whether a vector is within the limits of the index.
pub fn is_bounded(v: &[i32]) -> (b: bool)
    ensures
        b == bounded(v@),
{
    if v.len() > MAX_DIM {
        return false;
    }
    let mut i: usize = 0;
    while i < v.len()
        invariant
            i <= v.len(),
            v.len() <= MAX_DIM,
            forall|k: int| 0 <= k < i ==> -MAX_COMPONENT <= #[trigger] v@[k] <= MAX_COMPONENT,
        decreases v.len() - i,
    {
        if v[i] < -MAX_COMPONENT || v[i] > MAX_COMPONENT {
            return false;
        }
        i += 1;
    }
    true
}

/// Tells whether an index can hold a row.
pub fn is_usable(row: &WordVector) -> (b: bool)
    ensures
        b == usable(row@),
{
    !row.word.as_str().is_empty() && is_bounded(row.vector.as_slice())
}

/// A filtered list holds what the list holds and the filter lets through.
pub proof fn lemma_filter_member(s: Seq<Row>, pred: spec_fn(Row) -> bool, x: Row)
    ensures
        s.filter(pred).contains(x) <==> s.contains(x) && pred(x),
    decreases s.len(),
{
    reveal(Seq::filter);
    if s.len() > 0 {
        let head = s.drop_last();
        lemma_filter_member(head, pred, x);
        let sub = head.filter(pred);
        if s.contains(x) && pred(x) {
            let i = choose|i: int| 0 <= i < s.len() && s[i] == x;
            if i < s.len() - 1 {
                assert(head[i] == x);
                let j = choose|j: int| 0 <= j < sub.len() && sub[j] == x;
                assert(s.filter(pred)[j] == x);
            } else {
                assert(s.filter(pred).last() == x);
            }
        }
        if s.filter(pred).contains(x) {
            let j = choose|j: int| 0 <= j < s.filter(pred).len() && s.filter(pred)[j] == x;
            if pred(s.last()) && j == sub.len() {
                assert(s[s.len() - 1] == x);
            } else {
                assert(sub[j] == x);
                let i = choose|i: int| 0 <= i < head.len() && head[i] == x;
                assert(s[i] == x);
            }
        }
    }
}

/// The last vector of a word is found among the rows of its letter alone.
pub proof fn lemma_last_vector_by_letter(rows: Seq<Row>, w: Seq<char>)
    ensures
        last_vector(rows.filter(has_letter(bucket_letter(w))), w) == last_vector(rows, w),
    decreases rows.len(),
{
    reveal(Seq::filter);
    let pred = has_letter(bucket_letter(w));
    if rows.len() > 0 {
        let head = rows.drop_last();
        lemma_last_vector_by_letter(head, w);
        if pred(rows.last()) {
            assert(rows.filter(pred).drop_last() =~= head.filter(pred));
        }
    }
}

/// Two lists with the same rows under each letter, in the same order, hold
/// the same last vector for each word.
pub proof fn lemma_same_letters_same_vectors(a: Seq<Row>, b: Seq<Row>, w: Seq<char>)
    requires
        forall|c: char| #[trigger] a.filter(has_letter(c)) == b.filter(has_letter(c)),
    ensures
        last_vector(a, w) == last_vector(b, w),
{
    lemma_last_vector_by_letter(a, w);
    lemma_last_vector_by_letter(b, w);
    assert(a.filter(has_letter(bucket_letter(w))) == b.filter(has_letter(bucket_letter(w))));
}

/// The rows of a list of groups, one group after the other.
pub open spec fn joined(chunks: Seq<(char, Vec<WordVector>)>) -> Seq<WordVector>
    decreases chunks.len(),
{
    if chunks.len() == 0 {
        Seq::empty()
    } else {
        joined(chunks.drop_last()) + chunks.last().1@
    }
}

/// Sorts rows by the letter under which they are filed, through
/// `Itertools::sorted_by_key`. The sort is stable: the result holds the same
/// rows, letters ascending by their code points, and the rows of one letter
/// keep their order. Believed, not proved.
#[verifier::external_body]
fn sort_by_letter(rows: Vec<WordVector>) -> (sorted: Vec<WordVector>)
    ensures
        sorted@.len() == rows@.len(),
        forall|i: int, j: int|
            0 <= i <= j < sorted@.len() ==> bucket_letter(sorted@[i].word@) as u32 <= bucket_letter(
                sorted@[j].word@,
            ) as u32,
        forall|c: char| #[trigger]
            rows_of(sorted@).filter(has_letter(c)) == rows_of(rows@).filter(has_letter(c)),
{
    itertools::Itertools::sorted_by_key(rows.into_iter(), |r| letter_of(r.word.as_str())).collect()
}

/// Groups rows into runs of one letter, through `Itertools::chunk_by`. The
/// groups, one after the other, are the rows as they came; no group is
/// empty; each row of a group is filed under the group's letter; and two
/// neighbouring groups differ in their letter. Believed, not proved.
#[verifier::external_body]
fn chunk_by_letter(rows: Vec<WordVector>) -> (chunks: Vec<(char, Vec<WordVector>)>)
    ensures
        joined(chunks@) == rows@,
        forall|k: int| 0 <= k < chunks@.len() ==> (#[trigger] chunks@[k]).1@.len() > 0,
        forall|k: int, j: int|
            0 <= k < chunks@.len() && 0 <= j < chunks@[k].1@.len() ==> bucket_letter(
                (#[trigger] chunks@[k].1@[j]).word@,
            ) == chunks@[k].0,
        forall|k: int| 0 <= k < chunks@.len() - 1 ==> (#[trigger] chunks@[k]).0 != chunks@[k + 1].0,
{
    let groups = itertools::Itertools::chunk_by(rows.into_iter(), |r| letter_of(r.word.as_str()));
    let chunks = (&groups).into_iter().map(|(c, g)| (c, g.collect())).collect();
    chunks
}

/// Keeps the usable rows that have as many components as the first of them.
fn keep_usable(rows: Vec<WordVector>) -> (kept: Vec<WordVector>)
    ensures
        rows_of(kept@) == accepted(rows_of(rows@)),
{
    let ghost all = rows_of(rows@);
    let mut k: usize = 0;
    while k < rows.len() && !is_usable(&rows[k])
        invariant
            k <= rows.len(),
            all == rows_of(rows@),
            first_usable(all, 0) == first_usable(all, k as int),
        decreases rows.len() - k,
    {
        k += 1;
    }
    let ghost dim = dimension(all);
    if k == rows.len() {
        proof {
            assert(dim is None);
            assert forall|i: int| 0 <= i < all.len() implies !(fits(dim))(#[trigger] all[i]) by {}
            lemma_filter_none(all, fits(dim));
        }
        return Vec::new();
    }
    let width: usize = rows[k].vector.len();
    assert(dim == Some(width as nat));
    let mut kept: Vec<WordVector> = Vec::new();
    for row in it: rows
        invariant
            rows_of(it.seq()) == all,
            dim == Some(width as nat),
            rows_of(kept@) == all.take(it.index() as int).filter(fits(dim)),
    {
        proof {
            reveal(Seq::filter);
            let i = it.index() as int;
            assert(all.take(i + 1).drop_last() =~= all.take(i));
            assert(all.take(i + 1).last() == row@);
        }
        let ghost before = kept@;
        if is_usable(&row) && row.vector.len() == width {
            kept.push(row);
            assert(rows_of(kept@) =~= rows_of(before).push(row@));
        }
    }
    assert(all.take(all.len() as int) =~= all);
    kept
}

/// A filter that lets nothing of a list through leaves nothing.
proof fn lemma_filter_none(s: Seq<Row>, pred: spec_fn(Row) -> bool)
    requires
        forall|i: int| 0 <= i < s.len() ==> !pred(#[trigger] s[i]),
    ensures
        s.filter(pred) == Seq::<Row>::empty(),
    decreases s.len(),
{
    reveal(Seq::filter);
    if s.len() > 0 {
        assert forall|i: int| 0 <= i < s.drop_last().len() implies !pred(
            #[trigger] s.drop_last()[i],
        ) by {
            assert(s.drop_last()[i] == s[i]);
        }
        lemma_filter_none(s.drop_last(), pred);
        assert(!pred(s[s.len() - 1]));
    }
}

/// The words of a list, each where it occurs first.
pub open spec fn first_occurrences(words: Seq<Seq<char>>) -> Seq<Seq<char>>
    decreases words.len(),
{
    if words.len() == 0 {
        Seq::empty()
    } else if first_occurrences(words.drop_last()).contains(words.last()) {
        first_occurrences(words.drop_last())
    } else {
        first_occurrences(words.drop_last()).push(words.last())
    }
}

/// The words filed under the letter `c`.
pub open spec fn under(c: char) -> spec_fn(Seq<char>) -> bool {
    |w: Seq<char>| bucket_letter(w) == c
}

/// The words of `rows` are the words of `done`, each where it occurs first.
pub open spec fn in_order(rows: Seq<Row>, done: Seq<Row>) -> bool {
    words_of(rows) == first_occurrences(words_of(done))
}

/// The first occurrences of a list hold the words that the list holds.
pub proof fn lemma_first_occurrences_hold(words: Seq<Seq<char>>, w: Seq<char>)
    ensures
        first_occurrences(words).contains(w) <==> words.contains(w),
    decreases words.len(),
{
    if words.len() > 0 {
        let head = words.drop_last();
        lemma_first_occurrences_hold(head, w);
        lemma_first_occurrences_hold(head, words.last());
        let fo = first_occurrences(head);
        if words.contains(w) {
            let i = choose|i: int| 0 <= i < words.len() && words[i] == w;
            if i < head.len() {
                assert(head[i] == w);
                assert(fo.contains(w));
                if !fo.contains(words.last()) {
                    let j = choose|j: int| 0 <= j < fo.len() && fo[j] == w;
                    assert(fo.push(words.last())[j] == w);
                }
            } else {
                if !fo.contains(words.last()) {
                    assert(fo.push(words.last())[fo.len() as int] == w);
                }
            }
        }
        if first_occurrences(words).contains(w) {
            let j = choose|j: int|
                0 <= j < first_occurrences(words).len() && first_occurrences(words)[j] == w;
            if j < fo.len() {
                assert(fo[j] == w);
                let i = choose|i: int| 0 <= i < head.len() && head[i] == w;
                assert(words[i] == w);
            } else {
                assert(words[words.len() - 1] == w);
            }
        }
    }
}

/// A filter lets through of a list's words what the list holds and the
/// filter lets through.
proof fn lemma_filter_words(s: Seq<Seq<char>>, pred: spec_fn(Seq<char>) -> bool, x: Seq<char>)
    ensures
        s.filter(pred).contains(x) <==> s.contains(x) && pred(x),
    decreases s.len(),
{
    reveal(Seq::filter);
    if s.len() > 0 {
        let head = s.drop_last();
        lemma_filter_words(head, pred, x);
        let sub = head.filter(pred);
        if s.contains(x) && pred(x) {
            let i = choose|i: int| 0 <= i < s.len() && s[i] == x;
            if i < s.len() - 1 {
                assert(head[i] == x);
                let j = choose|j: int| 0 <= j < sub.len() && sub[j] == x;
                assert(s.filter(pred)[j] == x);
            } else {
                assert(s.filter(pred).last() == x);
            }
        }
        if s.filter(pred).contains(x) {
            let j = choose|j: int| 0 <= j < s.filter(pred).len() && s.filter(pred)[j] == x;
            if pred(s.last()) && j == sub.len() {
                assert(s[s.len() - 1] == x);
            } else {
                assert(sub[j] == x);
                let i = choose|i: int| 0 <= i < head.len() && head[i] == x;
                assert(s[i] == x);
            }
        }
    }
}

/// To take the first occurrences and then filter comes to the same as to
/// filter and then take the first occurrences.
pub proof fn lemma_first_occurrences_filter(words: Seq<Seq<char>>, pred: spec_fn(Seq<char>) -> bool)
    ensures
        first_occurrences(words).filter(pred) == first_occurrences(words.filter(pred)),
    decreases words.len(),
{
    reveal(Seq::filter);
    if words.len() > 0 {
        let head = words.drop_last();
        let last = words.last();
        lemma_first_occurrences_filter(head, pred);
        lemma_first_occurrences_hold(head, last);
        lemma_first_occurrences_hold(head.filter(pred), last);
        lemma_filter_words(head, pred, last);
        let fo = first_occurrences(head);
        if pred(last) {
            assert(words.filter(pred).drop_last() =~= head.filter(pred));
            if !fo.contains(last) {
                assert(fo.push(last).drop_last() =~= fo);
            }
        } else {
            if !fo.contains(last) {
                assert(fo.push(last).drop_last() =~= fo);
            }
        }
    }
}

/// The words of the rows under a letter are the words under the letter of
/// the rows.
pub proof fn lemma_words_of_filter(rows: Seq<Row>, c: char)
    ensures
        words_of(rows.filter(has_letter(c))) == words_of(rows).filter(under(c)),
    decreases rows.len(),
{
    reveal(Seq::filter);
    if rows.len() > 0 {
        let head = rows.drop_last();
        lemma_words_of_filter(head, c);
        assert(words_of(rows).drop_last() =~= words_of(head));
        if (has_letter(c))(rows.last()) {
            assert(words_of(rows.filter(has_letter(c))) =~= words_of(head.filter(has_letter(c))).push(
                rows.last().word,
            ));
        }
    } else {
        assert(words_of(rows.filter(has_letter(c))) =~= words_of(rows).filter(under(c)));
    }
}

/// `rows` holds for each word the vector that the last row of `done` with
/// that word holds, and no other word.
pub open spec fn agree(rows: Seq<Row>, done: Seq<Row>) -> bool {
    forall|w: Seq<char>| #[trigger] lookup(rows, w) == last_vector(done, w)
}

proof fn lemma_replace(rows: Seq<Row>, p: int, r: Row, done: Seq<Row>)
    requires
        valid_rows(rows),
        0 <= p < rows.len(),
        rows[p].word == r.word,
        usable(r),
        r.vector.len() == rows[p].vector.len(),
        agree(rows, done),
        in_order(rows, done),
    ensures
        valid_rows(rows.update(p, r)),
        agree(rows.update(p, r), done.push(r)),
        in_order(rows.update(p, r), done.push(r)),
{
    let after = rows.update(p, r);
    assert(in_order(after, done.push(r))) by {
        assert(words_of(after) =~= words_of(rows));
        assert(words_of(done.push(r)).drop_last() =~= words_of(done));
        assert(words_of(rows)[p] == r.word);
    }
    assert(valid_rows(after)) by {
        assert forall|i: int, j: int|
            0 <= i < after.len() && 0 <= j < after.len() && i != j implies (#[trigger] after[i]).word
            != (#[trigger] after[j]).word by {
            assert(after[i].word == rows[i].word && after[j].word == rows[j].word);
        }
        assert forall|i: int, j: int|
            0 <= i < after.len() && 0 <= j < after.len() implies (#[trigger] after[i]).vector.len()
            == (#[trigger] after[j]).vector.len() by {
            assert(after[i].vector.len() == rows[i].vector.len());
            assert(after[j].vector.len() == rows[j].vector.len());
        }
    }
    assert forall|w: Seq<char>| #[trigger] lookup(after, w) == last_vector(done.push(r), w) by {
        assert(done.push(r).drop_last() =~= done);
        if w == r.word {
            lemma_lookup_at(after, p);
        } else {
            assert(lookup(rows, w) == last_vector(done, w));
            if holds(rows, w) {
                let j = choose|j: int| 0 <= j < rows.len() && (#[trigger] rows[j]).word == w;
                lemma_lookup_at(rows, j);
                assert(after[j] == rows[j]);
                lemma_lookup_at(after, j);
            } else {
                if holds(after, w) {
                    let j = choose|j: int| 0 <= j < after.len() && (#[trigger] after[j]).word == w;
                    assert(rows[j].word == w);
                }
            }
        }
    }
}

proof fn lemma_append(rows: Seq<Row>, r: Row, done: Seq<Row>)
    requires
        valid_rows(rows),
        !holds(rows, r.word),
        usable(r),
        rows.len() > 0 ==> r.vector.len() == rows[0].vector.len(),
        agree(rows, done),
        in_order(rows, done),
    ensures
        valid_rows(rows.push(r)),
        agree(rows.push(r), done.push(r)),
        in_order(rows.push(r), done.push(r)),
{
    let after = rows.push(r);
    assert(in_order(after, done.push(r))) by {
        assert(words_of(after) =~= words_of(rows).push(r.word));
        assert(words_of(done.push(r)).drop_last() =~= words_of(done));
        if words_of(rows).contains(r.word) {
            let i = choose|i: int| 0 <= i < words_of(rows).len() && words_of(rows)[i] == r.word;
            assert(rows[i].word == r.word);
        }
    }
    assert(valid_rows(after)) by {
        assert forall|i: int, j: int|
            0 <= i < after.len() && 0 <= j < after.len() && i != j implies (#[trigger] after[i]).word
            != (#[trigger] after[j]).word by {
            if i < rows.len() {
                assert(rows[i].word == after[i].word);
            }
            if j < rows.len() {
                assert(rows[j].word == after[j].word);
            }
        }
        assert forall|i: int, j: int|
            0 <= i < after.len() && 0 <= j < after.len() implies (#[trigger] after[i]).vector.len()
            == (#[trigger] after[j]).vector.len() by {
            if i < rows.len() {
                assert(rows[i].vector.len() == rows[0].vector.len());
            }
            if j < rows.len() {
                assert(rows[j].vector.len() == rows[0].vector.len());
            }
        }
    }
    assert forall|w: Seq<char>| #[trigger] lookup(after, w) == last_vector(done.push(r), w) by {
        assert(done.push(r).drop_last() =~= done);
        if w == r.word {
            lemma_lookup_at(after, rows.len() as int);
        } else {
            assert(lookup(rows, w) == last_vector(done, w));
            if holds(rows, w) {
                let j = choose|j: int| 0 <= j < rows.len() && (#[trigger] rows[j]).word == w;
                lemma_lookup_at(rows, j);
                assert(after[j] == rows[j]);
                lemma_lookup_at(after, j);
            } else {
                if holds(after, w) {
                    let j = choose|j: int| 0 <= j < after.len() && (#[trigger] after[j]).word == w;
                    assert(rows[j].word == w);
                }
            }
        }
    }
}

/// Takes one row into the rows of an index under construction: in place of
/// the row that holds the same word, or else at the end.
fn absorb(
    rows: &mut Vec<WordVector>,
    positions: &mut StringHashMap<usize>,
    row: WordVector,
    Ghost(done): Ghost<Seq<Row>>,
)
    requires
        valid_rows(rows_of(old(rows)@)),
        positions_match(old(positions)@, rows_of(old(rows)@)),
        usable(row@),
        old(rows)@.len() > 0 ==> row.vector@.len() == old(rows)@[0].vector@.len(),
        agree(rows_of(old(rows)@), done),
        in_order(rows_of(old(rows)@), done),
    ensures
        valid_rows(rows_of(final(rows)@)),
        positions_match(final(positions)@, rows_of(final(rows)@)),
        agree(rows_of(final(rows)@), done.push(row@)),
        in_order(rows_of(final(rows)@), done.push(row@)),
        final(rows)@.len() >= old(rows)@.len(),
        final(rows)@.len() > 0,
        final(rows)@[0].vector@.len() == row.vector@.len(),
        forall|j: int|
            0 <= j < old(rows)@.len() ==> (#[trigger] final(rows)@[j]).word@ == old(rows)@[j].word@,
        forall|j: int|
            old(rows)@.len() <= j < final(rows)@.len() ==> (#[trigger] final(rows)@[j]).word@
                == row.word@,
{
    let ghost before = rows_of(rows@);
    let found: Option<usize> = match positions.get(row.word.as_str()) {
        Some(p) => Some(*p),
        None => None,
    };
    match found {
        Some(p) => {
            proof {
                assert(before[p as int].word == row.word@);
                assert(before[p as int].vector.len() == before[0].vector.len());
                lemma_replace(before, p as int, row@, done);
            }
            let ghost r = row@;
            rows.set(p, row);
            assert(rows_of(rows@) =~= before.update(p as int, r));
            assert(positions_match(positions@, rows_of(rows@))) by {
                assert forall|j: int| 0 <= j < rows@.len() implies positions@.contains_key(
                    (#[trigger] rows_of(rows@)[j]).word,
                ) by {
                    assert(rows_of(rows@)[j].word == before[j].word);
                }
            }
        },
        None => {
            proof {
                if holds(before, row.word@) {
                    let j = choose|j: int| 0 <= j < before.len() && (#[trigger] before[j]).word
                        == row.word@;
                    assert(positions@.contains_key(before[j].word));
                }
                lemma_append(before, row@, done);
            }
            let ghost r = row@;
            let at = rows.len();
            positions.insert(row.word.clone(), at);
            rows.push(row);
            assert(rows_of(rows@) =~= before.push(r));
            assert(positions_match(positions@, rows_of(rows@))) by {
                assert forall|j: int| 0 <= j < rows@.len() implies positions@.contains_key(
                    (#[trigger] rows_of(rows@)[j]).word,
                ) by {
                    if j < at {
                        assert(rows_of(rows@)[j].word == before[j].word);
                    }
                }
                assert forall|w: Seq<char>| #[trigger]
                    positions@.contains_key(w) implies positions@[w] < rows@.len() && rows_of(
                    rows@,
                )[positions@[w] as int].word == w by {
                    if w != r.word {
                        assert(old(positions)@.contains_key(w));
                    }
                }
            }
        },
    }
}

/// The letters of the rows ascend from the first row to the last.
pub open spec fn letters_ascend(rows: Seq<Row>) -> bool {
    forall|i: int, j: int|
        0 <= i <= j < rows.len() ==> bucket_letter((#[trigger] rows[i]).word) as u32
            <= bucket_letter((#[trigger] rows[j]).word) as u32
}

/// No row has a letter after `c`.
pub open spec fn letters_upto(rows: Seq<Row>, c: char) -> bool {
    forall|i: int| 0 <= i < rows.len() ==> bucket_letter((#[trigger] rows[i]).word) as u32 <= c as u32
}

/// The words of the rows, in order.
pub open spec fn words_of(rows: Seq<Row>) -> Seq<Seq<char>> {
    rows.map_values(|r: Row| r.word)
}

/// No group is empty.
spec fn groups_filled(chunks: Seq<(char, Vec<WordVector>)>) -> bool {
    forall|k: int| 0 <= k < chunks.len() ==> (#[trigger] chunks[k]).1@.len() > 0
}

/// Where the rows of all groups ascend in their letters, so do the groups.
proof fn lemma_group_letters_ascend(chunks: Seq<(char, Vec<WordVector>)>, a: int, b: int)
    requires
        letters_ascend(rows_of(joined(chunks))),
        groups_filled(chunks),
        groups_lettered(chunks),
        0 <= a <= b < chunks.len(),
    ensures
        chunks[a].0 as u32 <= chunks[b].0 as u32,
    decreases chunks.len(),
{
    let head = chunks.drop_last();
    let all = joined(chunks);
    let front = joined(head);
    if a == b {
    } else if b == chunks.len() - 1 {
        lemma_group_member(head, a, 0);
        let i = choose|i: int| 0 <= i < front.len() && front[i] == head[a].1@[0];
        assert(all[i] == chunks[a].1@[0]);
        assert(all[front.len() as int] == chunks[b].1@[0]);
        assert(rows_of(all)[i].word == chunks[a].1@[0].word@);
        assert(rows_of(all)[front.len() as int].word == chunks[b].1@[0].word@);
        assert(bucket_letter(chunks[a].1@[0].word@) == chunks[a].0);
        assert(bucket_letter(chunks[b].1@[0].word@) == chunks[b].0);
    } else {
        assert(letters_ascend(rows_of(front))) by {
            assert forall|i: int, j: int| 0 <= i <= j < rows_of(front).len() implies bucket_letter(
                (#[trigger] rows_of(front)[i]).word,
            ) as u32 <= bucket_letter((#[trigger] rows_of(front)[j]).word) as u32 by {
                assert(rows_of(all)[i] == rows_of(front)[i]);
                assert(rows_of(all)[j] == rows_of(front)[j]);
            }
        }
        assert(groups_filled(head)) by {
            assert forall|k: int| 0 <= k < head.len() implies (#[trigger] head[k]).1@.len() > 0 by {
                assert(head[k] == chunks[k]);
            }
        }
        assert(groups_lettered(head)) by {
            assert forall|k: int, j: int|
                0 <= k < head.len() && 0 <= j < head[k].1@.len() implies bucket_letter(
                (#[trigger] head[k].1@[j]).word@,
            ) == head[k].0 by {
                assert(head[k] == chunks[k]);
                assert(bucket_letter(chunks[k].1@[j].word@) == chunks[k].0);
            }
        }
        lemma_group_letters_ascend(head, a, b);
    }
}

/// Each row of each group is a usable row of `dim` components.
spec fn groups_fit(chunks: Seq<(char, Vec<WordVector>)>, dim: Option<nat>) -> bool {
    forall|k: int, j: int|
        0 <= k < chunks.len() && 0 <= j < chunks[k].1@.len() ==> (fits(dim))(
            (#[trigger] chunks[k].1@[j])@,
        )
}

/// Each row of each group is filed under the group's letter.
spec fn groups_lettered(chunks: Seq<(char, Vec<WordVector>)>) -> bool {
    forall|k: int, j: int|
        0 <= k < chunks.len() && 0 <= j < chunks[k].1@.len() ==> bucket_letter(
            (#[trigger] chunks[k].1@[j]).word@,
        ) == chunks[k].0
}

/// Each row of each group is one of the rows of all groups joined.
proof fn lemma_group_member(chunks: Seq<(char, Vec<WordVector>)>, k: int, j: int)
    requires
        0 <= k < chunks.len(),
        0 <= j < chunks[k].1@.len(),
    ensures
        joined(chunks).contains(chunks[k].1@[j]),
    decreases chunks.len(),
{
    let head = joined(chunks.drop_last());
    if k == chunks.len() - 1 {
        assert(joined(chunks)[head.len() + j] == chunks[k].1@[j]);
    } else {
        lemma_group_member(chunks.drop_last(), k, j);
        let i = choose|i: int| 0 <= i < head.len() && head[i] == chunks[k].1@[j];
        assert(joined(chunks)[i] == chunks[k].1@[j]);
    }
}

/// Takes a group of rows of one letter into the rows of an index under
/// construction, one after the other.
fn absorb_group(
    rows: &mut Vec<WordVector>,
    positions: &mut StringHashMap<usize>,
    group: Vec<WordVector>,
    letter: char,
    Ghost(done): Ghost<Seq<Row>>,
    Ghost(dim): Ghost<Option<nat>>,
)
    requires
        valid_rows(rows_of(old(rows)@)),
        positions_match(old(positions)@, rows_of(old(rows)@)),
        agree(rows_of(old(rows)@), done),
        in_order(rows_of(old(rows)@), done),
        old(rows)@.len() > 0 ==> dim == Some(old(rows)@[0].vector@.len()),
        forall|j: int| 0 <= j < group@.len() ==> (fits(dim))((#[trigger] group@[j])@),
        forall|j: int| 0 <= j < group@.len() ==> bucket_letter((#[trigger] group@[j]).word@) == letter,
        letters_ascend(rows_of(old(rows)@)),
        letters_upto(rows_of(old(rows)@), letter),
    ensures
        letters_ascend(rows_of(final(rows)@)),
        letters_upto(rows_of(final(rows)@), letter),
        valid_rows(rows_of(final(rows)@)),
        positions_match(final(positions)@, rows_of(final(rows)@)),
        agree(rows_of(final(rows)@), done + rows_of(group@)),
        in_order(rows_of(final(rows)@), done + rows_of(group@)),
        final(rows)@.len() >= old(rows)@.len(),
        final(rows)@.len() > 0 ==> dim == Some(final(rows)@[0].vector@.len()),
        forall|j: int|
            0 <= j < old(rows)@.len() ==> (#[trigger] rows_of(final(rows)@)[j]).word == rows_of(
                old(rows)@,
            )[j].word,
        forall|j: int|
            old(rows)@.len() <= j < final(rows)@.len() ==> bucket_letter(
                (#[trigger] rows_of(final(rows)@)[j]).word,
            ) == letter,
{
    let ghost first = rows_of(rows@);
    let ghost mut seen: Seq<Row> = done;
    assert(done + rows_of(group@.take(0)) =~= done);
    for row in it: group
        invariant
            it.seq() == group@,
            forall|j: int| 0 <= j < group@.len() ==> (fits(dim))((#[trigger] group@[j])@),
            forall|j: int|
                0 <= j < group@.len() ==> bucket_letter((#[trigger] group@[j]).word@) == letter,
            seen == done + rows_of(group@.take(it.index() as int)),
            letters_ascend(rows_of(rows@)),
            letters_upto(rows_of(rows@), letter),
            valid_rows(rows_of(rows@)),
            positions_match(positions@, rows_of(rows@)),
            agree(rows_of(rows@), seen),
            in_order(rows_of(rows@), seen),
            rows@.len() >= first.len(),
            rows@.len() > 0 ==> dim == Some(rows@[0].vector@.len()),
            forall|j: int|
                0 <= j < first.len() ==> (#[trigger] rows_of(rows@)[j]).word == first[j].word,
            forall|j: int|
                first.len() <= j < rows@.len() ==> bucket_letter((#[trigger] rows_of(rows@)[j]).word)
                    == letter,
    {
        let ghost j = it.index() as int;
        let ghost prior = rows_of(rows@);
        proof {
            assert(group@[j] == row);
            assert((fits(dim))(row@));
            assert(bucket_letter(row.word@) == letter);
            assert(rows_of(group@.take(j + 1)) =~= rows_of(group@.take(j)).push(row@));
        }
        absorb(rows, positions, row, Ghost(seen));
        proof {
            seen = seen.push(row@);
            assert(seen =~= done + rows_of(group@.take(j + 1)));
            assert forall|i: int| 0 <= i < first.len() implies (#[trigger] rows_of(rows@)[i]).word
                == first[i].word by {
                assert(rows_of(rows@)[i].word == prior[i].word);
            }
            assert forall|i: int| first.len() <= i < rows@.len() implies bucket_letter(
                (#[trigger] rows_of(rows@)[i]).word,
            ) == letter by {
                if i < prior.len() {
                    assert(rows_of(rows@)[i].word == prior[i].word);
                }
            }
            assert forall|i: int| 0 <= i < rows@.len() implies bucket_letter(
                (#[trigger] rows_of(rows@)[i]).word,
            ) as u32 <= letter as u32 by {
                if i < prior.len() {
                    assert(rows_of(rows@)[i].word == prior[i].word);
                }
            }
            assert forall|i: int, k: int| 0 <= i <= k < rows@.len() implies bucket_letter(
                (#[trigger] rows_of(rows@)[i]).word,
            ) as u32 <= bucket_letter((#[trigger] rows_of(rows@)[k]).word) as u32 by {
                if i < prior.len() {
                    assert(rows_of(rows@)[i].word == prior[i].word);
                }
                if k < prior.len() {
                    assert(rows_of(rows@)[k].word == prior[k].word);
                }
            }
        }
    }
    assert(group@.take(group@.len() as int) =~= group@);
}

/// One more bucket, from where the buckets end to the end of the rows.
proof fn lemma_close_bucket(
    earlier: Seq<Bucket>,
    before: Seq<Row>,
    after: Seq<Row>,
    bucket: Bucket,
)
    requires
        buckets_cover(earlier, before, before.len() as int),
        bucket.start == before.len(),
        bucket.end == after.len(),
        before.len() <= after.len(),
        forall|j: int| 0 <= j < before.len() ==> (#[trigger] after[j]).word == before[j].word,
        forall|j: int|
            before.len() <= j < after.len() ==> bucket_letter((#[trigger] after[j]).word)
                == bucket.letter,
    ensures
        buckets_cover(earlier.push(bucket), after, after.len() as int),
{
    let grown = earlier.push(bucket);
    assert forall|k: int| 0 <= k < grown.len() implies (#[trigger] grown[k]).start <= grown[k].end by {
        if k < earlier.len() {
            assert(grown[k] == earlier[k]);
        }
    }
    assert forall|k: int| 0 <= k < grown.len() - 1 implies (#[trigger] grown[k]).end == grown[k
        + 1].start by {
        assert(grown[k] == earlier[k]);
        if k < earlier.len() - 1 {
            assert(grown[k + 1] == earlier[k + 1]);
            assert(earlier[k].end == earlier[k + 1].start);
        } else {
            assert(earlier.last().end == before.len());
        }
    }
    if earlier.len() > 0 {
        assert(grown[0] == earlier[0]);
    }
    assert forall|k: int, j: int|
        0 <= k < grown.len() && grown[k].start <= j < grown[k].end implies bucket_letter(
        (#[trigger] after[j]).word,
    ) == (#[trigger] grown[k]).letter by {
        if k < earlier.len() {
            assert(grown[k] == earlier[k]);
            lemma_bucket_ends(earlier, before, k);
            assert(after[j].word == before[j].word);
        }
    }
}

/// No bucket reaches past the rows that the buckets cover.
proof fn lemma_bucket_ends(buckets: Seq<Bucket>, rows: Seq<Row>, k: int)
    requires
        buckets_cover(buckets, rows, rows.len() as int),
        0 <= k < buckets.len(),
    ensures
        buckets[k].end <= rows.len(),
    decreases buckets.len() - k,
{
    if k < buckets.len() - 1 {
        lemma_bucket_ends(buckets, rows, k + 1);
        assert(buckets[k].end == buckets[k + 1].start);
        assert(buckets[k + 1].start <= buckets[k + 1].end);
    }
}

impl EmbeddingIndex {
    /// Builds an index from rows. A row is kept where it is usable and has
    /// as many components as the first usable row; of two kept rows with one
    /// word, the later one counts.
    pub fn from_rows(rows: Vec<WordVector>) -> (index: EmbeddingIndex)
        ensures
            valid_rows(index@),
            letters_ascend(index@),
            agree(index@, accepted(rows_of(rows@))),
            forall|c: char| #[trigger]
                words_of(index@).filter(under(c)) == first_occurrences(
                    words_of(accepted(rows_of(rows@))).filter(under(c)),
                ),
    {
        let ghost given = rows_of(rows@);
        let kept = keep_usable(rows);
        let ghost wanted = rows_of(kept@);
        let sorted = sort_by_letter(kept);
        let ghost all = sorted@;
        let chunks = chunk_by_letter(sorted);
        let ghost dim = dimension(given);
        proof {
            assert forall|i: int| 0 <= i < all.len() implies (fits(dim))(#[trigger] rows_of(all)[i]) by {
                let x = rows_of(all)[i];
                let c = bucket_letter(x.word);
                assert(rows_of(all).contains(x));
                lemma_filter_member(rows_of(all), has_letter(c), x);
                assert(rows_of(all).filter(has_letter(c)) == wanted.filter(has_letter(c)));
                lemma_filter_member(wanted, has_letter(c), x);
                lemma_filter_member(given, fits(dim), x);
            }
            assert(groups_fit(chunks@, dim)) by {
                assert forall|k: int, j: int|
                    0 <= k < chunks@.len() && 0 <= j < chunks@[k].1@.len() implies (fits(dim))(
                    (#[trigger] chunks@[k].1@[j])@,
                ) by {
                    lemma_group_member(chunks@, k, j);
                    let i = choose|i: int| 0 <= i < all.len() && all[i] == chunks@[k].1@[j];
                    assert(rows_of(all)[i] == chunks@[k].1@[j]@);
                }
            }
            assert(groups_lettered(chunks@));
            assert(groups_filled(chunks@));
            assert(letters_ascend(rows_of(all))) by {
                assert forall|i: int, j: int| 0 <= i <= j < rows_of(all).len() implies bucket_letter(
                    (#[trigger] rows_of(all)[i]).word,
                ) as u32 <= bucket_letter((#[trigger] rows_of(all)[j]).word) as u32 by {
                    assert(rows_of(all)[i].word == all[i].word@);
                    assert(rows_of(all)[j].word == all[j].word@);
                }
            }
        }
        let mut out: Vec<WordVector> = Vec::new();
        let mut positions: StringHashMap<usize> = StringHashMap::new();
        let mut buckets: Vec<Bucket> = Vec::new();
        let ghost mut done: Seq<Row> = Seq::empty();
        proof {
            assert(rows_of(out@) =~= Seq::<Row>::empty());
            assert forall|w: Seq<char>| #[trigger] lookup(rows_of(out@), w) == last_vector(done, w) by {
                assert(!holds(rows_of(out@), w));
            }
            assert(rows_of(joined(chunks@.take(0))) =~= done);
            assert(words_of(rows_of(out@)) =~= first_occurrences(words_of(done)));
        }
        for chunk in it: chunks
            invariant
                it.seq() == chunks@,
                groups_fit(chunks@, dim),
                groups_lettered(chunks@),
                groups_filled(chunks@),
                letters_ascend(rows_of(joined(chunks@))),
                letters_ascend(rows_of(out@)),
                it.index() > 0 ==> letters_upto(rows_of(out@), chunks@[it.index() - 1].0),
                it.index() == 0 ==> out@.len() == 0,
                done == rows_of(joined(chunks@.take(it.index() as int))),
                valid_rows(rows_of(out@)),
                positions_match(positions@, rows_of(out@)),
                agree(rows_of(out@), done),
                in_order(rows_of(out@), done),
                buckets_cover(buckets@, rows_of(out@), out@.len() as int),
                out@.len() > 0 ==> dim == Some(out@[0].vector@.len()),
        {
            let ghost k = it.index() as int;
            let ghost before = rows_of(out@);
            proof {
                assert(chunks@[k] == chunk);
                assert(chunks@.take(k + 1).drop_last() =~= chunks@.take(k));
                assert(rows_of(joined(chunks@.take(k + 1))) =~= done + rows_of(chunk.1@));
                assert forall|j: int| 0 <= j < chunk.1@.len() implies (fits(dim))(
                    (#[trigger] chunk.1@[j])@,
                ) by {
                    assert((fits(dim))(chunks@[k].1@[j]@));
                }
                assert forall|j: int| 0 <= j < chunk.1@.len() implies bucket_letter(
                    (#[trigger] chunk.1@[j]).word@,
                ) == chunk.0 by {
                    assert(bucket_letter(chunks@[k].1@[j].word@) == chunks@[k].0);
                }
            }
            let letter = chunk.0;
            let start = out.len();
            proof {
                if k > 0 {
                    lemma_group_letters_ascend(chunks@, k - 1, k);
                }
                assert(letters_upto(rows_of(out@), letter));
            }
            absorb_group(&mut out, &mut positions, chunk.1, letter, Ghost(done), Ghost(dim));
            let bucket = Bucket { letter, start, end: out.len() };
            proof {
                done = done + rows_of(chunk.1@);
                lemma_close_bucket(buckets@, before, rows_of(out@), bucket);
            }
            buckets.push(bucket);
        }
        proof {
            assert(chunks@.take(chunks@.len() as int) =~= chunks@);
            assert forall|w: Seq<char>| #[trigger]
                lookup(rows_of(out@), w) == last_vector(accepted(given), w) by {
                assert(lookup(rows_of(out@), w) == last_vector(rows_of(all), w));
                lemma_same_letters_same_vectors(rows_of(all), wanted, w);
            }
            assert forall|c: char| #[trigger]
                words_of(rows_of(out@)).filter(under(c)) == first_occurrences(
                    words_of(accepted(given)).filter(under(c)),
                ) by {
                lemma_first_occurrences_filter(words_of(rows_of(all)), under(c));
                lemma_words_of_filter(rows_of(all), c);
                lemma_words_of_filter(wanted, c);
                assert(rows_of(all).filter(has_letter(c)) == wanted.filter(has_letter(c)));
            }
        }
        EmbeddingIndex { rows: out, positions, buckets }
    }
}

/// The vector that a list of fields stands for, if each field is a component.
pub open spec fn components_of(fs: Seq<Seq<char>>) -> Option<Seq<i32>>
    decreases fs.len(),
{
    if fs.len() == 0 {
        Some(Seq::empty())
    } else {
        match (components_of(fs.drop_last()), component_of(fs.last())) {
            (Some(head), Some(c)) => Some(head.push(c)),
            _ => None,
        }
    }
}

/// The row that a line stands for: a word, then the components of its
/// vector, with white space between them.
pub open spec fn row_of_line(line: Seq<char>) -> Option<Row> {
    let f = fields(line);
    if f.len() == 0 {
        None
    } else {
        match components_of(f.skip(1)) {
            Some(v) => Some(Row { word: f[0], vector: v }),
            None => None,
        }
    }
}

/// The rows that a list of lines stands for: a line that is no row is left
/// out.
pub open spec fn rows_of_lines(ls: Seq<Seq<char>>) -> Seq<Row>
    decreases ls.len(),
{
    if ls.len() == 0 {
        Seq::empty()
    } else {
        match row_of_line(ls.last()) {
            Some(r) => rows_of_lines(ls.drop_last()).push(r),
            None => rows_of_lines(ls.drop_last()),
        }
    }
}

/// The rows that a text stands for.
pub open spec fn parsed_rows(text: Seq<char>) -> Seq<Row> {
    rows_of_lines(lines(without_cr(text)))
}

proof fn lemma_components_prefix(fs: Seq<Seq<char>>, k: int)
    requires
        0 <= k < fs.len(),
        component_of(fs[k]) is None,
    ensures
        components_of(fs) is None,
    decreases fs.len(),
{
    if k < fs.len() - 1 {
        lemma_components_prefix(fs.drop_last(), k);
    }
}

/// Reads one line of an embedding table.
pub fn parse_line(line: &[char]) -> (r: Option<WordVector>)
    ensures
        match r {
            Some(row) => row_of_line(line@) == Some(row@),
            None => row_of_line(line@) is None,
        },
{
    let spans = split_fields(line);
    if spans.len() == 0 {
        return None;
    }
    let ghost f = fields(line@);
    let ghost rest = f.skip(1);
    assert(f[0] == spans@[0].of(line@));
    assert(spans@[0].within(line@.len()));
    let word = string_of(slice_subrange(line, spans[0].start, spans[0].end));
    let mut vector: Vec<i32> = Vec::new();
    let mut k: usize = 1;
    assert(rest.take(0) =~= Seq::<Seq<char>>::empty());
    while k < spans.len()
        invariant
            1 <= k <= spans.len(),
            parts(line@, spans@) == f,
            f == fields(line@),
            rest == f.skip(1),
            forall|i: int| 0 <= i < spans.len() ==> (#[trigger] spans[i]).within(line@.len()),
            components_of(rest.take(k - 1)) == Some(vector@),
        decreases spans.len() - k,
    {
        assert(spans@[k as int].within(line@.len()));
        let tok = slice_subrange(line, spans[k].start, spans[k].end);
        proof {
            assert(tok@ == f[k as int]);
            assert(rest[k - 1] == f[k as int]);
            assert(rest.take(k as int).drop_last() =~= rest.take(k - 1));
        }
        match parse_component(tok) {
            Some(c) => {
                vector.push(c);
            },
            None => {
                proof {
                    lemma_components_prefix(rest, k - 1);
                }
                return None;
            },
        }
        k += 1;
    }
    assert(rest.take(rest.len() as int) =~= rest);
    Some(WordVector { word, vector })
}

/// Reads an embedding table: one row to a line, each a word and then the
/// components of its vector as decimal numbers. Carriage returns are
/// dropped; a line that is no row is left out.
pub fn parse_rows(text: &str) -> (rows: Vec<WordVector>)
    ensures
        rows_of(rows@) == parsed_rows(text@),
{
    let raw = chars_of(text);
    let clean = strip_cr(raw.as_slice());
    let spans = split_lines(clean.as_slice());
    let ghost ls = lines(clean@);
    let mut rows: Vec<WordVector> = Vec::new();
    let mut i: usize = 0;
    assert(rows_of(rows@) =~= rows_of_lines(ls.take(0)));
    while i < spans.len()
        invariant
            i <= spans.len(),
            clean@ == without_cr(text@),
            ls == lines(clean@),
            parts(clean@, spans@) == ls,
            forall|k: int| 0 <= k < spans.len() ==> (#[trigger] spans[k]).within(clean@.len()),
            rows_of(rows@) == rows_of_lines(ls.take(i as int)),
        decreases spans.len() - i,
    {
        assert(spans@[i as int].within(clean@.len()));
        let line = slice_subrange(clean.as_slice(), spans[i].start, spans[i].end);
        proof {
            assert(line@ == ls[i as int]);
            assert(ls.take(i as int + 1).drop_last() =~= ls.take(i as int));
        }
        let ghost before = rows@;
        match parse_line(line) {
            Some(row) => {
                rows.push(row);
                assert(rows_of(rows@) =~= rows_of(before).push(row@));
            },
            None => {},
        }
        i += 1;
    }
    assert(ls.take(ls.len() as int) =~= ls);
    rows
}

/// Why a query on the index failed.
#[derive(Clone, Debug, PartialEq, Eq)]
pub enum EmbeddingError {
    /// The embedding table could not be read.
    IoError(String),
    /// No word under the letter passed the test.
    NoMatch(char),
    /// The word is not in the index.
    InvalidWord(String),
}

/// The similarity of two words: the score of their vectors, or the first of
/// the two words that is not in the index.
pub open spec fn similarity_of(rows: Seq<Row>, a: Seq<char>, b: Seq<char>) -> Result<
    int,
    Seq<char>,
> {
    match (lookup(rows, a), lookup(rows, b)) {
        (Some(x), Some(y)) => Ok(cosine_score(x, y)),
        (None, _) => Err(a),
        (Some(_), None) => Err(b),
    }
}

/// The test, called on the word `w`, may answer yes.
pub open spec fn accepts<P: Fn(&str) -> bool>(pred: P, w: Seq<char>) -> bool {
    exists|s: &str| s@ == w && pred.ensures((s,), true)
}

/// The test, called on the word `w`, may answer no.
pub open spec fn rejects<P: Fn(&str) -> bool>(pred: P, w: Seq<char>) -> bool {
    exists|s: &str| s@ == w && pred.ensures((s,), false)
}

/// Row `j` holds a word filed under the letter `c`.
pub open spec fn is_candidate(rows: Seq<Row>, c: char, j: int) -> bool {
    0 <= j < rows.len() && bucket_letter(rows[j].word) == c
}

/// Among the first `upto` rows, row `j` is the most similar to `reference`
/// of the candidates under `c` that the test accepted, and the first of
/// those that are as similar.
pub open spec fn is_best_upto<P: Fn(&str) -> bool>(
    rows: Seq<Row>,
    pred: P,
    reference: Seq<i32>,
    c: char,
    upto: int,
    j: int,
) -> bool {
    &&& j < upto
    &&& is_candidate(rows, c, j)
    &&& accepts(pred, rows[j].word)
    &&& forall|k: int|
        #![trigger rows[k]]
        k < upto && is_candidate(rows, c, k) ==> {
            ||| rejects(pred, rows[k].word)
            ||| cosine_score(reference, rows[k].vector) < cosine_score(reference, rows[j].vector)
            ||| (cosine_score(reference, rows[k].vector) == cosine_score(
                reference,
                rows[j].vector,
            ) && j <= k)
        }
}

/// Row `j` is the most similar to `reference` of the candidates under `c`
/// that the test accepted, and the first of those that are as similar.
pub open spec fn is_best<P: Fn(&str) -> bool>(
    rows: Seq<Row>,
    pred: P,
    reference: Seq<i32>,
    c: char,
    j: int,
) -> bool {
    is_best_upto(rows, pred, reference, c, rows.len() as int, j)
}

/// The test turned down every candidate under `c` among the first `upto`
/// rows.
pub open spec fn none_upto<P: Fn(&str) -> bool>(rows: Seq<Row>, pred: P, c: char, upto: int) -> bool {
    forall|k: int|
        #![trigger rows[k]]
        k < upto && is_candidate(rows, c, k) ==> rejects(pred, rows[k].word)
}

impl EmbeddingIndex {
    /// Builds an index from the text of an embedding table.
    pub fn load(text: &str) -> (index: EmbeddingIndex)
        ensures
            valid_rows(index@),
            letters_ascend(index@),
            agree(index@, accepted(parsed_rows(text@))),
            forall|c: char| #[trigger]
                words_of(index@).filter(under(c)) == first_occurrences(
                    words_of(accepted(parsed_rows(text@))).filter(under(c)),
                ),
    {
        EmbeddingIndex::from_rows(parse_rows(text))
    }

    /// The words of the index, in its order.
    pub fn words(&self) -> (words: Vec<String>)
        ensures
            crate::letters::texts(words@) == words_of(self@),
    {
        let mut words: Vec<String> = Vec::new();
        let mut i: usize = 0;
        while i < self.rows.len()
            invariant
                i <= self.rows.len(),
                crate::letters::texts(words@) == words_of(self@).take(i as int),
            decreases self.rows.len() - i,
        {
            let ghost before = words@;
            words.push(self.rows[i].word.clone());
            proof {
                assert(crate::letters::texts(words@) =~= crate::letters::texts(before).push(
                    self.rows@[i as int].word@,
                ));
                assert(words_of(self@).take(i as int + 1) =~= words_of(self@).take(i as int).push(
                    self.rows@[i as int].word@,
                ));
            }
            i += 1;
        }
        assert(words_of(self@).take(self.rows.len() as int) =~= words_of(self@));
        words
    }

    /// The position of the row that holds `word`.
    fn position(&self, word: &str) -> (p: Option<usize>)
        ensures
            valid_rows(self@),
            match p {
                Some(i) => i < self@.len() && self@[i as int].word == word@ && lookup(self@, word@)
                    == Some(self@[i as int].vector) && self.rows@[i as int]@ == self@[i as int],
                None => !holds(self@, word@),
            },
    {
        proof {
            use_type_invariant(self);
        }
        match self.positions.get(word) {
            Some(p) => {
                proof {
                    lemma_lookup_at(self@, *p as int);
                }
                Some(*p)
            },
            None => {
                proof {
                    if holds(self@, word@) {
                        let j = choose|j: int| 0 <= j < self@.len() && (#[trigger] self@[j]).word
                            == word@;
                        assert(self.positions@.contains_key(self@[j].word));
                    }
                }
                None
            },
        }
    }
}

/// Tells whether a word is in the index.
pub fn is_valid_word(index: &EmbeddingIndex, word: &str) -> (known: bool)
    ensures
        known == holds(index@, word@),
        valid_rows(index@),
{
    index.position(word).is_some()
}

/// The similarity score of two words of the index.
pub fn similarity(index: &EmbeddingIndex, a: &str, b: &str) -> (r: Result<i32, EmbeddingError>)
    ensures
        valid_rows(index@),
        match r {
            Ok(score) => similarity_of(index@, a@, b@) == Ok::<int, Seq<char>>(score as int),
            Err(EmbeddingError::InvalidWord(w)) => similarity_of(index@, a@, b@) == Err::<
                int,
                Seq<char>,
            >(w@),
            Err(_) => false,
        },
{
    let pa = match index.position(a) {
        Some(p) => p,
        None => {
            return Err(EmbeddingError::InvalidWord(a.to_owned()));
        },
    };
    let pb = match index.position(b) {
        Some(p) => p,
        None => {
            return Err(EmbeddingError::InvalidWord(b.to_owned()));
        },
    };
    assert(usable(index@[pa as int]) && usable(index@[pb as int]));
    Ok(cosine(index.rows[pa].vector.as_slice(), index.rows[pb].vector.as_slice()))
}

/// Finds, among the words under `starting_char` that `predicate` accepts,
/// the most similar one to `word`; of several that are as similar, the one
/// that stands first in the index.
pub fn get_similar_word<P>(
    index: &EmbeddingIndex,
    word: &str,
    starting_char: char,
    predicate: P,
) -> (r: Result<String, EmbeddingError>) where P: Fn(&str) -> bool
    requires
        forall|s: &str| predicate.requires((s,)),
    ensures
        valid_rows(index@),
        match r {
            Ok(found) => holds(index@, word@) && exists|j: int|
                is_best(index@, predicate, lookup(index@, word@).unwrap(), starting_char, j)
                    && (#[trigger] index@[j]).word == found@,
            Err(EmbeddingError::InvalidWord(w)) => !holds(index@, word@) && w@ == word@,
            Err(EmbeddingError::NoMatch(c)) => holds(index@, word@) && c == starting_char
                && none_upto(index@, predicate, starting_char, index@.len() as int),
            Err(_) => false,
        },
{
    proof {
        use_type_invariant(index);
    }
    let at = match index.position(word) {
        Some(p) => p,
        None => {
            return Err(EmbeddingError::InvalidWord(word.to_owned()));
        },
    };
    let ghost rows = index@;
    let ghost reference = rows[at as int].vector;
    let mut best: Option<usize> = None;
    let mut best_score: i32 = 0;
    let mut b: usize = 0;
    let ghost mut upto: int = 0;
    while b < index.buckets.len()
        invariant
            rows == index@,
            rows == rows_of(index.rows@),
            valid_rows(rows),
            buckets_cover(index.buckets@, rows, rows.len() as int),
            at < rows.len(),
            reference == rows[at as int].vector,
            forall|s: &str| predicate.requires((s,)),
            b <= index.buckets.len(),
            b < index.buckets.len() ==> upto == index.buckets@[b as int].start,
            b == index.buckets.len() ==> upto == rows.len(),
            0 <= upto <= rows.len(),
            best is None ==> none_upto(rows, predicate, starting_char, upto),
            best matches Some(i) ==> is_best_upto(
                rows,
                predicate,
                reference,
                starting_char,
                upto,
                i as int,
            ) && best_score == cosine_score(reference, rows[i as int].vector),
        decreases index.buckets.len() - b,
    {
        let start = index.buckets[b].start;
        let end = index.buckets[b].end;
        proof {
            lemma_bucket_ends(index.buckets@, rows, b as int);
        }
        if index.buckets[b].letter == starting_char {
            let mut j: usize = start;
            while j < end
                invariant
                    rows == index@,
                    rows == rows_of(index.rows@),
                    valid_rows(rows),
                    at < rows.len(),
                    reference == rows[at as int].vector,
                    forall|s: &str| predicate.requires((s,)),
                    start <= j <= end <= rows.len(),
                    forall|k: int|
                        start <= k < end ==> bucket_letter((#[trigger] rows[k]).word)
                            == starting_char,
                    best is None ==> none_upto(rows, predicate, starting_char, j as int),
                    best matches Some(i) ==> is_best_upto(
                        rows,
                        predicate,
                        reference,
                        starting_char,
                        j as int,
                        i as int,
                    ) && best_score == cosine_score(reference, rows[i as int].vector),
                decreases end - j,
            {
                let candidate = &index.rows[j];
                assert(candidate@ == rows[j as int]);
                assert(usable(rows[j as int]) && usable(rows[at as int]));
                let name = candidate.word.as_str();
                let accepted = predicate(name);
                proof {
                    assert(name@ == rows[j as int].word && predicate.ensures((name,), accepted));
                    if accepted {
                        assert(accepts(predicate, rows[j as int].word));
                    } else {
                        assert(rejects(predicate, rows[j as int].word));
                    }
                }
                if accepted {
                    let score = cosine(
                        index.rows[at].vector.as_slice(),
                        candidate.vector.as_slice(),
                    );
                    match best {
                        Some(i) => {
                            if score > best_score {
                                best = Some(j);
                                best_score = score;
                            }
                        },
                        None => {
                            best = Some(j);
                            best_score = score;
                        },
                    }
                }
                proof {
                    let i = best->0 as int;
                    if best is Some {
                        assert forall|k: int|
                            #![trigger rows[k]]
                            k < j + 1 && is_candidate(rows, starting_char, k) implies {
                            ||| rejects(predicate, rows[k].word)
                            ||| cosine_score(reference, rows[k].vector) < cosine_score(
                                reference,
                                rows[i].vector,
                            )
                            ||| (cosine_score(reference, rows[k].vector) == cosine_score(
                                reference,
                                rows[i].vector,
                            ) && i <= k)
                        } by {}
                    }
                }
                j += 1;
            }
            proof {
                upto = end as int;
            }
        } else {
            proof {
                assert forall|k: int|
                    #![trigger rows[k]]
                    start <= k < end implies !is_candidate(rows, starting_char, k) by {
                    assert(bucket_letter(rows[k].word) == index.buckets@[b as int].letter);
                }
                upto = end as int;
            }
        }
        b += 1;
    }
    match best {
        Some(i) => Ok(index.rows[i].word.clone()),
        None => Err(EmbeddingError::NoMatch(starting_char)),
    }
}

/// Each of `words` is a word under `letter` that the test accepted.
pub open spec fn listed_from<P: Fn(&str) -> bool>(
    rows: Seq<Row>,
    letter: char,
    pred: P,
    words: Seq<String>,
) -> bool {
    forall|i: int|
        #![trigger words[i]]
        0 <= i < words.len() ==> accepts(pred, words[i]@) && exists|j: int|
            is_candidate(rows, letter, j) && (#[trigger] rows[j]).word == words[i]@
}

/// Each word under `letter` among the first `upto` rows is one of `words`,
/// unless the test turned it down.
pub open spec fn lists_all<P: Fn(&str) -> bool>(
    rows: Seq<Row>,
    letter: char,
    pred: P,
    words: Seq<String>,
    upto: int,
) -> bool {
    forall|j: int|
        #![trigger rows[j]]
        j < upto && is_candidate(rows, letter, j) ==> rejects(pred, rows[j].word) || exists|i: int|
            0 <= i < words.len() && (#[trigger] words[i])@ == rows[j].word
}

/// Lists the words under `letter` that `predicate` accepts, in the order of
/// the index.
pub fn words_under<P>(index: &EmbeddingIndex, letter: char, predicate: P) -> (words: Vec<
    String,
>) where P: Fn(&str) -> bool
    requires
        forall|s: &str| predicate.requires((s,)),
    ensures
        valid_rows(index@),
        listed_from(index@, letter, predicate, words@),
        lists_all(index@, letter, predicate, words@, index@.len() as int),
{
    proof {
        use_type_invariant(index);
    }
    let ghost rows = index@;
    let mut words: Vec<String> = Vec::new();
    let mut b: usize = 0;
    let ghost mut upto: int = 0;
    while b < index.buckets.len()
        invariant
            rows == index@,
            rows == rows_of(index.rows@),
            buckets_cover(index.buckets@, rows, rows.len() as int),
            forall|s: &str| predicate.requires((s,)),
            b <= index.buckets.len(),
            b < index.buckets.len() ==> upto == index.buckets@[b as int].start,
            b == index.buckets.len() ==> upto == rows.len(),
            0 <= upto <= rows.len(),
            listed_from(rows, letter, predicate, words@),
            lists_all(rows, letter, predicate, words@, upto),
        decreases index.buckets.len() - b,
    {
        let start = index.buckets[b].start;
        let end = index.buckets[b].end;
        proof {
            lemma_bucket_ends(index.buckets@, rows, b as int);
        }
        if index.buckets[b].letter == letter {
            let mut j: usize = start;
            while j < end
                invariant
                    rows == index@,
                    rows == rows_of(index.rows@),
                    forall|s: &str| predicate.requires((s,)),
                    start <= j <= end <= rows.len(),
                    forall|k: int|
                        start <= k < end ==> bucket_letter((#[trigger] rows[k]).word) == letter,
                    listed_from(rows, letter, predicate, words@),
                    lists_all(rows, letter, predicate, words@, j as int),
                decreases end - j,
            {
                let candidate = &index.rows[j];
                assert(candidate@ == rows[j as int]);
                let name = candidate.word.as_str();
                let accepted = predicate(name);
                let ghost before = words@;
                proof {
                    assert(name@ == rows[j as int].word && predicate.ensures((name,), accepted));
                }
                if accepted {
                    words.push(candidate.word.clone());
                    proof {
                        assert(accepts(predicate, rows[j as int].word));
                        assert(is_candidate(rows, letter, j as int));
                        assert(words@[before.len() as int]@ == rows[j as int].word);
                    }
                } else {
                    assert(rejects(predicate, rows[j as int].word));
                }
                proof {
                    assert forall|i: int|
                        #![trigger words@[i]]
                        0 <= i < words@.len() implies accepts(predicate, words@[i]@) && exists|
                        k: int,
                    |
                        is_candidate(rows, letter, k) && (#[trigger] rows[k]).word == words@[i]@ by {
                        if i < before.len() {
                            assert(words@[i] == before[i]);
                        }
                    }
                    assert forall|k: int|
                        #![trigger rows[k]]
                        k < j + 1 && is_candidate(rows, letter, k) implies rejects(
                        predicate,
                        rows[k].word,
                    ) || exists|i: int|
                        0 <= i < words@.len() && (#[trigger] words@[i])@ == rows[k].word by {
                        if k < j {
                            if !rejects(predicate, rows[k].word) {
                                let i = choose|i: int|
                                    0 <= i < before.len() && (#[trigger] before[i])@ == rows[k].word;
                                assert(words@[i] == before[i]);
                            }
                        }
                    }
                }
                j += 1;
            }
            proof {
                upto = end as int;
            }
        } else {
            proof {
                assert forall|k: int|
                    #![trigger rows[k]]
                    start <= k < end implies !is_candidate(rows, letter, k) by {
                    assert(bucket_letter(rows[k].word) == index.buckets@[b as int].letter);
                }
                upto = end as int;
            }
        }
        b += 1;
    }
    words
}

/// A line that is left out of an index of rows of `dim` components though
/// it holds a field: it is no row, or its row is not usable, or has another
/// number of components.
pub open spec fn is_left_out(line: Seq<char>, dim: Option<nat>) -> bool {
    fields(line).len() > 0 && match row_of_line(line) {
        Some(r) => !(fits(dim))(r),
        None => true,
    }
}

/// The number of components that the first usable row has.
pub fn dimension_of(rows: &Vec<WordVector>) -> (dim: Option<usize>)
    ensures
        match dim {
            Some(d) => dimension(rows_of(rows@)) == Some(d as nat),
            None => dimension(rows_of(rows@)) is None,
        },
{
    let ghost all = rows_of(rows@);
    let mut k: usize = 0;
    while k < rows.len() && !is_usable(&rows[k])
        invariant
            k <= rows.len(),
            all == rows_of(rows@),
            first_usable(all, 0) == first_usable(all, k as int),
        decreases rows.len() - k,
    {
        k += 1;
    }
    if k == rows.len() {
        None
    } else {
        Some(rows[k].vector.len())
    }
}

/// Lists the lines of an embedding table that hold a field and yet are left
/// out of the index built from it, by their numbers from 0, in ascending
/// order: what a log of the loading tells.
pub fn skipped_lines(text: &str) -> (skipped: Vec<usize>)
    ensures
        forall|k: int|
            #![trigger skipped@.contains(k as usize)]
            0 <= k <= usize::MAX ==> (skipped@.contains(k as usize) <==> k < lines(
                without_cr(text@),
            ).len() && is_left_out(
                lines(without_cr(text@))[k],
                dimension(parsed_rows(text@)),
            )),
        forall|i: int, j: int| 0 <= i < j < skipped@.len() ==> skipped@[i] < skipped@[j],
{
    let rows = parse_rows(text);
    let dim = dimension_of(&rows);
    let ghost width = dimension(parsed_rows(text@));
    let raw = chars_of(text);
    let clean = strip_cr(raw.as_slice());
    let spans = split_lines(clean.as_slice());
    let ghost ls = lines(clean@);
    let mut skipped: Vec<usize> = Vec::new();
    let mut i: usize = 0;
    while i < spans.len()
        invariant
            i <= spans.len(),
            clean@ == without_cr(text@),
            ls == lines(clean@),
            parts(clean@, spans@) == ls,
            forall|k: int| 0 <= k < spans.len() ==> (#[trigger] spans[k]).within(clean@.len()),
            width == dimension(parsed_rows(text@)),
            match dim {
                Some(d) => width == Some(d as nat),
                None => width is None,
            },
            forall|k: int|
                #![trigger skipped@.contains(k as usize)]
                0 <= k <= usize::MAX ==> (skipped@.contains(k as usize) <==> k < i && is_left_out(
                    ls[k],
                    width,
                )),
            forall|a: int, b: int| 0 <= a < b < skipped@.len() ==> skipped@[a] < skipped@[b],
            forall|a: int| 0 <= a < skipped@.len() ==> skipped@[a] < i,
        decreases spans.len() - i,
    {
        assert(spans@[i as int].within(clean@.len()));
        let line = slice_subrange(clean.as_slice(), spans[i].start, spans[i].end);
        assert(line@ == ls[i as int]);
        let has_field = split_fields(line).len() > 0;
        let out = match parse_line(line) {
            Some(row) => {
                let kept = is_usable(&row) && match dim {
                    Some(d) => row.vector.len() == d,
                    None => false,
                };
                !kept
            },
            None => true,
        };
        let ghost before = skipped@;
        if has_field && out {
            skipped.push(i);
        }
        proof {
            assert(has_field && out <==> is_left_out(ls[i as int], width));
            assert forall|k: int|
                #![trigger skipped@.contains(k as usize)]
                0 <= k <= usize::MAX implies (skipped@.contains(k as usize) <==> k < i + 1
                && is_left_out(ls[k], width)) by {
                if has_field && out {
                    vstd::seq_lib::lemma_seq_contains_after_push(before, i, k as usize);
                }
                if before.contains(k as usize) {
                    let a = choose|a: int| 0 <= a < before.len() && before[a] == k as usize;
                    assert(before[a] < i);
                }
            }
        }
        i += 1;
    }
    skipped
}

} // verus!
