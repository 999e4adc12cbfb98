//! Text as sequences of characters: white space, fields and lines.

use vstd::prelude::*;

verus! {

/// A pair of positions in a text: the first and one past the last character
/// of a part of it.
#[derive(Clone, Copy, Debug, PartialEq, Eq)]
pub struct Span {
    pub start: usize,
    pub end: usize,
}

impl Span {
    /// The part of `s` that the span marks.
    pub open spec fn of(self, s: Seq<char>) -> Seq<char> {
        s.subrange(self.start as int, self.end as int)
    }

    /// The span lies within a text of `len` characters.
    pub open spec fn within(self, len: nat) -> bool {
        self.start <= self.end <= len
    }
}

/// The parts of `s` that the spans mark, in order.
pub open spec fn parts(s: Seq<char>, spans: Seq<Span>) -> Seq<Seq<char>> {
    Seq::new(spans.len(), |k: int| spans[k].of(s))
}

/// White space: the characters that separate fields.
pub open spec fn is_space(c: char) -> bool {
    let u = c as u32;
    ||| 0x09 <= u <= 0x0D
    ||| u == 0x20
    ||| u == 0x85
    ||| u == 0xA0
    ||| u == 0x1680
    ||| 0x2000 <= u <= 0x200A
    ||| u == 0x2028
    ||| u == 0x2029
    ||| u == 0x202F
    ||| u == 0x205F
    ||| u == 0x3000
}

/// Tells whether a character is white space.
pub fn is_space_char(c: char) -> (b: bool)
    ensures
        b == is_space(c),
{
    let u: u32 = c as u32;
    (0x09 <= u && u <= 0x0D) || u == 0x20 || u == 0x85 || u == 0xA0 || u == 0x1680 || (0x2000 <= u
        && u <= 0x200A) || u == 0x2028 || u == 0x2029 || u == 0x202F || u == 0x205F || u == 0x3000
}

/// The first position at or after `i` that holds white space, or the end.
pub open spec fn field_end(s: Seq<char>, i: int) -> int
    decreases s.len() - i,
{
    if i < 0 || i >= s.len() || is_space(s[i]) {
        i
    } else {
        field_end(s, i + 1)
    }
}

/// The fields of `s` from position `i` on: its maximal runs of characters
/// that are not white space, in order.
pub open spec fn fields_from(s: Seq<char>, i: int) -> Seq<Seq<char>>
    decreases s.len() - i,
{
    if i < 0 || i >= s.len() {
        Seq::empty()
    } else if is_space(s[i]) {
        fields_from(s, i + 1)
    } else {
        let e = field_end(s, i);
        if i < e <= s.len() {
            seq![s.subrange(i, e)] + fields_from(s, e)
        } else {
            Seq::empty()
        }
    }
}

/// The fields of `s`.
pub open spec fn fields(s: Seq<char>) -> Seq<Seq<char>> {
    fields_from(s, 0)
}

/// The first position at or after `i` that holds a line feed, or the end.
pub open spec fn line_end(s: Seq<char>, i: int) -> int
    decreases s.len() - i,
{
    if i < 0 || i >= s.len() || s[i] == '\n' {
        i
    } else {
        line_end(s, i + 1)
    }
}

/// The lines of `s` from position `i` on. A line ends before a line feed or
/// at the end of the text; a text that ends in a line feed has no empty line
/// after it.
pub open spec fn lines_from(s: Seq<char>, i: int) -> Seq<Seq<char>>
    decreases s.len() - i,
{
    if i < 0 || i >= s.len() {
        Seq::empty()
    } else {
        let e = line_end(s, i);
        if i <= e < s.len() {
            seq![s.subrange(i, e)] + lines_from(s, e + 1)
        } else {
            seq![s.skip(i)]
        }
    }
}

/// The lines of `s`.
pub open spec fn lines(s: Seq<char>) -> Seq<Seq<char>> {
    lines_from(s, 0)
}

/// `s` without its carriage returns.
pub open spec fn without_cr(s: Seq<char>) -> Seq<char> {
    s.filter(|c: char| c != '\r')
}

/// Splits a text into its fields.
pub fn split_fields(s: &[char]) -> (spans: Vec<Span>)
    ensures
        parts(s@, spans@) == fields(s@),
        forall|k: int| 0 <= k < spans.len() ==> (#[trigger] spans[k]).within(s@.len()),
        forall|k: int| 0 <= k < spans.len() ==> (#[trigger] spans[k]).start < spans[k].end,
{
    let n = s.len();
    let mut spans: Vec<Span> = Vec::new();
    let mut i: usize = 0;
    while i < n
        invariant
            n == s.len(),
            i <= n,
            fields(s@) =~= parts(s@, spans@) + fields_from(s@, i as int),
            forall|k: int| 0 <= k < spans.len() ==> (#[trigger] spans[k]).within(s@.len()),
            forall|k: int| 0 <= k < spans.len() ==> (#[trigger] spans[k]).start < spans[k].end,
        decreases n - i,
    {
        if is_space_char(s[i]) {
            i += 1;
        } else {
            let start = i;
            let mut j: usize = i + 1;
            while j < n && !is_space_char(s[j])
                invariant
                    n == s.len(),
                    start < j <= n,
                    field_end(s@, start as int) == field_end(s@, j as int),
                decreases n - j,
            {
                j += 1;
            }
            let span = Span { start, end: j };
            proof {
                let before = spans@;
                let grown = before.push(span);
                assert(field_end(s@, j as int) == j);
                assert(parts(s@, grown) =~= parts(s@, before).push(span.of(s@)));
                assert(parts(s@, grown) + fields_from(s@, j as int) =~= parts(s@, before) + (
                seq![span.of(s@)] + fields_from(s@, j as int)));
            }
            spans.push(span);
            i = j;
        }
    }
    assert(parts(s@, spans@) + fields_from(s@, n as int) =~= parts(s@, spans@));
    spans
}

/// Splits a text into its lines.
pub fn split_lines(s: &[char]) -> (spans: Vec<Span>)
    ensures
        parts(s@, spans@) == lines(s@),
        forall|k: int| 0 <= k < spans.len() ==> (#[trigger] spans[k]).within(s@.len()),
{
    let n = s.len();
    let mut spans: Vec<Span> = Vec::new();
    let mut i: usize = 0;
    while i < n
        invariant
            n == s.len(),
            i <= n,
            lines(s@) =~= parts(s@, spans@) + lines_from(s@, i as int),
            forall|k: int| 0 <= k < spans.len() ==> (#[trigger] spans[k]).within(s@.len()),
        decreases n - i,
    {
        let start = i;
        let mut j: usize = i;
        while j < n && s[j] != '\n'
            invariant
                n == s.len(),
                start <= j <= n,
                line_end(s@, start as int) == line_end(s@, j as int),
            decreases n - j,
        {
            j += 1;
        }
        let span = Span { start, end: j };
        proof {
            let before = spans@;
            let grown = before.push(span);
            assert(line_end(s@, j as int) == j);
            assert(parts(s@, grown) =~= parts(s@, before).push(span.of(s@)));
            if j < n {
                assert(parts(s@, grown) + lines_from(s@, j as int + 1) =~= parts(s@, before) + (
                seq![span.of(s@)] + lines_from(s@, j as int + 1)));
            } else {
                assert(span.of(s@) =~= s@.skip(start as int));
                assert(parts(s@, grown) + lines_from(s@, n as int) =~= parts(s@, before)
                    + seq![span.of(s@)]);
            }
        }
        spans.push(span);
        if j < n {
            i = j + 1;
        } else {
            i = n;
        }
    }
    assert(parts(s@, spans@) + lines_from(s@, n as int) =~= parts(s@, spans@));
    spans
}

/// Copies a text, leaving out its carriage returns.
pub fn strip_cr(s: &[char]) -> (out: Vec<char>)
    ensures
        out@ == without_cr(s@),
{
    let mut out: Vec<char> = Vec::new();
    let mut i: usize = 0;
    while i < s.len()
        invariant
            i <= s.len(),
            out@ == without_cr(s@.take(i as int)),
        decreases s.len() - i,
    {
        proof {
            reveal(Seq::filter);
            assert(s@.take(i as int + 1).drop_last() =~= s@.take(i as int));
        }
        if s[i] != '\r' {
            out.push(s[i]);
        }
        i += 1;
    }
    assert(s@.take(s.len() as int) =~= s@);
    out
}

/// Makes a string of characters, through `String::from_iter`: the string
/// holds the characters given, in their order. Believed, not proved.
#[verifier::external_body]
pub(crate) fn string_of(chars: &[char]) -> (s: String)
    ensures
        s@ == chars@,
{
    chars.iter().collect()
}

/// The lower-case form of a text, as `str::to_lowercase` gives it.
pub uninterp spec fn lowercase_of(s: Seq<char>) -> Seq<char>;

/// Turns a text into lower case, through `str::to_lowercase`: the same text
/// always gives the same result, which `lowercase_of` names. Believed, not
/// proved.
#[verifier::external_body]
pub(crate) fn lowercase(s: &str) -> (r: String)
    ensures
        r@ == lowercase_of(s@),
{
    s.to_lowercase()
}

} // verus!
