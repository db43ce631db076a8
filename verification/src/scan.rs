//! The scanners that read a definition text: each works on a window
//! `from..to` of a character slice and says which function of `text` it
//! computes.
use crate::text::{
    clean_line, comment_at, comment_start, is_space, kept, leading_spaces, lemma_comment_start,
    lemma_leading_spaces, lemma_line_len, lemma_trailing_spaces, lemma_word_len, line_len,
    meaningful_lines, trailing_spaces, trim_end, trim_start, word_len,
};
use vstd::prelude::*;

verus! {

/// Whether `c` is white space.
pub fn char_is_space(c: char) -> (b: bool)
    ensures
        b == is_space(c),
{
    let u: u32 = c as u32;
    (0x09 <= u && u <= 0x0d) || u == 0x20 || u == 0x85 || u == 0xa0 || u == 0x1680 || (0x2000 <= u
        && u <= 0x200a) || u == 0x2028 || u == 0x2029 || u == 0x202f || u == 0x205f || u == 0x3000
}

/// The characters of `s`, one element each.
pub fn to_chars(s: &str) -> (chars: Vec<char>)
    ensures
        chars@ == s@,
{
    let mut chars: Vec<char> = Vec::new();
    for c in it: s.chars()
        invariant
            chars@ == it.seq().take(it.index() as int),
            it.seq() == s@,
    {
        chars.push(c);
    }
    chars
}

/// The position in `from..to` at which the leading white space of that window
/// ends.
pub(crate) fn skip_spaces(chars: &[char], from: usize, to: usize) -> (at: usize)
    requires
        from <= to <= chars@.len(),
    ensures
        from <= at <= to,
        at - from == leading_spaces(chars@.subrange(from as int, to as int)),
{
    let mut i: usize = from;
    while i < to && char_is_space(chars[i])
        invariant
            from <= i <= to <= chars@.len(),
            forall|j: int| from <= j < i ==> is_space(#[trigger] chars@[j]),
        decreases to - i,
    {
        i += 1;
    }
    proof {
        lemma_leading_spaces(chars@.subrange(from as int, to as int), i - from);
    }
    i
}

/// The position in `from..to` at which the trailing white space of that
/// window begins.
pub(crate) fn skip_spaces_back(chars: &[char], from: usize, to: usize) -> (at: usize)
    requires
        from <= to <= chars@.len(),
    ensures
        from <= at <= to,
        to - at == trailing_spaces(chars@.subrange(from as int, to as int)),
{
    let mut i: usize = to;
    while i > from && char_is_space(chars[i - 1])
        invariant
            from <= i <= to <= chars@.len(),
            forall|j: int| i <= j < to ==> is_space(#[trigger] chars@[j]),
        decreases i - from,
    {
        i -= 1;
    }
    proof {
        lemma_trailing_spaces(chars@.subrange(from as int, to as int), i - from);
    }
    i
}

/// The position in `from..to` at which the first word of that window ends.
pub(crate) fn skip_word(chars: &[char], from: usize, to: usize) -> (at: usize)
    requires
        from <= to <= chars@.len(),
    ensures
        from <= at <= to,
        at - from == word_len(chars@.subrange(from as int, to as int)),
{
    let mut i: usize = from;
    while i < to && !char_is_space(chars[i])
        invariant
            from <= i <= to <= chars@.len(),
            forall|j: int| from <= j < i ==> !is_space(#[trigger] chars@[j]),
        decreases to - i,
    {
        i += 1;
    }
    proof {
        lemma_word_len(chars@.subrange(from as int, to as int), i - from);
    }
    i
}

/// The position at or after `from` of the first line feed, or the length of
/// `chars` if there is none.
pub(crate) fn find_line_end(chars: &[char], from: usize) -> (at: usize)
    requires
        from <= chars@.len(),
    ensures
        from <= at <= chars@.len(),
        at - from == line_len(chars@.skip(from as int)),
{
    let mut i: usize = from;
    while i < chars.len() && chars[i] != '\n'
        invariant
            from <= i <= chars@.len(),
            forall|j: int| from <= j < i ==> #[trigger] chars@[j] != '\n',
        decreases chars@.len() - i,
    {
        i += 1;
    }
    proof {
        lemma_line_len(chars@.skip(from as int), i - from);
    }
    i
}

/// The position in `from..to` at which the first comment of that window
/// opens, or `to` if it has none.
pub(crate) fn find_comment(chars: &[char], from: usize, to: usize) -> (at: usize)
    requires
        from <= to <= chars@.len(),
    ensures
        from <= at <= to,
        at - from == comment_start(chars@.subrange(from as int, to as int)),
{
    let ghost s = chars@.subrange(from as int, to as int);
    let mut i: usize = from;
    while i < to
        invariant
            from <= i <= to <= chars@.len(),
            s == chars@.subrange(from as int, to as int),
            forall|j: int| 0 <= j < i - from ==> !comment_at(s, j),
        decreases to - i,
    {
        if i + 1 < to && chars[i] == '/' && chars[i + 1] == '/' {
            proof {
                assert(comment_at(s, i - from));
                lemma_comment_start(s, i - from);
            }
            return i;
        }
        assert(!comment_at(s, i - from));
        i += 1;
    }
    proof {
        lemma_comment_start(s, to - from);
    }
    i
}

/// A stretch of a text, from `start` up to `end`.
pub struct Span {
    pub start: usize,
    pub end: usize,
}

impl Span {
    /// Whether the span lies within a text of `len` characters.
    pub open spec fn within(self, len: nat) -> bool {
        self.start <= self.end <= len
    }

    /// The characters of `chars` that the span covers.
    pub open spec fn of(self, chars: Seq<char>) -> Seq<char> {
        chars.subrange(self.start as int, self.end as int)
    }
}

/// The texts that `spans` cover in `chars`.
pub open spec fn texts_of(spans: Seq<Span>, chars: Seq<char>) -> Seq<Seq<char>> {
    Seq::new(spans.len(), |i: int| spans[i].of(chars))
}

/// The span of what the line `from..to` means: the line without its comment
/// and without the white space around the rest.
pub(crate) fn clean_span(chars: &[char], from: usize, to: usize) -> (span: Span)
    requires
        from <= to <= chars@.len(),
    ensures
        from <= span.start <= span.end <= to,
        span.of(chars@) == clean_line(chars@.subrange(from as int, to as int)),
{
    let stop = find_comment(chars, from, to);
    let start = skip_spaces(chars, from, stop);
    let end = skip_spaces_back(chars, start, stop);
    proof {
        let line = chars@.subrange(from as int, to as int);
        let code = chars@.subrange(from as int, stop as int);
        assert(line.take(comment_start(line) as int) =~= code);
        assert(trim_start(code) =~= chars@.subrange(start as int, stop as int));
        assert(trim_end(chars@.subrange(start as int, stop as int)) =~= chars@.subrange(
            start as int,
            end as int,
        ));
    }
    Span { start, end }
}

/// The spans of the meaningful lines of `chars`, in order.
pub(crate) fn meaningful_spans(chars: &[char]) -> (spans: Vec<Span>)
    ensures
        forall|i: int| 0 <= i < spans@.len() ==> (#[trigger] spans@[i]).within(chars@.len()),
        forall|i: int| 0 <= i < spans@.len() ==> (#[trigger] spans@[i]).start < spans@[i].end,
        texts_of(spans@, chars@) == meaningful_lines(chars@),
{
    let mut spans: Vec<Span> = Vec::new();
    let mut from: usize = 0;
    proof {
        assert(chars@.skip(0) =~= chars@);
        assert(texts_of(spans@, chars@) + meaningful_lines(chars@) =~= meaningful_lines(chars@));
    }
    while from < chars.len()
        invariant
            from <= chars@.len(),
            forall|i: int| 0 <= i < spans@.len() ==> (#[trigger] spans@[i]).within(chars@.len()),
            forall|i: int| 0 <= i < spans@.len() ==> (#[trigger] spans@[i]).start < spans@[i].end,
            texts_of(spans@, chars@) + meaningful_lines(chars@.skip(from as int))
                == meaningful_lines(chars@),
        decreases chars@.len() - from,
    {
        let end = find_line_end(chars, from);
        let span = clean_span(chars, from, end);
        let ghost rest = chars@.skip(from as int);
        let ghost before = texts_of(spans@, chars@);
        proof {
            assert(rest.take(line_len(rest) as int) =~= chars@.subrange(from as int, end as int));
            if end < chars@.len() {
                assert(rest.skip(line_len(rest) as int + 1) =~= chars@.skip(end as int + 1));
            }
        }
        if span.start < span.end {
            spans.push(span);
            proof {
                assert(texts_of(spans@, chars@) =~= before + kept(span.of(chars@)));
            }
        } else {
            proof {
                assert(kept(span.of(chars@)) =~= Seq::<Seq<char>>::empty());
                assert(before + kept(span.of(chars@)) =~= before);
            }
        }
        if end < chars.len() {
            from = end + 1;
            proof {
                assert(texts_of(spans@, chars@) + meaningful_lines(chars@.skip(from as int))
                    =~= before + (kept(span.of(chars@)) + meaningful_lines(
                    chars@.skip(from as int),
                )));
            }
        } else {
            from = end;
            proof {
                assert(meaningful_lines(chars@.skip(from as int)) =~= Seq::<Seq<char>>::empty());
                assert(texts_of(spans@, chars@) + meaningful_lines(chars@.skip(from as int))
                    =~= before + kept(span.of(chars@)));
            }
        }
    }
    proof {
        assert(meaningful_lines(chars@.skip(from as int)) =~= Seq::<Seq<char>>::empty());
        assert(texts_of(spans@, chars@) + Seq::<Seq<char>>::empty() =~= texts_of(spans@, chars@));
    }
    spans
}

} // verus!
