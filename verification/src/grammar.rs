//! The grammar of a definition text, and the parser for it.
//!
//! A definition text is read line by line. Only the meaningful lines count
//! (see `meaningful_lines`), and they come in a fixed order: `n:`, `d:` and
//! `depth:` with a number each, `prefix:` and `postfix:` with twists, the
//! bare line `generators:`, and then one generator on every further line.
use crate::definition::{
    all_twists, generators_view, twists_view, Definition, DefinitionView, Field, Generator,
    ParseError, Twist,
};
use crate::number::{parse_unsigned, scan_unsigned};
use crate::scan::{meaningful_spans, skip_spaces, skip_word, texts_of, to_chars, Span};
use crate::text::{
    all_comment_free, comment_free, is_space, leading_spaces, lemma_comment_free_subrange,
    lemma_leading_spaces_found, lemma_lines_ignore_trailing_comment,
    lemma_meaningful_lines_comment_free, lemma_meaningful_lines_start, lemma_tokens_are_words,
    lemma_tokens_comment_free, lemma_tokens_of_text, lemma_tokens_skip_spaces, lemma_tokens_word,
    meaningful_lines, tokens, trim_start, word_len,
};
use vstd::prelude::*;

verus! {

/// What follows `key` on `line`, if `line` starts with `key`.
pub open spec fn strip_key(line: Seq<char>, key: Seq<char>) -> Option<Seq<char>> {
    if key.is_prefix_of(line) {
        Some(line.skip(key.len() as int))
    } else {
        None
    }
}

/// The number on line `at`, which has to be the line of `field`.
pub open spec fn number_on(lines: Seq<Seq<char>>, at: int, field: Field, max: nat) -> Result<
    nat,
    ParseError,
> {
    if lines.len() <= at {
        Err(ParseError::UnexpectedEof(field))
    } else {
        match strip_key(lines[at], field.key()) {
            None => Err(ParseError::MissingKey(field)),
            Some(rest) => match parse_unsigned(trim_start(rest), max) {
                None => Err(ParseError::InvalidNumber(field)),
                Some(number) => Ok(number),
            },
        }
    }
}

/// The twists on line `at`, which has to be the line of `field`.
pub open spec fn twists_on(lines: Seq<Seq<char>>, at: int, field: Field) -> Result<
    Seq<Seq<char>>,
    ParseError,
> {
    if lines.len() <= at {
        Err(ParseError::UnexpectedEof(field))
    } else {
        match strip_key(lines[at], field.key()) {
            None => Err(ParseError::MissingKey(field)),
            Some(rest) => Ok(tokens(rest)),
        }
    }
}

/// What is wrong with line `at` as the line that opens the pool, if anything.
pub open spec fn pool_header_on(lines: Seq<Seq<char>>, at: int) -> Option<ParseError> {
    if lines.len() <= at {
        Some(ParseError::UnexpectedEof(Field::Generators))
    } else if lines[at] != Field::Generators.key() {
        Some(ParseError::InvalidGeneratorsHeader)
    } else {
        None
    }
}

/// The generators on the lines from `at` on, one to a line.
pub open spec fn pool_from(lines: Seq<Seq<char>>, at: int) -> Seq<Seq<Seq<char>>> {
    Seq::new((lines.len() - at) as nat, |i: int| tokens(lines[at + i]))
}

/// The definition that the meaningful lines `lines` give, or the first thing
/// that is wrong with them.
pub open spec fn parse_lines(lines: Seq<Seq<char>>) -> Result<DefinitionView, ParseError> {
    match number_on(lines, 0, Field::N, u8::MAX as nat) {
        Err(e) => Err(e),
        Ok(n) => match number_on(lines, 1, Field::D, u8::MAX as nat) {
            Err(e) => Err(e),
            Ok(d) => match number_on(lines, 2, Field::Depth, u32::MAX as nat) {
                Err(e) => Err(e),
                Ok(depth) => match twists_on(lines, 3, Field::Prefix) {
                    Err(e) => Err(e),
                    Ok(prefix) => match twists_on(lines, 4, Field::Postfix) {
                        Err(e) => Err(e),
                        Ok(postfix) => match pool_header_on(lines, 5) {
                            Some(e) => Err(e),
                            None => Ok(
                                DefinitionView {
                                    n,
                                    d,
                                    depth,
                                    prefix,
                                    postfix,
                                    generators: pool_from(lines, 6),
                                },
                            ),
                        },
                    },
                },
            },
        },
    }
}

/// The definition that `text` gives, or the first thing that is wrong with
/// it.
pub open spec fn parse_text(text: Seq<char>) -> Result<DefinitionView, ParseError> {
    parse_lines(meaningful_lines(text))
}

/// Whether the window `from..to` of `chars` starts with `key`.
fn starts_with(chars: &[char], from: usize, to: usize, key: &[char]) -> (found: bool)
    requires
        from <= to <= chars@.len(),
    ensures
        found == key@.is_prefix_of(chars@.subrange(from as int, to as int)),
{
    let ghost line = chars@.subrange(from as int, to as int);
    if key.len() > to - from {
        return false;
    }
    let mut i: usize = 0;
    while i < key.len()
        invariant
            i <= key@.len() <= to - from,
            from <= to <= chars@.len(),
            line == chars@.subrange(from as int, to as int),
            forall|j: int| 0 <= j < i ==> key@[j] == line[j],
        decreases key@.len() - i,
    {
        if key[i] != chars[from + i] {
            assert(line.subrange(0, key@.len() as int)[i as int] != key@[i as int]);
            return false;
        }
        i += 1;
    }
    assert(key@ =~= line.subrange(0, key@.len() as int));
    true
}

/// The position just after the key of `field`, if the line `line` starts with
/// that key.
fn after_key(chars: &[char], line: &Span, field: Field) -> (rest: Option<usize>)
    requires
        line.within(chars@.len()),
    ensures
        match rest {
            Some(at) => line.start <= at <= line.end && strip_key(line.of(chars@), field.key())
                == Some(chars@.subrange(at as int, line.end as int)),
            None => strip_key(line.of(chars@), field.key()) is None,
        },
{
    let key = to_chars(field.key_text());
    if starts_with(chars, line.start, line.end, key.as_slice()) {
        let at = line.start + key.len();
        assert(line.of(chars@).skip(key@.len() as int) =~= chars@.subrange(
            at as int,
            line.end as int,
        ));
        Some(at)
    } else {
        None
    }
}

/// Reads the number on line `at` of `lines`, the line of `field`.
fn read_number(chars: &[char], lines: &Vec<Span>, at: usize, field: Field, max: u32) -> (number:
    Result<u32, ParseError>)
    requires
        forall|i: int| 0 <= i < lines@.len() ==> (#[trigger] lines@[i]).within(chars@.len()),
    ensures
        match number {
            Ok(v) => number_on(texts_of(lines@, chars@), at as int, field, max as nat) == Ok::<
                nat,
                ParseError,
            >(v as nat),
            Err(e) => number_on(texts_of(lines@, chars@), at as int, field, max as nat) == Err::<
                nat,
                ParseError,
            >(e),
        },
{
    if at >= lines.len() {
        return Err(ParseError::UnexpectedEof(field));
    }
    let line = &lines[at];
    match after_key(chars, line, field) {
        None => Err(ParseError::MissingKey(field)),
        Some(rest) => {
            let start = skip_spaces(chars, rest, line.end);
            assert(trim_start(chars@.subrange(rest as int, line.end as int)) =~= chars@.subrange(
                start as int,
                line.end as int,
            ));
            match scan_unsigned(chars, start, line.end, max) {
                None => Err(ParseError::InvalidNumber(field)),
                Some(v) => Ok(v),
            }
        },
    }
}

/// The twists in the window `from..to` of the text, one for each token.
fn split_twists(input: &str, chars: &[char], from: usize, to: usize) -> (twists: Generator)
    requires
        chars@ == input@,
        from <= to <= chars@.len(),
    ensures
        twists@ == tokens(chars@.subrange(from as int, to as int)),
{
    let mut twists: Vec<Twist> = Vec::new();
    let mut i: usize = from;
    proof {
        assert(twists_view(twists@) + tokens(chars@.subrange(i as int, to as int)) =~= tokens(
            chars@.subrange(from as int, to as int),
        ));
    }
    while i < to
        invariant
            chars@ == input@,
            from <= i <= to <= chars@.len(),
            twists_view(twists@) + tokens(chars@.subrange(i as int, to as int)) == tokens(
                chars@.subrange(from as int, to as int),
            ),
        decreases to - i,
    {
        let ghost rest = chars@.subrange(i as int, to as int);
        let ghost before = twists_view(twists@);
        let start = skip_spaces(chars, i, to);
        proof {
            lemma_tokens_skip_spaces(rest);
            assert(rest.skip(leading_spaces(rest) as int) =~= chars@.subrange(
                start as int,
                to as int,
            ));
        }
        if start < to {
            let end = skip_word(chars, start, to);
            let ghost tail = chars@.subrange(start as int, to as int);
            proof {
                lemma_leading_spaces_found(rest);
                lemma_tokens_word(tail);
                assert(tail.take(word_len(tail) as int) =~= chars@.subrange(
                    start as int,
                    end as int,
                ));
                assert(tail.skip(word_len(tail) as int) =~= chars@.subrange(end as int, to as int));
            }
            let token = input.substring_char(start, end).to_owned();
            twists.push(Twist(token));
            proof {
                assert(twists_view(twists@) =~= before + seq![
                    chars@.subrange(start as int, end as int),
                ]);
                assert(twists_view(twists@) + tokens(chars@.subrange(end as int, to as int))
                    =~= before + (seq![chars@.subrange(start as int, end as int)] + tokens(
                    chars@.subrange(end as int, to as int),
                )));
            }
            i = end;
        } else {
            i = to;
        }
    }
    proof {
        assert(tokens(chars@.subrange(to as int, to as int)) =~= Seq::<Seq<char>>::empty());
        assert(twists_view(twists@) + Seq::<Seq<char>>::empty() =~= twists_view(twists@));
    }
    Generator(twists)
}

/// Reads the twists on line `at` of `lines`, the line of `field`.
fn read_twists(input: &str, chars: &[char], lines: &Vec<Span>, at: usize, field: Field) -> (twists:
    Result<Generator, ParseError>)
    requires
        chars@ == input@,
        forall|i: int| 0 <= i < lines@.len() ==> (#[trigger] lines@[i]).within(chars@.len()),
    ensures
        match twists {
            Ok(g) => twists_on(texts_of(lines@, chars@), at as int, field) == Ok::<
                Seq<Seq<char>>,
                ParseError,
            >(g@),
            Err(e) => twists_on(texts_of(lines@, chars@), at as int, field) == Err::<
                Seq<Seq<char>>,
                ParseError,
            >(e),
        },
{
    if at >= lines.len() {
        return Err(ParseError::UnexpectedEof(field));
    }
    let line = &lines[at];
    match after_key(chars, line, field) {
        None => Err(ParseError::MissingKey(field)),
        Some(rest) => Ok(split_twists(input, chars, rest, line.end)),
    }
}

/// Checks that line `at` of `lines` is the bare line that opens the pool.
fn read_pool_header(chars: &[char], lines: &Vec<Span>, at: usize) -> (fault: Option<ParseError>)
    requires
        forall|i: int| 0 <= i < lines@.len() ==> (#[trigger] lines@[i]).within(chars@.len()),
    ensures
        fault == pool_header_on(texts_of(lines@, chars@), at as int),
{
    if at >= lines.len() {
        return Some(ParseError::UnexpectedEof(Field::Generators));
    }
    let line = &lines[at];
    let key = to_chars(Field::Generators.key_text());
    let ghost text = line.of(chars@);
    if line.end - line.start == key.len() && starts_with(
        chars,
        line.start,
        line.end,
        key.as_slice(),
    ) {
        assert(text =~= text.subrange(0, key@.len() as int));
        None
    } else {
        proof {
            if text == key@ {
                assert(key@ =~= text.subrange(0, key@.len() as int));
            }
        }
        Some(ParseError::InvalidGeneratorsHeader)
    }
}

/// Reads the generators on the lines of `lines` from `at` on.
fn read_pool(input: &str, chars: &[char], lines: &Vec<Span>, at: usize) -> (pool: Vec<Generator>)
    requires
        chars@ == input@,
        at <= lines@.len(),
        forall|i: int| 0 <= i < lines@.len() ==> (#[trigger] lines@[i]).within(chars@.len()),
    ensures
        generators_view(pool@) == pool_from(texts_of(lines@, chars@), at as int),
{
    let mut pool: Vec<Generator> = Vec::new();
    let mut i: usize = at;
    while i < lines.len()
        invariant
            chars@ == input@,
            at <= i <= lines@.len(),
            forall|i: int| 0 <= i < lines@.len() ==> (#[trigger] lines@[i]).within(chars@.len()),
            pool@.len() == i - at,
            forall|j: int|
                0 <= j < pool@.len() ==> (#[trigger] pool@[j])@ == tokens(
                    lines@[at + j].of(chars@),
                ),
        decreases lines@.len() - i,
    {
        let line = &lines[i];
        pool.push(split_twists(input, chars, line.start, line.end));
        i += 1;
    }
    assert(generators_view(pool@) =~= pool_from(texts_of(lines@, chars@), at as int));
    pool
}

impl Definition {
    /// Reads a definition from its text.
    ///
    /// The result is exactly what the grammar gives for the text: the
    /// definition written in it, which is then well formed, or the first
    /// fault met on the way through the lines.
    pub fn parse(input: &str) -> (parsed: Result<Definition, ParseError>)
        ensures
            match parsed {
                Ok(def) => parse_text(input@) == Ok::<DefinitionView, ParseError>(def@)
                    && def@.well_formed(),
                Err(e) => parse_text(input@) == Err::<DefinitionView, ParseError>(e),
            },
    {
        proof {
            lemma_parsed_well_formed(input@);
        }
        let chars = to_chars(input);
        let text = chars.as_slice();
        let lines = meaningful_spans(text);
        let n = read_number(text, &lines, 0, Field::N, u8::MAX as u32)?;
        let d = read_number(text, &lines, 1, Field::D, u8::MAX as u32)?;
        let depth = read_number(text, &lines, 2, Field::Depth, u32::MAX)?;
        let prefix = read_twists(input, text, &lines, 3, Field::Prefix)?;
        let postfix = read_twists(input, text, &lines, 4, Field::Postfix)?;
        if let Some(fault) = read_pool_header(text, &lines, 5) {
            return Err(fault);
        }
        let generators = read_pool(input, text, &lines, 6);
        Ok(Definition { n: n as u8, d: d as u8, depth, prefix, postfix, generators })
    }
}

/// Lines that hold something and do not start with white space give, if
/// they give a definition at all, one that is well formed.
pub proof fn lemma_parsed_lines_well_formed(lines: Seq<Seq<char>>)
    requires
        forall|i: int|
            0 <= i < lines.len() ==> (#[trigger] lines[i]).len() > 0 && !is_space(lines[i][0]),
    ensures
        parse_lines(lines) matches Ok(def) ==> def.well_formed(),
{
    if let Ok(def) = parse_lines(lines) {
        lemma_tokens_are_words(strip_key(lines[3], Field::Prefix.key())->0);
        lemma_tokens_are_words(strip_key(lines[4], Field::Postfix.key())->0);
        assert forall|i: int| 0 <= i < def.generators.len() implies (
        #[trigger] def.generators[i]).len() > 0 && all_twists(def.generators[i]) by {
            lemma_tokens_are_words(lines[6 + i]);
            lemma_tokens_of_text(lines[6 + i]);
        }
    }
}

/// Every definition that a text gives is well formed: its twists are single
/// words, and no generator of its pool is empty.
pub proof fn lemma_parsed_well_formed(text: Seq<char>)
    ensures
        parse_text(text) matches Ok(def) ==> def.well_formed(),
{
    lemma_meaningful_lines_start(text);
    lemma_parsed_lines_well_formed(meaningful_lines(text));
}

/// A comment added at the end of any line of a text changes nothing in what
/// the text gives, be it a definition or a fault. The end of a line is the
/// place of a line feed, or the end of the text.
pub proof fn lemma_trailing_comment_ignored(text: Seq<char>, at: int, comment: Seq<char>)
    requires
        0 <= at <= text.len(),
        at < text.len() ==> text[at] == '\n',
        forall|i: int| 0 <= i < comment.len() ==> #[trigger] comment[i] != '\n',
    ensures
        parse_text(text.take(at) + " //"@ + comment + text.skip(at)) == parse_text(text),
{
    lemma_lines_ignore_trailing_comment(text, at, comment);
}

/// Lines that are well formed give exactly what is written on them: if the
/// first three lines hold a number each behind their keys, the next two hold
/// their keys, and the sixth is the bare line that opens the pool, then the
/// definition has those numbers, the tokens behind the two keys as prefix
/// and postfix, and the tokens of each further line as a generator.
pub proof fn lemma_fields_read_as_written(
    lines: Seq<Seq<char>>,
    n: nat,
    d: nat,
    depth: nat,
    prefix: Seq<char>,
    postfix: Seq<char>,
)
    requires
        lines.len() >= 6,
        number_on(lines, 0, Field::N, u8::MAX as nat) == Ok::<nat, ParseError>(n),
        number_on(lines, 1, Field::D, u8::MAX as nat) == Ok::<nat, ParseError>(d),
        number_on(lines, 2, Field::Depth, u32::MAX as nat) == Ok::<nat, ParseError>(depth),
        strip_key(lines[3], Field::Prefix.key()) == Some(prefix),
        strip_key(lines[4], Field::Postfix.key()) == Some(postfix),
        lines[5] == Field::Generators.key(),
    ensures
        parse_lines(lines) == Ok::<DefinitionView, ParseError>(
            DefinitionView {
                n,
                d,
                depth,
                prefix: tokens(prefix),
                postfix: tokens(postfix),
                generators: Seq::new((lines.len() - 6) as nat, |i: int| tokens(lines[6 + i])),
            },
        ),
{
    assert(pool_from(lines, 6) =~= Seq::new(
        (lines.len() - 6) as nat,
        |i: int| tokens(lines[6 + i]),
    ));
}

/// No twist of a definition that a text gives holds `//`: what follows
/// those two characters on a line is a comment.
pub proof fn lemma_parsed_comment_free(text: Seq<char>)
    ensures
        parse_text(text) matches Ok(def) ==> {
            &&& all_comment_free(def.prefix)
            &&& all_comment_free(def.postfix)
            &&& forall|i: int|
                0 <= i < def.generators.len() ==> all_comment_free(#[trigger] def.generators[i])
        },
{
    let lines = meaningful_lines(text);
    lemma_meaningful_lines_comment_free(text);
    if let Ok(def) = parse_lines(lines) {
        let prefix = strip_key(lines[3], Field::Prefix.key())->0;
        let postfix = strip_key(lines[4], Field::Postfix.key())->0;
        assert(comment_free(lines[3]));
        assert(comment_free(lines[4]));
        lemma_comment_free_subrange(
            lines[3],
            Field::Prefix.key().len() as int,
            lines[3].len() as int,
        );
        lemma_comment_free_subrange(
            lines[4],
            Field::Postfix.key().len() as int,
            lines[4].len() as int,
        );
        lemma_tokens_comment_free(prefix);
        lemma_tokens_comment_free(postfix);
        assert forall|i: int| 0 <= i < def.generators.len() implies all_comment_free(
            #[trigger] def.generators[i],
        ) by {
            assert(comment_free(lines[6 + i]));
            lemma_tokens_comment_free(lines[6 + i]);
        }
    }
}

} // verus!
