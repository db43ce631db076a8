//! Laying words out in lines of limited width.
//!
//! Words are set one after another, a single space between two on the same
//! line. A word goes on the current line if the line, the space and the word
//! together stay within `WRAP_WIDTH`; otherwise it opens a new line. A word
//! is never cut, so a word wider than the limit gets a line to itself.
//!
//! Width is counted as `str::len` counts it, in bytes of UTF-8: a character
//! of ASCII is one column wide, any other character two to four. A line is
//! therefore never longer in characters than it is wide.
use crate::definition::{twists_view, Twist};
use crate::text::{
    cut_lines, is_space, is_word, lemma_line_len, lemma_tokens_concat, lemma_word_len, tokens,
};
use vstd::prelude::*;
use vstd::utf8::{char_is_scalar, encode_scalar, encode_utf8};

verus! {

/// The width that a line of more than one word never exceeds.
pub const WRAP_WIDTH: usize = 70;

/// The texts `parts` in one text, a single `sep` between each two.
pub open spec fn join(parts: Seq<Seq<char>>, sep: char) -> Seq<char>
    decreases parts.len(),
{
    if parts.len() == 0 {
        Seq::empty()
    } else if parts.len() == 1 {
        parts[0]
    } else {
        join(parts.drop_last(), sep) + seq![sep] + parts.last()
    }
}

/// The width of `text`: the number of bytes that it takes in UTF-8.
pub open spec fn width(text: Seq<char>) -> nat {
    encode_utf8(text).len()
}

/// Whether `word` still goes on a line that holds `line`.
pub open spec fn fits(line: Seq<Seq<char>>, word: Seq<char>) -> bool {
    width(join(line, ' ')) + 1 + width(word) <= WRAP_WIDTH
}

/// The words `words` in lines: every word goes on the last line so far if it
/// fits there, and opens a new line if it does not.
pub open spec fn break_lines(words: Seq<Seq<char>>) -> Seq<Seq<Seq<char>>>
    decreases words.len(),
{
    if words.len() == 0 {
        Seq::empty()
    } else {
        let before = break_lines(words.drop_last());
        let word = words.last();
        if before.len() > 0 && fits(before.last(), word) {
            before.drop_last().push(before.last().push(word))
        } else {
            before.push(seq![word])
        }
    }
}

/// The text of each line of `lines`: its words with single spaces between
/// them.
pub open spec fn line_texts(lines: Seq<Seq<Seq<char>>>) -> Seq<Seq<char>> {
    Seq::new(lines.len(), |i: int| join(lines[i], ' '))
}

/// The words `words` as one text, wrapped: the lines of `break_lines` with a
/// line feed between each two.
pub open spec fn wrap_text(words: Seq<Seq<char>>) -> Seq<char> {
    join(line_texts(break_lines(words)), '\n')
}

/// The texts of `strings`, in order.
pub open spec fn strings_view(strings: Seq<String>) -> Seq<Seq<char>> {
    Seq::new(strings.len(), |i: int| strings[i]@)
}

/// The lines of the words `words`, each as its text.
///
/// They are the lines of `break_lines`, so none is wider than `WRAP_WIDTH`
/// unless it is a single word that is wider than that by itself.
pub fn wrap_lines(words: &[Twist]) -> (lines: Vec<String>)
    ensures
        strings_view(lines@) == line_texts(break_lines(twists_view(words@))),
        forall|i: int|
            0 <= i < break_lines(twists_view(words@)).len() ==> within_width(
                #[trigger] break_lines(twists_view(words@))[i],
            ),
{
    let ghost all = twists_view(words@);
    proof {
        lemma_wrap_width(all);
    }
    let mut lines: Vec<String> = Vec::new();
    let mut current = String::new();
    let mut column: usize = 0;
    let mut i: usize = 0;
    while i < words.len()
        invariant
            i <= words@.len(),
            all == twists_view(words@),
            i == 0 ==> lines@.len() == 0 && current@.len() == 0,
            i > 0 ==> {
                let broken = break_lines(all.take(i as int));
                &&& broken.len() > 0
                &&& strings_view(lines@) == line_texts(broken.drop_last())
                &&& current@ == join(broken.last(), ' ')
                &&& column == width(current@)
            },
        decreases words@.len() - i,
    {
        let word = words[i].0.as_str();
        let word_width = word.as_bytes().len();
        let ghost before = break_lines(all.take(i as int));
        let ghost after = break_lines(all.take(i as int + 1));
        proof {
            assert(all.take(i as int + 1).drop_last() =~= all.take(i as int));
            assert(all.take(i as int + 1).last() == word@);
            if i == 0 {
                assert(before.len() == 0);
            }
        }
        if i == 0 {
            current.append(word);
            column = word_width;
            proof {
                assert(after =~= seq![seq![word@]]);
                assert(current@ =~= word@);
                assert(strings_view(lines@) =~= line_texts(after.drop_last()));
            }
        } else if word_width < WRAP_WIDTH && column <= WRAP_WIDTH - 1 - word_width {
            proof {
                reveal_strlit(" ");
                lemma_join_push(before.last(), word@, ' ');
                lemma_line_width_push(before.last(), word@);
                assert(fits(before.last(), word@));
                assert(after.drop_last() =~= before.drop_last());
                assert(" "@ =~= seq![' ']);
            }
            current.append(" ");
            current.append(word);
            column = column + 1 + word_width;
        } else {
            proof {
                assert(!fits(before.last(), word@));
                assert(after.drop_last() =~= before);
            }
            let ghost done = strings_view(lines@);
            lines.push(current);
            current = word.to_owned();
            column = word_width;
            proof {
                assert(strings_view(lines@) =~= done.push(join(before.last(), ' ')));
                assert(line_texts(before) =~= line_texts(before.drop_last()).push(
                    join(before.last(), ' '),
                ));
            }
        }
        i += 1;
    }
    proof {
        assert(all.take(i as int) =~= all);
    }
    if i > 0 {
        let ghost broken = break_lines(all);
        let ghost done = strings_view(lines@);
        lines.push(current);
        proof {
            assert(strings_view(lines@) =~= done.push(join(broken.last(), ' ')));
            assert(line_texts(broken) =~= line_texts(broken.drop_last()).push(
                join(broken.last(), ' '),
            ));
        }
    } else {
        proof {
            assert(strings_view(lines@) =~= line_texts(break_lines(all)));
        }
    }
    lines
}

/// The words `words` as one text, wrapped.
pub fn wrap_words(words: &[Twist]) -> (text: String)
    ensures
        text@ == wrap_text(twists_view(words@)),
{
    let lines = wrap_lines(words);
    let ghost texts = strings_view(lines@);
    let mut text = String::new();
    let mut i: usize = 0;
    while i < lines.len()
        invariant
            i <= lines@.len(),
            texts == strings_view(lines@),
            text@ == join(texts.take(i as int), '\n'),
        decreases lines@.len() - i,
    {
        proof {
            reveal_strlit("\n");
            assert("\n"@ =~= seq!['\n']);
            lemma_join_push(texts.take(i as int), texts[i as int], '\n');
            assert(texts.take(i as int + 1) =~= texts.take(i as int).push(texts[i as int]));
        }
        if i > 0 {
            text.append("\n");
        }
        text.append(lines[i].as_str());
        i += 1;
    }
    proof {
        assert(texts.take(i as int) =~= texts);
    }
    text
}

/// What one more part adds to a joined text.
pub proof fn lemma_join_push(parts: Seq<Seq<char>>, part: Seq<char>, sep: char)
    ensures
        join(parts.push(part), sep) == if parts.len() == 0 {
            part
        } else {
            join(parts, sep) + seq![sep] + part
        },
{
    assert(parts.push(part).drop_last() =~= parts);
}

/// Whether `line` is a line that wrapping may leave: it holds a word, and if
/// it is wider than `WRAP_WIDTH` it holds that one word and nothing else.
pub open spec fn within_width(line: Seq<Seq<char>>) -> bool {
    line.len() > 0 && (width(join(line, ' ')) <= WRAP_WIDTH || (line.len() == 1 && width(line[0])
        > WRAP_WIDTH))
}

/// The width of two texts set side by side is the sum of their widths.
pub proof fn lemma_width_concat(a: Seq<char>, b: Seq<char>)
    ensures
        width(a + b) == width(a) + width(b),
    decreases a.len(),
{
    if a.len() == 0 {
        assert(a + b =~= b);
    } else {
        assert((a + b).drop_first() =~= a.drop_first() + b);
        lemma_width_concat(a.drop_first(), b);
    }
}

/// A space is one column wide.
pub proof fn lemma_width_space()
    ensures
        width(seq![' ']) == 1,
{
    assert(seq![' '].drop_first() =~= Seq::<char>::empty());
    assert(encode_utf8(seq![' ']) =~= encode_scalar(' ' as u32) + encode_utf8(Seq::empty()));
}

/// A text is never longer in characters than it is wide.
pub proof fn lemma_width_covers_chars(text: Seq<char>)
    ensures
        text.len() <= width(text),
    decreases text.len(),
{
    if text.len() > 0 {
        char_is_scalar(text[0]);
        lemma_width_covers_chars(text.drop_first());
    }
}

/// What one more word adds to the width of a line.
pub proof fn lemma_line_width_push(line: Seq<Seq<char>>, word: Seq<char>)
    ensures
        width(join(line.push(word), ' ')) == if line.len() == 0 {
            width(word)
        } else {
            width(join(line, ' ')) + 1 + width(word)
        },
{
    lemma_join_push(line, word, ' ');
    if line.len() > 0 {
        lemma_width_space();
        lemma_width_concat(join(line, ' '), seq![' ']);
        lemma_width_concat(join(line, ' ') + seq![' '], word);
    }
}

/// No line is wider than `WRAP_WIDTH`, unless it is a single word that is
/// wider than that by itself.
pub proof fn lemma_wrap_width(words: Seq<Seq<char>>)
    ensures
        forall|i: int|
            0 <= i < break_lines(words).len() ==> within_width(#[trigger] break_lines(words)[i]),
    decreases words.len(),
{
    if words.len() > 0 {
        let before = break_lines(words.drop_last());
        let word = words.last();
        let after = break_lines(words);
        lemma_wrap_width(words.drop_last());
        assert forall|i: int| 0 <= i < after.len() implies within_width(#[trigger] after[i]) by {
            if before.len() > 0 && fits(before.last(), word) {
                if i == after.len() - 1 {
                    assert(within_width(before.last()));
                    lemma_line_width_push(before.last(), word);
                } else {
                    assert(after[i] == before[i]);
                    assert(within_width(before[i]));
                }
            } else {
                if i == after.len() - 1 {
                    assert(after[i] == seq![word]);
                } else {
                    assert(after[i] == before[i]);
                    assert(within_width(before[i]));
                }
            }
        }
    }
}

/// Wrapping loses no word, adds none and keeps their order: the lines, one
/// after another, are the words.
pub proof fn lemma_wrap_keeps_words(words: Seq<Seq<char>>)
    ensures
        break_lines(words).flatten() == words,
    decreases words.len(),
{
    broadcast use Seq::lemma_flatten_push;

    if words.len() > 0 {
        let before = break_lines(words.drop_last());
        let word = words.last();
        lemma_wrap_keeps_words(words.drop_last());
        if before.len() > 0 && fits(before.last(), word) {
            assert(before =~= before.drop_last().push(before.last()));
            assert(before.drop_last().push(before.last()).flatten() =~= before.drop_last().flatten()
                + before.last());
            assert(break_lines(words).flatten() =~= before.drop_last().flatten()
                + before.last().push(word));
        }
        assert(words =~= words.drop_last().push(word));
        assert(break_lines(words).flatten() =~= words);
    }
}

/// No line is broken early: the word that opens a line did not fit on the
/// line before it.
pub proof fn lemma_wrap_fills_lines(words: Seq<Seq<char>>)
    ensures
        forall|i: int|
            0 < i < break_lines(words).len() ==> (#[trigger] break_lines(words)[i]).len() > 0
                && !fits(break_lines(words)[i - 1], break_lines(words)[i][0]),
    decreases words.len(),
{
    if words.len() > 0 {
        let before = break_lines(words.drop_last());
        let word = words.last();
        let after = break_lines(words);
        lemma_wrap_fills_lines(words.drop_last());
        lemma_wrap_width(words.drop_last());
        assert forall|i: int| 0 < i < after.len() implies (#[trigger] after[i]).len() > 0 && !fits(
            after[i - 1],
            after[i][0],
        ) by {
            if before.len() > 0 && fits(before.last(), word) {
                assert(after[i - 1] == before[i - 1]);
                if i == after.len() - 1 {
                    assert(within_width(before[i]));
                    assert(after[i][0] == before[i][0]);
                } else {
                    assert(after[i] == before[i]);
                }
            } else {
                if i == after.len() - 1 {
                    assert(after[i] == seq![word]);
                    assert(after[i - 1] == before.last());
                } else {
                    assert(after[i] == before[i]);
                    assert(after[i - 1] == before[i - 1]);
                }
            }
        }
    }
}

/// A line of words that hold no line feed holds none itself.
pub proof fn lemma_line_without_feed(line: Seq<Seq<char>>)
    requires
        forall|i: int, j: int|
            0 <= i < line.len() && 0 <= j < line[i].len() ==> (#[trigger] line[i][j]) != '\n',
    ensures
        forall|j: int| 0 <= j < join(line, ' ').len() ==> (#[trigger] join(line, ' ')[j]) != '\n',
    decreases line.len(),
{
    if line.len() > 1 {
        let front = line.drop_last();
        assert forall|i: int, j: int| 0 <= i < front.len() && 0 <= j < front[i].len() implies (
        #[trigger] front[i][j]) != '\n' by {
            assert(front[i][j] == line[i][j]);
        }
        lemma_line_without_feed(front);
        let head = join(front, ' ');
        assert forall|j: int| 0 <= j < join(line, ' ').len() implies (#[trigger] join(line, ' ')[j])
            != '\n' by {
            if j < head.len() {
                assert(join(line, ' ')[j] == head[j]);
            } else if j > head.len() {
                assert(join(line, ' ')[j] == line.last()[j - head.len() - 1]);
                assert(line[line.len() - 1][j - head.len() - 1] != '\n');
            }
        }
    } else if line.len() == 1 {
        assert forall|j: int| 0 <= j < join(line, ' ').len() implies (#[trigger] join(line, ' ')[j])
            != '\n' by {
            assert(line[0][j] != '\n');
        }
    }
}

/// A joined text, from its first part on.
pub proof fn lemma_join_first(parts: Seq<Seq<char>>, sep: char)
    requires
        parts.len() > 1,
    ensures
        join(parts, sep) == parts[0] + seq![sep] + join(parts.drop_first(), sep),
    decreases parts.len(),
{
    let front = parts.drop_last();
    let tail = parts.drop_first();
    if parts.len() == 2 {
        assert(join(front, sep) == parts[0]);
        assert(join(tail, sep) == parts[1]);
    } else {
        lemma_join_first(front, sep);
        assert(tail.drop_last() =~= front.drop_first());
        assert(join(parts, sep) =~= parts[0] + seq![sep] + join(tail, sep));
    }
}

/// Lines that hold something and no line feed are the lines of the text that
/// joins them with line feeds.
pub proof fn lemma_cut_joined_lines(lines: Seq<Seq<char>>)
    requires
        forall|i: int| 0 <= i < lines.len() ==> (#[trigger] lines[i]).len() > 0,
        forall|i: int, j: int|
            0 <= i < lines.len() && 0 <= j < lines[i].len() ==> (#[trigger] lines[i][j]) != '\n',
    ensures
        cut_lines(join(lines, '\n')) == lines,
    decreases lines.len(),
{
    let text = join(lines, '\n');
    if lines.len() == 1 {
        assert(lines[0].len() > 0);
        assert forall|j: int| 0 <= j < text.len() implies #[trigger] text[j] != '\n' by {
            assert(lines[0][j] != '\n');
        }
        lemma_line_len(text, text.len() as int);
        assert(cut_lines(text) =~= lines);
    } else if lines.len() > 1 {
        let first = lines[0];
        let rest = lines.drop_first();
        lemma_join_first(lines, '\n');
        assert forall|j: int| 0 <= j < first.len() implies #[trigger] text[j] != '\n' by {
            assert(lines[0][j] != '\n');
        }
        lemma_line_len(text, first.len() as int);
        assert(text.take(first.len() as int) =~= first);
        assert(text.skip(first.len() as int + 1) =~= join(rest, '\n'));
        assert forall|i: int| 0 <= i < rest.len() implies (#[trigger] rest[i]).len() > 0 by {
            assert(rest[i] == lines[i + 1]);
        }
        assert forall|i: int, j: int| 0 <= i < rest.len() && 0 <= j < rest[i].len() implies (
        #[trigger] rest[i][j]) != '\n' by {
            assert(rest[i][j] == lines[i + 1][j]);
        }
        lemma_cut_joined_lines(rest);
        assert(cut_lines(text) =~= lines);
    }
}

/// Every word on every line is one of the words that were wrapped.
pub proof fn lemma_wrap_takes_words(words: Seq<Seq<char>>)
    ensures
        forall|i: int, j: int|
            0 <= i < break_lines(words).len() && 0 <= j < break_lines(words)[i].len()
                ==> words.contains(#[trigger] break_lines(words)[i][j]),
    decreases words.len(),
{
    if words.len() > 0 {
        let before = break_lines(words.drop_last());
        let word = words.last();
        let after = break_lines(words);
        lemma_wrap_takes_words(words.drop_last());
        assert forall|i: int, j: int|
            0 <= i < after.len() && 0 <= j < after[i].len() implies words.contains(
            #[trigger] after[i][j],
        ) by {
            if after[i][j] == word {
                assert(words[words.len() - 1] == word);
            } else {
                if before.len() > 0 && fits(before.last(), word) {
                    if i == after.len() - 1 {
                        assert(after[i][j] == before[i][j]);
                    } else {
                        assert(after[i] == before[i]);
                    }
                } else {
                    assert(after[i] == before[i]);
                }
                assert(words.drop_last().contains(before[i][j]));
                let k = choose|k: int|
                    0 <= k < words.drop_last().len() && words.drop_last()[k] == before[i][j];
                assert(words[k] == before[i][j]);
            }
        }
    }
}

/// A line of words holds something.
pub proof fn lemma_line_of_words(line: Seq<Seq<char>>)
    requires
        line.len() > 0,
        forall|i: int| 0 <= i < line.len() ==> is_word(#[trigger] line[i]),
    ensures
        join(line, ' ').len() > 0,
{
    assert(is_word(line[line.len() - 1]));
    if line.len() == 1 {
        assert(is_word(line[0]));
    }
}

/// No line is longer than `WRAP_WIDTH` characters, unless it is a single
/// word that is longer than that by itself.
pub proof fn lemma_wrap_length(words: Seq<Seq<char>>)
    ensures
        forall|i: int|
            0 <= i < break_lines(words).len() ==> {
                let line = #[trigger] break_lines(words)[i];
                line.len() > 0 && (join(line, ' ').len() <= WRAP_WIDTH || (line.len() == 1
                    && line[0].len() > WRAP_WIDTH))
            },
{
    lemma_wrap_width(words);
    assert forall|i: int| 0 <= i < break_lines(words).len() implies {
        let line = #[trigger] break_lines(words)[i];
        line.len() > 0 && (join(line, ' ').len() <= WRAP_WIDTH || (line.len() == 1 && line[0].len()
            > WRAP_WIDTH))
    } by {
        let line = break_lines(words)[i];
        assert(within_width(line));
        lemma_width_covers_chars(join(line, ' '));
    }
}

/// The lines of a wrapped text are the lines that wrapping made, as long as
/// what was wrapped are words. None of them is longer than `WRAP_WIDTH`
/// characters, but for one that is a single word longer than that.
pub proof fn lemma_wrapped_text_lines(words: Seq<Seq<char>>)
    requires
        forall|i: int| 0 <= i < words.len() ==> is_word(#[trigger] words[i]),
    ensures
        cut_lines(wrap_text(words)) == line_texts(break_lines(words)),
        forall|i: int|
            0 <= i < cut_lines(wrap_text(words)).len() ==> {
                let line = #[trigger] cut_lines(wrap_text(words))[i];
                line.len() <= WRAP_WIDTH || (words.contains(line) && line.len() > WRAP_WIDTH)
            },
{
    let broken = break_lines(words);
    let texts = line_texts(broken);
    lemma_wrap_length(words);
    lemma_wrap_takes_words(words);
    assert forall|i: int| 0 <= i < texts.len() implies (#[trigger] texts[i]).len() > 0 && (
    forall|j: int| 0 <= j < texts[i].len() ==> texts[i][j] != '\n') by {
        let line = broken[i];
        assert(line.len() > 0);
        assert forall|k: int| 0 <= k < line.len() implies is_word(#[trigger] line[k]) by {
            assert(words.contains(broken[i][k]));
        }
        lemma_line_of_words(line);
        assert forall|k: int, j: int| 0 <= k < line.len() && 0 <= j < line[k].len() implies (
        #[trigger] line[k][j]) != '\n' by {
            assert(is_word(line[k]));
            assert(!is_space(line[k][j]));
        }
        lemma_line_without_feed(line);
    }
    lemma_cut_joined_lines(texts);
    assert forall|i: int| 0 <= i < texts.len() implies {
        let line = #[trigger] texts[i];
        line.len() <= WRAP_WIDTH || (words.contains(line) && line.len() > WRAP_WIDTH)
    } by {
        let line = broken[i];
        assert(line.len() > 0);
        if texts[i].len() > WRAP_WIDTH {
            assert(words.contains(broken[i][0]));
        }
    }
}

/// The tokens of words joined by a white-space character are the words.
pub proof fn lemma_tokens_of_joined(words: Seq<Seq<char>>, sep: char)
    requires
        is_space(sep),
        forall|i: int| 0 <= i < words.len() ==> is_word(#[trigger] words[i]),
    ensures
        tokens(join(words, sep)) == words,
    decreases words.len(),
{
    if words.len() == 0 {
        assert(tokens(join(words, sep)) =~= words);
    } else {
        let last = words.last();
        assert(is_word(words[words.len() - 1]));
        lemma_word_len(last, last.len() as int);
        assert(tokens(last) =~= seq![last]);
        if words.len() > 1 {
            let front = words.drop_last();
            assert forall|i: int| 0 <= i < front.len() implies is_word(#[trigger] front[i]) by {
                assert(front[i] == words[i]);
            }
            lemma_tokens_of_joined(front, sep);
            lemma_tokens_concat(join(front, sep), sep, last);
            assert(front + seq![last] =~= words);
        } else {
            assert(seq![last] =~= words);
        }
    }
}

/// The tokens of the lines `lines`, joined by line feeds, are the words of
/// the lines, one line after another.
pub proof fn lemma_tokens_of_lines(lines: Seq<Seq<Seq<char>>>)
    requires
        forall|i: int, j: int|
            0 <= i < lines.len() && 0 <= j < lines[i].len() ==> is_word(#[trigger] lines[i][j]),
    ensures
        tokens(join(line_texts(lines), '\n')) == lines.flatten(),
    decreases lines.len(),
{
    broadcast use Seq::lemma_flatten_push;

    let texts = line_texts(lines);
    if lines.len() == 0 {
        assert(tokens(join(texts, '\n')) =~= lines.flatten());
    } else {
        let last = lines.last();
        assert forall|j: int| 0 <= j < last.len() implies is_word(#[trigger] last[j]) by {
            assert(is_word(lines[lines.len() - 1][j]));
        }
        lemma_tokens_of_joined(last, ' ');
        let front = lines.drop_last();
        assert(lines =~= front.push(last));
        assert(front.push(last).flatten() =~= front.flatten() + last);
        if lines.len() > 1 {
            assert forall|i: int, j: int|
                0 <= i < front.len() && 0 <= j < front[i].len() implies is_word(
                #[trigger] front[i][j],
            ) by {
                assert(front[i][j] == lines[i][j]);
            }
            lemma_tokens_of_lines(front);
            assert(texts.drop_last() =~= line_texts(front));
            assert(texts.last() == join(last, ' '));
            lemma_tokens_concat(join(line_texts(front), '\n'), '\n', join(last, ' '));
        } else {
            assert(front.flatten() =~= Seq::<Seq<char>>::empty());
            assert(texts[0] == join(last, ' '));
            assert(front.flatten() + last =~= last);
        }
    }
}

/// The tokens of a wrapped text are the words that were wrapped, in their
/// order: wrapping only chooses the white space between them.
pub proof fn lemma_tokens_of_wrapped(words: Seq<Seq<char>>)
    requires
        forall|i: int| 0 <= i < words.len() ==> is_word(#[trigger] words[i]),
    ensures
        tokens(wrap_text(words)) == words,
{
    let lines = break_lines(words);
    lemma_wrap_takes_words(words);
    assert forall|i: int, j: int|
        0 <= i < lines.len() && 0 <= j < lines[i].len() implies is_word(#[trigger] lines[i][j]) by {
        assert(words.contains(lines[i][j]));
    }
    lemma_tokens_of_lines(lines);
    lemma_wrap_keeps_words(words);
}

} // verus!
