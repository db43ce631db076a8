//! Writing a definition out as text, and the law that the grammar reads
//! every such text back to the definition it was written from.
use crate::definition::{all_twists, DefinitionView, Field, ParseError};
use crate::grammar::{
    lemma_parsed_comment_free, lemma_parsed_well_formed, number_on, parse_text, pool_from,
    pool_header_on, twists_on,
};
use crate::number::{decimal, is_digit, lemma_decimal_reads_back};
use crate::text::{
    all_comment_free, clean_line, comment_at, comment_free, is_space, is_word,
    lemma_comment_start, lemma_leading_spaces, lemma_line_len, meaningful_lines, tokens,
    trim_start,
};
use crate::wrap::{join, lemma_tokens_of_joined};
use vstd::prelude::*;

verus! {

/// The words `words` as they follow a key: a space before each.
pub open spec fn spaced(words: Seq<Seq<char>>) -> Seq<char> {
    if words.len() == 0 {
        Seq::empty()
    } else {
        seq![' '] + join(words, ' ')
    }
}

/// The lines of the text that writes `def` out: the six lines of the head,
/// each value behind its key, and one line for each generator of the pool.
pub open spec fn written_lines(def: DefinitionView) -> Seq<Seq<char>> {
    seq![
        Field::N.key() + seq![' '] + decimal(def.n),
        Field::D.key() + seq![' '] + decimal(def.d),
        Field::Depth.key() + seq![' '] + decimal(def.depth),
        Field::Prefix.key() + spaced(def.prefix),
        Field::Postfix.key() + spaced(def.postfix),
        Field::Generators.key(),
    ] + Seq::new(def.generators.len(), |i: int| join(def.generators[i], ' '))
}

/// The lines `lines` in one text, each closed by a line feed.
pub open spec fn closed_lines(lines: Seq<Seq<char>>) -> Seq<char>
    decreases lines.len(),
{
    if lines.len() == 0 {
        Seq::empty()
    } else {
        lines[0] + seq!['\n'] + closed_lines(lines.drop_first())
    }
}

/// The text that writes `def` out.
pub open spec fn written(def: DefinitionView) -> Seq<char> {
    closed_lines(written_lines(def))
}

/// Whether cleaning leaves `line` as it is and keeps it: it holds something,
/// no white space at either end, no comment and no line feed.
pub open spec fn is_clean(line: Seq<char>) -> bool {
    &&& line.len() > 0
    &&& !is_space(line[0])
    &&& !is_space(line.last())
    &&& comment_free(line)
    &&& forall|i: int| 0 <= i < line.len() ==> #[trigger] line[i] != '\n'
}

/// Cleaning leaves a clean line as it is.
pub proof fn lemma_clean_line_of_clean(line: Seq<char>)
    requires
        is_clean(line),
    ensures
        clean_line(line) == line,
{
    lemma_comment_start(line, line.len() as int);
    assert(line.take(line.len() as int) =~= line);
    lemma_leading_spaces(line, 0);
    assert(line.skip(0) =~= line);
}

/// The meaningful lines of a text made of clean lines are those lines.
pub proof fn lemma_lines_of_closed_lines(lines: Seq<Seq<char>>)
    requires
        forall|i: int| 0 <= i < lines.len() ==> is_clean(#[trigger] lines[i]),
    ensures
        meaningful_lines(closed_lines(lines)) == lines,
    decreases lines.len(),
{
    if lines.len() > 0 {
        let text = closed_lines(lines);
        let first = lines[0];
        let rest = lines.drop_first();
        assert(is_clean(first));
        assert forall|j: int| 0 <= j < first.len() implies #[trigger] text[j] != '\n' by {
            assert(text[j] == first[j]);
        }
        lemma_line_len(text, first.len() as int);
        assert(text.take(first.len() as int) =~= first);
        assert(text.skip(first.len() as int + 1) =~= closed_lines(rest));
        lemma_clean_line_of_clean(first);
        assert forall|i: int| 0 <= i < rest.len() implies is_clean(#[trigger] rest[i]) by {
            assert(rest[i] == lines[i + 1]);
        }
        lemma_lines_of_closed_lines(rest);
        assert(meaningful_lines(text) =~= lines);
    }
}

/// What is known of every key: it holds something, and neither white space
/// nor a slash.
pub proof fn lemma_key(field: Field)
    ensures
        field.key().len() > 0,
        forall|i: int|
            0 <= i < field.key().len() ==> !is_space(#[trigger] field.key()[i]) && field.key()[i]
                != '/',
{
    reveal_strlit("n:");
    reveal_strlit("d:");
    reveal_strlit("depth:");
    reveal_strlit("prefix:");
    reveal_strlit("postfix:");
    reveal_strlit("generators:");
}

/// No comment opens in two comment-free texts set side by side with
/// something other than a slash between them.
pub proof fn lemma_comment_free_concat(a: Seq<char>, sep: char, b: Seq<char>)
    requires
        comment_free(a),
        comment_free(b),
        sep != '/',
    ensures
        comment_free(a + seq![sep] + b),
{
    let whole = a + seq![sep] + b;
    assert forall|i: int| !comment_at(whole, i) by {
        if 0 <= i && i + 1 < a.len() {
            assert(!comment_at(a, i));
        } else if i > a.len() && i + 1 < whole.len() {
            assert(!comment_at(b, i - a.len() - 1));
            assert(whole[i] == b[i - a.len() - 1]);
            assert(whole[i + 1] == b[i - a.len()]);
        } else if 0 <= i && i + 1 < whole.len() {
            assert(whole[a.len() as int] == sep);
        }
    }
}

/// What is known of words joined by single spaces: the text holds something
/// if there is a word, starts as the first word and ends as the last, and no
/// comment opens in it if none opens in a word.
pub proof fn lemma_joined_words(words: Seq<Seq<char>>)
    requires
        words.len() > 0,
        forall|i: int| 0 <= i < words.len() ==> is_word(#[trigger] words[i]),
        all_comment_free(words),
    ensures
        join(words, ' ').len() > 0,
        join(words, ' ')[0] == words[0][0],
        join(words, ' ').last() == words.last().last(),
        comment_free(join(words, ' ')),
        forall|i: int| 0 <= i < join(words, ' ').len() ==> #[trigger] join(words, ' ')[i] != '\n',
    decreases words.len(),
{
    assert(is_word(words[0]));
    assert(is_word(words[words.len() - 1]));
    assert(comment_free(words[words.len() - 1]));
    if words.len() == 1 {
        assert forall|i: int| 0 <= i < words[0].len() implies #[trigger] words[0][i] != '\n' by {
            assert(!is_space(words[0][i]));
        }
    } else {
        let front = words.drop_last();
        let last = words.last();
        assert forall|i: int| 0 <= i < front.len() implies is_word(#[trigger] front[i]) by {
            assert(front[i] == words[i]);
        }
        assert forall|i: int| 0 <= i < front.len() implies comment_free(#[trigger] front[i]) by {
            assert(front[i] == words[i]);
        }
        lemma_joined_words(front);
        lemma_comment_free_concat(join(front, ' '), ' ', last);
        let whole = join(words, ' ');
        assert(whole[0] == join(front, ' ')[0]);
        assert forall|i: int| 0 <= i < whole.len() implies #[trigger] whole[i] != '\n' by {
            if i < join(front, ' ').len() {
                assert(whole[i] == join(front, ' ')[i]);
            } else if i > join(front, ' ').len() {
                assert(whole[i] == last[i - join(front, ' ').len() - 1]);
                assert(!is_space(last[i - join(front, ' ').len() - 1]));
            }
        }
    }
}

/// The tokens of words that follow a key, a space before each, are the
/// words.
pub proof fn lemma_tokens_of_spaced(words: Seq<Seq<char>>)
    requires
        forall|i: int| 0 <= i < words.len() ==> is_word(#[trigger] words[i]),
    ensures
        tokens(spaced(words)) == words,
{
    lemma_tokens_of_joined(words, ' ');
    if words.len() == 0 {
        assert(tokens(spaced(words)) =~= words);
    } else {
        assert(spaced(words).drop_first() =~= join(words, ' '));
    }
}

/// What is known of a number written out: it is all digits, so no white
/// space, slash or line feed is in it.
pub proof fn lemma_decimal_plain(n: nat)
    ensures
        decimal(n).len() > 0,
        forall|i: int|
            0 <= i < decimal(n).len() ==> !is_space(#[trigger] decimal(n)[i]) && decimal(n)[i]
                != '/' && decimal(n)[i] != '\n',
{
    lemma_decimal_reads_back(n);
    assert forall|i: int| 0 <= i < decimal(n).len() implies !is_space(#[trigger] decimal(n)[i])
        && decimal(n)[i] != '/' && decimal(n)[i] != '\n' by {
        assert(is_digit(decimal(n)[i]));
    }
}

/// The line that writes a number behind its key is clean, and the grammar
/// reads the number back from it.
pub proof fn lemma_number_line(lines: Seq<Seq<char>>, at: int, field: Field, n: nat, max: nat)
    requires
        0 <= at < lines.len(),
        lines[at] == field.key() + seq![' '] + decimal(n),
        n <= max,
    ensures
        is_clean(lines[at]),
        number_on(lines, at, field, max) == Ok::<nat, ParseError>(n),
{
    let key = field.key();
    let line = lines[at];
    lemma_key(field);
    lemma_decimal_plain(n);
    lemma_decimal_reads_back(n);
    assert(!is_space(key[0]));
    assert(line[0] == key[0]);
    assert(line.last() == decimal(n).last());
    assert(!is_space(decimal(n)[decimal(n).len() - 1]));
    assert forall|i: int| !comment_at(line, i) by {
        if 0 <= i && i + 1 < line.len() {
            if i < key.len() {
                assert(line[i] == key[i]);
            } else if i == key.len() {
            } else {
                assert(line[i] == decimal(n)[i - key.len() - 1]);
            }
        }
    }
    assert forall|i: int| 0 <= i < line.len() implies #[trigger] line[i] != '\n' by {
        if i < key.len() {
            assert(line[i] == key[i]);
            assert(!is_space(key[i]));
        } else if i > key.len() {
            assert(line[i] == decimal(n)[i - key.len() - 1]);
        }
    }
    assert(key =~= line.subrange(0, key.len() as int));
    let rest = line.skip(key.len() as int);
    assert(rest =~= seq![' '] + decimal(n));
    assert(!is_space(decimal(n)[0]));
    lemma_leading_spaces(rest, 1);
    assert(trim_start(rest) =~= decimal(n));
}

/// The line that writes twists behind their key is clean, and the grammar
/// reads the twists back from it.
pub proof fn lemma_twists_line(lines: Seq<Seq<char>>, at: int, field: Field, twists: Seq<Seq<char>>)
    requires
        0 <= at < lines.len(),
        lines[at] == field.key() + spaced(twists),
        all_twists(twists),
        all_comment_free(twists),
    ensures
        is_clean(lines[at]),
        twists_on(lines, at, field) == Ok::<Seq<Seq<char>>, ParseError>(twists),
{
    let key = field.key();
    let line = lines[at];
    lemma_key(field);
    lemma_tokens_of_spaced(twists);
    assert(!is_space(key[0]));
    assert(line[0] == key[0]);
    assert(!is_space(key[key.len() - 1]));
    assert(key =~= line.subrange(0, key.len() as int));
    assert(line.skip(key.len() as int) =~= spaced(twists));
    assert(comment_free(key)) by {
        assert forall|i: int| !comment_at(key, i) by {
            if 0 <= i < key.len() {
                assert(key[i] != '/');
            }
        }
    }
    if twists.len() == 0 {
        assert(line =~= key);
        assert forall|i: int| 0 <= i < line.len() implies #[trigger] line[i] != '\n' by {
            assert(!is_space(key[i]));
        }
    } else {
        let words = join(twists, ' ');
        lemma_joined_words(twists);
        assert(is_word(twists[twists.len() - 1]));
        assert(line =~= key + seq![' '] + words);
        lemma_comment_free_concat(key, ' ', words);
        assert(line.last() == words.last());
        assert(!is_space(twists.last()[twists.last().len() - 1]));
        assert forall|i: int| 0 <= i < line.len() implies #[trigger] line[i] != '\n' by {
            if i < key.len() {
                assert(line[i] == key[i]);
                assert(!is_space(key[i]));
            } else if i > key.len() {
                assert(line[i] == words[i - key.len() - 1]);
            }
        }
    }
}

/// A definition that is written out and read back is the same definition.
///
/// This holds of every well-formed definition whose numbers are in range
/// and whose twists hold no `//`: such a twist cannot be written, since the
/// rest of its line would be taken for a comment.
pub proof fn lemma_written_reads_back(def: DefinitionView)
    requires
        def.well_formed(),
        def.n <= u8::MAX,
        def.d <= u8::MAX,
        def.depth <= u32::MAX,
        all_comment_free(def.prefix),
        all_comment_free(def.postfix),
        forall|i: int|
            0 <= i < def.generators.len() ==> all_comment_free(#[trigger] def.generators[i]),
    ensures
        parse_text(written(def)) == Ok::<DefinitionView, ParseError>(def),
{
    let lines = written_lines(def);
    let pool = def.generators;
    assert(lines.len() == 6 + pool.len());
    lemma_number_line(lines, 0, Field::N, def.n, u8::MAX as nat);
    lemma_number_line(lines, 1, Field::D, def.d, u8::MAX as nat);
    lemma_number_line(lines, 2, Field::Depth, def.depth, u32::MAX as nat);
    lemma_twists_line(lines, 3, Field::Prefix, def.prefix);
    lemma_twists_line(lines, 4, Field::Postfix, def.postfix);
    lemma_twists_line(lines, 5, Field::Generators, Seq::empty());
    assert(pool_header_on(lines, 5) is None);
    assert forall|i: int| 0 <= i < pool.len() implies is_clean(#[trigger] lines[6 + i]) && tokens(
        lines[6 + i],
    ) == pool[i] by {
        let g = pool[i];
        assert(lines[6 + i] == join(g, ' '));
        assert(g.len() > 0 && all_twists(g));
        assert(all_comment_free(g));
        lemma_joined_words(g);
        lemma_tokens_of_joined(g, ' ');
        assert(is_word(g[0]));
        assert(is_word(g[g.len() - 1]));
        assert(!is_space(g.last()[g.last().len() - 1]));
    }
    assert forall|i: int| 0 <= i < lines.len() implies is_clean(#[trigger] lines[i]) by {
        if i >= 6 {
            assert(is_clean(lines[6 + (i - 6)]));
        }
    }
    lemma_lines_of_closed_lines(lines);
    assert(pool_from(lines, 6) =~= pool) by {
        assert forall|i: int| 0 <= i < pool.len() implies pool_from(lines, 6)[i] == pool[i] by {
            assert(tokens(lines[6 + i]) == pool[i]);
        }
    }
}

/// Every definition that a text gives can be written out, and the text
/// that writes it gives the same definition again.
pub proof fn lemma_parsed_reads_back(text: Seq<char>)
    ensures
        parse_text(text) matches Ok(def) ==> parse_text(written(def)) == Ok::<
            DefinitionView,
            ParseError,
        >(def),
{
    if let Ok(def) = parse_text(text) {
        lemma_parsed_well_formed(text);
        lemma_parsed_comment_free(text);
        lemma_written_reads_back(def);
    }
}

} // verus!
