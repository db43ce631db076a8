//! White space, comments, lines and tokens: what the words of the definition
//! grammar mean, as functions on `Seq<char>`, and what follows from that.
use vstd::prelude::*;

verus! {

/// White space as Unicode defines it (the property `White_Space`).
pub open spec fn is_space(c: char) -> bool {
    let u = c as u32;
    ||| 0x09 <= u <= 0x0d
    ||| u == 0x20
    ||| u == 0x85
    ||| u == 0xa0
    ||| u == 0x1680
    ||| 0x2000 <= u <= 0x200a
    ||| u == 0x2028
    ||| u == 0x2029
    ||| u == 0x202f
    ||| u == 0x205f
    ||| u == 0x3000
}

/// Number of white-space characters at the front of `s`.
pub open spec fn leading_spaces(s: Seq<char>) -> nat
    decreases s.len(),
{
    if s.len() == 0 || !is_space(s[0]) {
        0
    } else {
        1 + leading_spaces(s.drop_first())
    }
}

/// Number of white-space characters at the back of `s`.
pub open spec fn trailing_spaces(s: Seq<char>) -> nat
    decreases s.len(),
{
    if s.len() == 0 || !is_space(s.last()) {
        0
    } else {
        1 + trailing_spaces(s.drop_last())
    }
}

/// `s` without its leading white space.
pub open spec fn trim_start(s: Seq<char>) -> Seq<char> {
    s.skip(leading_spaces(s) as int)
}

/// `s` without its trailing white space.
pub open spec fn trim_end(s: Seq<char>) -> Seq<char> {
    s.take(s.len() - trailing_spaces(s))
}

/// `s` without the white space around it.
pub open spec fn trim(s: Seq<char>) -> Seq<char> {
    trim_end(trim_start(s))
}

/// Number of characters of `s` before its first `//` (all of them, if it has
/// none).
pub open spec fn comment_start(s: Seq<char>) -> nat
    decreases s.len(),
{
    if s.len() < 2 {
        s.len()
    } else if s[0] == '/' && s[1] == '/' {
        0
    } else {
        1 + comment_start(s.drop_first())
    }
}

/// What a line of the definition text means: the part before the comment,
/// trimmed.
pub open spec fn clean_line(line: Seq<char>) -> Seq<char> {
    trim(line.take(comment_start(line) as int))
}

/// Number of characters of `s` before its first line feed (all of them, if it
/// has none).
pub open spec fn line_len(s: Seq<char>) -> nat
    decreases s.len(),
{
    if s.len() == 0 || s[0] == '\n' {
        0
    } else {
        1 + line_len(s.drop_first())
    }
}

/// Number of characters at the front of `s` that are not white space.
pub open spec fn word_len(s: Seq<char>) -> nat
    decreases s.len(),
{
    if s.len() == 0 || is_space(s[0]) {
        0
    } else {
        1 + word_len(s.drop_first())
    }
}

/// The maximal runs of characters of `s` that hold no white space, in order.
pub open spec fn tokens(s: Seq<char>) -> Seq<Seq<char>>
    decreases s.len(),
{
    if s.len() == 0 {
        Seq::empty()
    } else if is_space(s[0]) {
        tokens(s.drop_first())
    } else {
        let n = word_len(s);
        if 0 < n < s.len() {
            seq![s.take(n as int)] + tokens(s.skip(n as int))
        } else {
            seq![s]
        }
    }
}

/// The lines of `text`: the pieces into which its line feeds cut it. A line
/// feed at the very end closes the last line and opens no further one.
pub open spec fn cut_lines(text: Seq<char>) -> Seq<Seq<char>>
    decreases text.len(),
{
    if text.len() == 0 {
        Seq::empty()
    } else {
        let n = line_len(text);
        if n < text.len() {
            seq![text.take(n as int)] + cut_lines(text.skip(n as int + 1))
        } else {
            seq![text]
        }
    }
}

/// `line` as a one-element sequence, or nothing if it is empty.
pub open spec fn kept(line: Seq<char>) -> Seq<Seq<char>> {
    if line.len() == 0 {
        Seq::empty()
    } else {
        seq![line]
    }
}

/// The lines of `text` that mean something: the text is cut at every line
/// feed, each piece is cleaned, and the pieces that are then empty are
/// dropped.
pub open spec fn meaningful_lines(text: Seq<char>) -> Seq<Seq<char>>
    decreases text.len(),
{
    if text.len() == 0 {
        Seq::empty()
    } else {
        let n = line_len(text);
        let head = kept(clean_line(text.take(n as int)));
        if n < text.len() {
            head + meaningful_lines(text.skip(n as int + 1))
        } else {
            head
        }
    }
}

/// `leading_spaces(s)` is the one position that only white space precedes and
/// at which the white space ends.
pub proof fn lemma_leading_spaces(s: Seq<char>, k: int)
    requires
        0 <= k <= s.len(),
        forall|i: int| 0 <= i < k ==> is_space(#[trigger] s[i]),
        k < s.len() ==> !is_space(s[k]),
    ensures
        leading_spaces(s) == k,
    decreases s.len(),
{
    if k > 0 {
        let t = s.drop_first();
        assert forall|i: int| 0 <= i < k - 1 implies is_space(#[trigger] t[i]) by {
            assert(t[i] == s[i + 1]);
        }
        lemma_leading_spaces(t, k - 1);
    }
}

/// The converse of `lemma_leading_spaces`.
pub proof fn lemma_leading_spaces_found(s: Seq<char>)
    ensures
        leading_spaces(s) <= s.len(),
        forall|i: int| 0 <= i < leading_spaces(s) ==> is_space(#[trigger] s[i]),
        leading_spaces(s) < s.len() ==> !is_space(s[leading_spaces(s) as int]),
    decreases s.len(),
{
    if s.len() > 0 && is_space(s[0]) {
        let t = s.drop_first();
        lemma_leading_spaces_found(t);
        assert forall|i: int| 0 <= i < leading_spaces(s) implies is_space(#[trigger] s[i]) by {
            if i > 0 {
                assert(s[i] == t[i - 1]);
            }
        }
        if leading_spaces(s) < s.len() {
            assert(s[leading_spaces(s) as int] == t[leading_spaces(t) as int]);
        }
    }
}

/// `s.len() - trailing_spaces(s)` is the one position that only white space
/// follows and before which the white space ends.
pub proof fn lemma_trailing_spaces(s: Seq<char>, k: int)
    requires
        0 <= k <= s.len(),
        forall|i: int| k <= i < s.len() ==> is_space(#[trigger] s[i]),
        0 < k ==> !is_space(s[k - 1]),
    ensures
        trailing_spaces(s) == s.len() - k,
    decreases s.len(),
{
    if k < s.len() {
        let t = s.drop_last();
        assert forall|i: int| k <= i < t.len() implies is_space(#[trigger] t[i]) by {
            assert(t[i] == s[i]);
        }
        lemma_trailing_spaces(t, k);
    }
}

/// The converse of `lemma_trailing_spaces`.
pub proof fn lemma_trailing_spaces_found(s: Seq<char>)
    ensures
        trailing_spaces(s) <= s.len(),
        forall|i: int| s.len() - trailing_spaces(s) <= i < s.len() ==> is_space(#[trigger] s[i]),
        trailing_spaces(s) < s.len() ==> !is_space(s[s.len() - trailing_spaces(s) - 1]),
    decreases s.len(),
{
    if s.len() > 0 && is_space(s.last()) {
        let t = s.drop_last();
        lemma_trailing_spaces_found(t);
        assert forall|i: int| s.len() - trailing_spaces(s) <= i < s.len() implies is_space(
            #[trigger] s[i],
        ) by {
            if i < t.len() {
                assert(s[i] == t[i]);
            }
        }
        if trailing_spaces(s) < s.len() {
            assert(s[s.len() - trailing_spaces(s) - 1] == t[t.len() - trailing_spaces(t) - 1]);
        }
    }
}

/// `word_len(s)` is the one position that no white space precedes and at
/// which the word ends.
pub proof fn lemma_word_len(s: Seq<char>, k: int)
    requires
        0 <= k <= s.len(),
        forall|i: int| 0 <= i < k ==> !is_space(#[trigger] s[i]),
        k < s.len() ==> is_space(s[k]),
    ensures
        word_len(s) == k,
    decreases s.len(),
{
    if k > 0 {
        let t = s.drop_first();
        assert forall|i: int| 0 <= i < k - 1 implies !is_space(#[trigger] t[i]) by {
            assert(t[i] == s[i + 1]);
        }
        lemma_word_len(t, k - 1);
    }
}

/// The converse of `lemma_word_len`.
pub proof fn lemma_word_len_found(s: Seq<char>)
    ensures
        word_len(s) <= s.len(),
        forall|i: int| 0 <= i < word_len(s) ==> !is_space(#[trigger] s[i]),
        word_len(s) < s.len() ==> is_space(s[word_len(s) as int]),
    decreases s.len(),
{
    if s.len() > 0 && !is_space(s[0]) {
        let t = s.drop_first();
        lemma_word_len_found(t);
        assert forall|i: int| 0 <= i < word_len(s) implies !is_space(#[trigger] s[i]) by {
            if i > 0 {
                assert(s[i] == t[i - 1]);
            }
        }
        if word_len(s) < s.len() {
            assert(s[word_len(s) as int] == t[word_len(t) as int]);
        }
    }
}

/// `line_len(s)` is the one position that no line feed precedes and at which
/// the line ends.
pub proof fn lemma_line_len(s: Seq<char>, k: int)
    requires
        0 <= k <= s.len(),
        forall|i: int| 0 <= i < k ==> #[trigger] s[i] != '\n',
        k < s.len() ==> s[k] == '\n',
    ensures
        line_len(s) == k,
    decreases s.len(),
{
    if k > 0 {
        let t = s.drop_first();
        assert forall|i: int| 0 <= i < k - 1 implies #[trigger] t[i] != '\n' by {
            assert(t[i] == s[i + 1]);
        }
        lemma_line_len(t, k - 1);
    }
}

/// The converse of `lemma_line_len`.
pub proof fn lemma_line_len_found(s: Seq<char>)
    ensures
        line_len(s) <= s.len(),
        forall|i: int| 0 <= i < line_len(s) ==> #[trigger] s[i] != '\n',
        line_len(s) < s.len() ==> s[line_len(s) as int] == '\n',
    decreases s.len(),
{
    if s.len() > 0 && s[0] != '\n' {
        let t = s.drop_first();
        lemma_line_len_found(t);
        assert forall|i: int| 0 <= i < line_len(s) implies #[trigger] s[i] != '\n' by {
            if i > 0 {
                assert(s[i] == t[i - 1]);
            }
        }
        if line_len(s) < s.len() {
            assert(s[line_len(s) as int] == t[line_len(t) as int]);
        }
    }
}

/// Whether a comment opens at position `i` of `s`.
pub open spec fn comment_at(s: Seq<char>, i: int) -> bool {
    0 <= i && i + 1 < s.len() && s[i] == '/' && s[i + 1] == '/'
}

/// `comment_start(s)` is the first position at which a comment opens, or the
/// length of `s` if none does.
pub proof fn lemma_comment_start(s: Seq<char>, k: int)
    requires
        0 <= k <= s.len(),
        forall|i: int| 0 <= i < k ==> !comment_at(s, i),
        k < s.len() ==> comment_at(s, k),
    ensures
        comment_start(s) == k,
    decreases s.len(),
{
    if s.len() < 2 {
    } else if s[0] == '/' && s[1] == '/' {
        assert(comment_at(s, 0));
    } else {
        let t = s.drop_first();
        assert(!comment_at(s, 0));
        assert forall|i: int| 0 <= i < k - 1 implies !comment_at(t, i) by {
            assert(!comment_at(s, i + 1));
        }
        if k < s.len() {
            assert(comment_at(t, k - 1));
        }
        lemma_comment_start(t, k - 1);
    }
}

/// The converse of `lemma_comment_start`.
pub proof fn lemma_comment_start_found(s: Seq<char>)
    ensures
        comment_start(s) <= s.len(),
        forall|i: int| 0 <= i < comment_start(s) ==> !comment_at(s, i),
        comment_start(s) < s.len() ==> comment_at(s, comment_start(s) as int),
    decreases s.len(),
{
    if s.len() < 2 {
    } else if s[0] == '/' && s[1] == '/' {
    } else {
        let t = s.drop_first();
        lemma_comment_start_found(t);
        assert forall|i: int| 0 <= i < comment_start(s) implies !comment_at(s, i) by {
            if i > 0 {
                assert(!comment_at(t, i - 1));
            }
        }
    }
}

/// White space in front of a text adds no token.
pub proof fn lemma_tokens_skip_spaces(s: Seq<char>)
    ensures
        tokens(s) == tokens(s.skip(leading_spaces(s) as int)),
    decreases s.len(),
{
    if s.len() > 0 && is_space(s[0]) {
        lemma_tokens_skip_spaces(s.drop_first());
        lemma_leading_spaces_found(s.drop_first());
        assert(s.drop_first().skip(leading_spaces(s.drop_first()) as int) =~= s.skip(
            leading_spaces(s) as int,
        ));
    } else {
        assert(s.skip(0) =~= s);
    }
}

/// How `tokens` goes on behind a word.
pub proof fn lemma_tokens_word(s: Seq<char>)
    requires
        s.len() > 0,
        !is_space(s[0]),
    ensures
        0 < word_len(s) <= s.len(),
        tokens(s) == seq![s.take(word_len(s) as int)] + tokens(s.skip(word_len(s) as int)),
{
    lemma_word_len_found(s);
    let n = word_len(s);
    if n == s.len() {
        assert(s.take(n as int) =~= s);
        assert(tokens(s.skip(n as int)) =~= Seq::<Seq<char>>::empty());
        assert(seq![s] + Seq::<Seq<char>>::empty() =~= seq![s]);
    }
}

/// Whether `token` is a word: it is not empty and holds no white space.
pub open spec fn is_word(token: Seq<char>) -> bool {
    token.len() > 0 && forall|i: int| 0 <= i < token.len() ==> !is_space(#[trigger] token[i])
}

/// Every token is a word.
pub proof fn lemma_tokens_are_words(s: Seq<char>)
    ensures
        forall|i: int| 0 <= i < tokens(s).len() ==> is_word(#[trigger] tokens(s)[i]),
    decreases s.len(),
{
    if s.len() == 0 {
        assert(tokens(s).len() == 0);
    } else if is_space(s[0]) {
        lemma_tokens_are_words(s.drop_first());
        assert(tokens(s) == tokens(s.drop_first()));
    } else {
        lemma_tokens_word(s);
        lemma_word_len_found(s);
        let n = word_len(s) as int;
        lemma_tokens_are_words(s.skip(n));
        assert(is_word(s.take(n)));
        assert forall|i: int| 0 <= i < tokens(s).len() implies is_word(#[trigger] tokens(s)[i]) by {
            if i > 0 {
                assert(tokens(s)[i] == tokens(s.skip(n))[i - 1]);
            } else {
                assert(tokens(s)[0] == s.take(n));
            }
        }
    }
}

/// A text that starts with something other than white space has a token.
pub proof fn lemma_tokens_of_text(s: Seq<char>)
    requires
        s.len() > 0,
        !is_space(s[0]),
    ensures
        tokens(s).len() > 0,
{
    lemma_tokens_word(s);
}

/// What is left of a line after cleaning does not start with white space.
pub proof fn lemma_clean_line_starts(line: Seq<char>)
    ensures
        clean_line(line).len() > 0 ==> !is_space(clean_line(line)[0]),
{
    let code = line.take(comment_start(line) as int);
    lemma_leading_spaces_found(code);
    lemma_trailing_spaces_found(trim_start(code));
}

/// Every meaningful line holds something, and starts with something other
/// than white space.
pub proof fn lemma_meaningful_lines_start(text: Seq<char>)
    ensures
        forall|i: int|
            0 <= i < meaningful_lines(text).len() ==> (#[trigger] meaningful_lines(text)[i]).len()
                > 0 && !is_space(meaningful_lines(text)[i][0]),
    decreases text.len(),
{
    if text.len() > 0 {
        let n = line_len(text);
        let line = clean_line(text.take(n as int));
        lemma_clean_line_starts(text.take(n as int));
        let rest = if n < text.len() {
            meaningful_lines(text.skip(n as int + 1))
        } else {
            Seq::empty()
        };
        if n < text.len() {
            lemma_meaningful_lines_start(text.skip(n as int + 1));
        }
        assert(meaningful_lines(text) =~= kept(line) + rest);
        assert forall|i: int| 0 <= i < meaningful_lines(text).len() implies (
        #[trigger] meaningful_lines(text)[i]).len() > 0 && !is_space(
            meaningful_lines(text)[i][0],
        ) by {
            if i < kept(line).len() {
                assert(meaningful_lines(text)[i] == line);
            } else {
                assert(meaningful_lines(text)[i] == rest[i - kept(line).len()]);
            }
        }
    }
}

/// A space at the end of a text is trimmed away with the rest.
pub proof fn lemma_trim_ignores_trailing_space(s: Seq<char>)
    ensures
        trim(s.push(' ')) == trim(s),
{
    let k = leading_spaces(s) as int;
    let longer = s.push(' ');
    lemma_leading_spaces_found(s);
    if k == s.len() {
        lemma_leading_spaces(longer, k + 1);
        assert(trim_start(longer) =~= Seq::<char>::empty());
        assert(trim_start(s) =~= Seq::<char>::empty());
    } else {
        assert(longer[k] == s[k]);
        lemma_leading_spaces(longer, k);
        let t = trim_start(s);
        assert(trim_start(longer) =~= t.push(' '));
        assert(t.push(' ').drop_last() =~= t);
        lemma_trailing_spaces_found(t);
        assert(trim_end(t.push(' ')) =~= trim_end(t));
    }
}

/// A comment at the end of a line leaves what the line means as it is.
pub proof fn lemma_clean_line_ignores_comment(line: Seq<char>, comment: Seq<char>)
    ensures
        clean_line(line + " //"@ + comment) == clean_line(line),
{
    reveal_strlit(" //");
    let longer = line + " //"@ + comment;
    let k = comment_start(line) as int;
    lemma_comment_start_found(line);
    if k < line.len() {
        assert(comment_at(longer, k));
        assert forall|i: int| 0 <= i < k implies !comment_at(longer, i) by {
            assert(!comment_at(line, i));
        }
        lemma_comment_start(longer, k);
        assert(longer.take(k) =~= line.take(k));
    } else {
        assert(comment_at(longer, k + 1));
        assert forall|i: int| 0 <= i < k + 1 implies !comment_at(longer, i) by {
            if i + 1 < line.len() {
                assert(!comment_at(line, i));
            }
        }
        lemma_comment_start(longer, k + 1);
        assert(longer.take(k + 1) =~= line.push(' '));
        assert(line.take(k) =~= line);
        lemma_trim_ignores_trailing_space(line);
    }
}

/// A comment added at the end of any line of a text leaves the meaningful
/// lines of the text as they are. The end of a line is the place of a line
/// feed, or the end of the text.
pub proof fn lemma_lines_ignore_trailing_comment(text: Seq<char>, at: int, comment: Seq<char>)
    requires
        0 <= at <= text.len(),
        at < text.len() ==> text[at] == '\n',
        forall|i: int| 0 <= i < comment.len() ==> #[trigger] comment[i] != '\n',
    ensures
        meaningful_lines(text.take(at) + " //"@ + comment + text.skip(at)) == meaningful_lines(
            text,
        ),
    decreases text.len(),
{
    reveal_strlit(" //");
    let added = " //"@ + comment;
    let longer = text.take(at) + " //"@ + comment + text.skip(at);
    let n = line_len(text) as int;
    lemma_line_len_found(text);
    if n < at {
        let rest = text.skip(n + 1);
        assert forall|i: int| 0 <= i < n implies #[trigger] longer[i] != '\n' by {
            assert(longer[i] == text[i]);
        }
        assert(longer[n] == text[n]);
        lemma_line_len(longer, n);
        assert(longer.take(n) =~= text.take(n));
        assert(longer.skip(n + 1) =~= rest.take(at - n - 1) + " //"@ + comment + rest.skip(
            at - n - 1,
        ));
        if at < text.len() {
            assert(rest[at - n - 1] == text[at]);
        }
        lemma_lines_ignore_trailing_comment(rest, at - n - 1, comment);
    } else {
        let line = text.take(at);
        let end = at + added.len();
        assert(n == at);
        assert forall|i: int| 0 <= i < end implies #[trigger] longer[i] != '\n' by {
            if i < at {
                assert(longer[i] == text[i]);
            } else if i >= at + 3 {
                assert(longer[i] == comment[i - at - 3]);
            }
        }
        if at < text.len() {
            assert(longer[end] == text[at]);
        }
        lemma_line_len(longer, end);
        assert(longer.take(end) =~= line + " //"@ + comment);
        lemma_clean_line_ignores_comment(line, comment);
        if at < text.len() {
            assert(longer.skip(end + 1) =~= text.skip(at + 1));
        } else {
            assert(clean_line(Seq::<char>::empty()) =~= Seq::<char>::empty()) by {
                lemma_comment_start_found(Seq::<char>::empty());
                lemma_leading_spaces_found(Seq::<char>::empty());
                lemma_trailing_spaces_found(Seq::<char>::empty());
            }
            if text.len() == 0 {
                assert(line =~= Seq::<char>::empty());
            }
        }
    }
}

/// Whether no comment opens anywhere in `s`.
pub open spec fn comment_free(s: Seq<char>) -> bool {
    forall|i: int| !comment_at(s, i)
}

/// Whether no comment opens in any of `words`.
pub open spec fn all_comment_free(words: Seq<Seq<char>>) -> bool {
    forall|i: int| 0 <= i < words.len() ==> comment_free(#[trigger] words[i])
}

/// No comment opens in a stretch of a text in which none opens.
pub proof fn lemma_comment_free_subrange(s: Seq<char>, from: int, to: int)
    requires
        comment_free(s),
        0 <= from <= to <= s.len(),
    ensures
        comment_free(s.subrange(from, to)),
{
    assert forall|i: int| !comment_at(s.subrange(from, to), i) by {
        assert(!comment_at(s, from + i));
    }
}

/// No comment opens in what is left of a line after cleaning.
pub proof fn lemma_clean_line_comment_free(line: Seq<char>)
    ensures
        comment_free(clean_line(line)),
{
    let code = line.take(comment_start(line) as int);
    lemma_comment_start_found(line);
    assert forall|i: int| !comment_at(code, i) by {
        if 0 <= i && i + 1 < code.len() {
            assert(!comment_at(line, i));
        }
    }
    lemma_leading_spaces_found(code);
    lemma_trailing_spaces_found(trim_start(code));
    let start = leading_spaces(code) as int;
    let end = code.len() - trailing_spaces(trim_start(code));
    assert(trim(code) =~= code.subrange(start, end));
    lemma_comment_free_subrange(code, start, end);
}

/// No comment opens in a meaningful line.
pub proof fn lemma_meaningful_lines_comment_free(text: Seq<char>)
    ensures
        all_comment_free(meaningful_lines(text)),
    decreases text.len(),
{
    if text.len() > 0 {
        let n = line_len(text);
        let line = clean_line(text.take(n as int));
        lemma_clean_line_comment_free(text.take(n as int));
        let rest = if n < text.len() {
            meaningful_lines(text.skip(n as int + 1))
        } else {
            Seq::empty()
        };
        if n < text.len() {
            lemma_meaningful_lines_comment_free(text.skip(n as int + 1));
        }
        assert(meaningful_lines(text) =~= kept(line) + rest);
        assert forall|i: int| 0 <= i < meaningful_lines(text).len() implies comment_free(
            #[trigger] meaningful_lines(text)[i],
        ) by {
            if i < kept(line).len() {
                assert(meaningful_lines(text)[i] == line);
            } else {
                assert(meaningful_lines(text)[i] == rest[i - kept(line).len()]);
            }
        }
    }
}

/// No comment opens in a token of a text in which none opens.
pub proof fn lemma_tokens_comment_free(s: Seq<char>)
    requires
        comment_free(s),
    ensures
        all_comment_free(tokens(s)),
    decreases s.len(),
{
    if s.len() == 0 {
        assert(tokens(s).len() == 0);
    } else if is_space(s[0]) {
        assert(s.drop_first() =~= s.subrange(1, s.len() as int));
        lemma_comment_free_subrange(s, 1, s.len() as int);
        lemma_tokens_comment_free(s.drop_first());
        assert(tokens(s) == tokens(s.drop_first()));
    } else {
        lemma_tokens_word(s);
        let n = word_len(s) as int;
        lemma_comment_free_subrange(s, 0, n);
        lemma_comment_free_subrange(s, n, s.len() as int);
        lemma_tokens_comment_free(s.skip(n));
        assert forall|i: int| 0 <= i < tokens(s).len() implies comment_free(
            #[trigger] tokens(s)[i],
        ) by {
            if i > 0 {
                assert(tokens(s)[i] == tokens(s.skip(n))[i - 1]);
            } else {
                assert(tokens(s)[0] == s.take(n));
            }
        }
    }
}

/// White space between two texts keeps their tokens apart: the tokens of
/// the whole are those of the first text, then those of the second.
pub proof fn lemma_tokens_concat(a: Seq<char>, sep: char, b: Seq<char>)
    requires
        is_space(sep),
    ensures
        tokens(a + seq![sep] + b) == tokens(a) + tokens(b),
    decreases a.len(),
{
    let whole = a + seq![sep] + b;
    if a.len() == 0 {
        assert(whole.drop_first() =~= b);
        assert(tokens(a) + tokens(b) =~= tokens(b));
    } else if is_space(a[0]) {
        assert(whole.drop_first() =~= a.drop_first() + seq![sep] + b);
        lemma_tokens_concat(a.drop_first(), sep, b);
    } else {
        lemma_word_len_found(a);
        let n = word_len(a) as int;
        assert forall|i: int| 0 <= i < n implies !is_space(#[trigger] whole[i]) by {
            assert(whole[i] == a[i]);
        }
        if n < a.len() {
            assert(whole[n] == a[n]);
        } else {
            assert(whole[n] == sep);
        }
        lemma_word_len(whole, n);
        lemma_tokens_word(whole);
        lemma_tokens_word(a);
        assert(whole.take(n) =~= a.take(n));
        assert(whole.skip(n) =~= a.skip(n) + seq![sep] + b);
        lemma_tokens_concat(a.skip(n), sep, b);
        assert(tokens(whole) =~= tokens(a) + tokens(b));
    }
}

} // verus!
