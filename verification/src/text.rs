//! Splitting report text into lines and lines into whitespace-separated
//! tokens.  A token is a maximal run of non-whitespace characters; a line
//! ends at a newline, and a carriage return just before the newline is not
//! part of the line.

use vstd::prelude::*;

verus! {

/// The characters the report grammar treats as whitespace: the ASCII
/// whitespace characters (space, tab, line feed, vertical tab, form feed,
/// carriage return).
pub open spec fn is_space_char(c: char) -> bool {
    c == ' ' || c == '\t' || c == '\n' || c == '\r' || c == '\u{b}' || c == '\u{c}'
}

/// Executable test for `is_space_char`.
pub fn is_space(c: char) -> (r: bool)
    ensures
        r == is_space_char(c),
{
    c == ' ' || c == '\t' || c == '\n' || c == '\r' || c == '\u{b}' || c == '\u{c}'
}

/// Position of the first whitespace character at or after `i`, or the end
/// of the sequence.
pub open spec fn token_end(s: Seq<char>, i: int) -> int
    decreases s.len() - i,
{
    if i < 0 || i >= s.len() {
        i
    } else if is_space_char(s[i]) {
        i
    } else {
        token_end(s, i + 1)
    }
}

/// `token_end` stays within the sequence and marks the end of a run of
/// non-whitespace characters.
pub proof fn lemma_token_end(s: Seq<char>, i: int)
    requires
        0 <= i <= s.len(),
    ensures
        i <= token_end(s, i) <= s.len(),
        forall|j: int| i <= j < token_end(s, i) ==> !is_space_char(s[j]),
        token_end(s, i) == s.len() || is_space_char(s[token_end(s, i)]),
    decreases s.len() - i,
{
    if i < s.len() && !is_space_char(s[i]) {
        lemma_token_end(s, i + 1);
    }
}

/// The whitespace-separated tokens of `s`, from position `i` on.
pub open spec fn tokens_from(s: Seq<char>, i: int) -> Seq<Seq<char>>
    decreases s.len() - i,
        via tokens_from_dec
{
    if i < 0 || i >= s.len() {
        Seq::empty()
    } else if is_space_char(s[i]) {
        tokens_from(s, i + 1)
    } else {
        seq![s.subrange(i, token_end(s, i))] + tokens_from(s, token_end(s, i))
    }
}

#[via_fn]
proof fn tokens_from_dec(s: Seq<char>, i: int) {
    if 0 <= i < s.len() && !is_space_char(s[i]) {
        lemma_token_end(s, i);
        assert(token_end(s, i) == token_end(s, i + 1));
    }
}

/// The tokens of a whole line.
pub open spec fn tokens_of_spec(line: Seq<char>) -> Seq<Seq<char>> {
    tokens_from(line, 0)
}

/// Position of the first newline at or after `i`, or the end of the text.
pub open spec fn line_end(s: Seq<char>, i: int) -> int
    decreases s.len() - i,
{
    if i < 0 || i >= s.len() {
        s.len() as int
    } else if s[i] == '\n' {
        i
    } else {
        line_end(s, i + 1)
    }
}

/// `line_end` stays within the text and marks a newline or the end.
pub proof fn lemma_line_end(s: Seq<char>, i: int)
    requires
        0 <= i <= s.len(),
    ensures
        i <= line_end(s, i) <= s.len(),
        forall|j: int| i <= j < line_end(s, i) ==> s[j] != '\n',
        line_end(s, i) == s.len() || s[line_end(s, i)] == '\n',
    decreases s.len() - i,
{
    if i < s.len() && s[i] != '\n' {
        lemma_line_end(s, i + 1);
    }
}

/// Remove one carriage return from the end of a line, if present, the way
/// line splitting treats `\r\n` endings.
pub open spec fn strip_cr(l: Seq<char>) -> Seq<char> {
    if l.len() > 0 && l[l.len() - 1] == '\r' {
        l.drop_last()
    } else {
        l
    }
}

/// The line that starts at position `i`.
pub open spec fn line_at(s: Seq<char>, i: int) -> Seq<char> {
    strip_cr(s.subrange(i, line_end(s, i)))
}

/// All lines of `s` from position `i` on, where `i` is a line start.
pub open spec fn lines_from(s: Seq<char>, i: int) -> Seq<Seq<char>>
    decreases s.len() + 1 - i,
        via lines_from_dec
{
    if i < 0 || i >= s.len() {
        Seq::empty()
    } else {
        seq![line_at(s, i)] + lines_from(s, line_end(s, i) + 1)
    }
}

#[via_fn]
proof fn lines_from_dec(s: Seq<char>, i: int) {
    if 0 <= i < s.len() {
        lemma_line_end(s, i);
    }
}

/// The lines of a text, split at newlines, each without a trailing
/// carriage return.  A trailing newline does not add an empty final line.
pub open spec fn lines_of(s: Seq<char>) -> Seq<Seq<char>> {
    lines_from(s, 0)
}

/// Position of the first newline of `text` at or after `start`, or the
/// end of the text.
pub fn find_line_end(text: &str, start: usize, n: usize) -> (e: usize)
    requires
        n == text@.len(),
        start <= n,
    ensures
        e == line_end(text@, start as int),
        start <= e <= n,
{
    proof {
        lemma_line_end(text@, start as int);
    }
    let mut j = start;
    while j < n
        invariant
            start <= j <= n,
            n == text@.len(),
            line_end(text@, start as int) == line_end(text@, j as int),
        decreases n - j,
    {
        if text.get_char(j) == '\n' {
            return j;
        }
        proof {
            assert(line_end(text@, j as int) == line_end(text@, j + 1));
        }
        j += 1;
    }
    n
}

/// The line of `text` that starts at `start`, given the position `e` of
/// its ending newline (or of the end of the text).
pub fn line_at_exec<'a>(text: &'a str, start: usize, e: usize) -> (l: &'a str)
    requires
        start <= e <= text@.len(),
        e == line_end(text@, start as int),
    ensures
        l@ == line_at(text@, start as int),
{
    let stripped_end = if e > start && text.get_char(e - 1) == '\r' {
        e - 1
    } else {
        e
    };
    let l = text.substring_char(start, stripped_end);
    proof {
        if e > start && text@[e - 1] == '\r' {
            assert(text@.subrange(start as int, e as int).drop_last() =~= text@.subrange(
                start as int,
                e - 1,
            ));
        }
    }
    l
}

/// The whitespace-separated tokens of `line`, as owned strings.
pub fn tokens_of(line: &str) -> (v: Vec<String>)
    ensures
        v.deep_view() == tokens_of_spec(line@),
{
    let n = line.unicode_len();
    let mut v: Vec<String> = Vec::new();
    let mut i: usize = 0;
    proof {
        assert(v.deep_view() + tokens_from(line@, 0) =~= tokens_from(line@, 0));
    }
    while i < n
        invariant
            i <= n,
            n == line@.len(),
            v.deep_view() + tokens_from(line@, i as int) == tokens_of_spec(line@),
        decreases n - i,
    {
        let c = line.get_char(i);
        if is_space(c) {
            proof {
                assert(tokens_from(line@, i as int) == tokens_from(line@, i + 1));
            }
            i += 1;
        } else {
            let start = i;
            proof {
                lemma_token_end(line@, start as int);
            }
            let mut j = start + 1;
            proof {
                assert(token_end(line@, start as int) == token_end(line@, start + 1));
            }
            while j < n && !is_space(line.get_char(j))
                invariant
                    start < j <= n,
                    n == line@.len(),
                    token_end(line@, start as int) == token_end(line@, j as int),
                decreases n - j,
            {
                proof {
                    assert(token_end(line@, j as int) == token_end(line@, j + 1));
                }
                j += 1;
            }
            proof {
                assert(token_end(line@, j as int) == j);
                assert(token_end(line@, start as int) == j);
            }
            let tok = line.substring_char(start, j).to_owned();
            let ghost old_dv = v.deep_view();
            v.push(tok);
            proof {
                assert(v.deep_view() =~= old_dv.push(tok@));
                assert(old_dv.push(tok@) =~= old_dv + seq![tok@]);
                assert(tokens_from(line@, start as int) == seq![tok@] + tokens_from(
                    line@,
                    j as int,
                ));
                assert(old_dv + (seq![tok@] + tokens_from(line@, j as int)) =~= (old_dv
                    + seq![tok@]) + tokens_from(line@, j as int));
            }
            i = j;
        }
    }
    proof {
        assert(tokens_from(line@, i as int) =~= Seq::empty());
        assert(v.deep_view() + Seq::<Seq<char>>::empty() =~= v.deep_view());
    }
    v
}

} // verus!
