//! Recognition of the marker lines that delimit SEARCH/REPLACE blocks.
use vstd::prelude::*;
use crate::text::{split_lines, views, chars_of, split_text_lines, lemma_split_lines_nonempty};

verus! {

/// How many characters at the start of `s` equal `c`.
pub open spec fn leading_run(s: Seq<char>, c: char) -> nat
    decreases s.len(),
{
    if s.len() > 0 && s[0] == c {
        1 + leading_run(s.drop_first(), c)
    } else {
        0
    }
}

/// The whole line is a run of three or more `c`, followed by `word` exactly, or,
/// where `gt` holds, by `word` and one `>`.
pub open spec fn run_then(s: Seq<char>, c: char, word: Seq<char>, gt: bool) -> bool {
    let n = leading_run(s, c);
    n >= 3 && (s.skip(n as int) == word || (gt && s.skip(n as int) == word.push('>')))
}

pub open spec fn search_word() -> Seq<char> {
    seq![' ', 'S', 'E', 'A', 'R', 'C', 'H']
}

pub open spec fn replace_word() -> Seq<char> {
    seq![' ', 'R', 'E', 'P', 'L', 'A', 'C', 'E']
}

/// `^[-]{3,} SEARCH>?$` or `^[<]{3,} SEARCH>?$`.
pub open spec fn is_search_start(s: Seq<char>) -> bool {
    run_then(s, '-', search_word(), true) || run_then(s, '<', search_word(), true)
}

/// `^[=]{3,}$`.
pub open spec fn is_separator(s: Seq<char>) -> bool {
    run_then(s, '=', Seq::empty(), false)
}

/// `^[+]{3,} REPLACE>?$` or `^[>]{3,} REPLACE>?$`.
pub open spec fn is_replace_end(s: Seq<char>) -> bool {
    run_then(s, '+', replace_word(), true) || run_then(s, '>', replace_word(), true)
}

pub open spec fn is_marker(s: Seq<char>) -> bool {
    is_search_start(s) || is_separator(s) || is_replace_end(s)
}

/// A SEARCH line that salvage may rewrite: `^([-]{3,}|[<]{3,}) SEARCH$`.
pub open spec fn is_rescue_search_start(s: Seq<char>) -> bool {
    run_then(s, '-', search_word(), false) || run_then(s, '<', search_word(), false)
}

/// A separator that salvage may rewrite: `^[=]{3,}$`.
pub open spec fn is_rescue_separator(s: Seq<char>) -> bool {
    run_then(s, '=', Seq::empty(), false)
}

/// A REPLACE line that salvage may rewrite: `^([+]{3,}|[>]{3,}) REPLACE$`.
pub open spec fn is_rescue_replace_end(s: Seq<char>) -> bool {
    run_then(s, '+', replace_word(), false) || run_then(s, '>', replace_word(), false)
}

/// The three kinds of line that salvage looks for.
#[derive(Clone, Copy, Debug)]
pub enum Rescue {
    SearchStart,
    Separator,
    ReplaceEnd,
}

pub open spec fn is_rescue(kind: Rescue, s: Seq<char>) -> bool {
    match kind {
        Rescue::SearchStart => is_rescue_search_start(s),
        Rescue::Separator => is_rescue_separator(s),
        Rescue::ReplaceEnd => is_rescue_replace_end(s),
    }
}

/// The line begins with a character that starts a marker.
pub open spec fn starts_like_marker(s: Seq<char>) -> bool {
    s.len() > 0 && (s[0] == '-' || s[0] == '<' || s[0] == '=' || s[0] == '+' || s[0] == '>')
}

/// Every line that salvage may rewrite is itself a marker.
pub proof fn lemma_rescue_lines_are_markers(kind: Rescue, s: Seq<char>)
    ensures
        is_rescue(kind, s) ==> is_marker(s),
{
}

/// The lines of a diff that the engines read: all of them, but for a last line
/// that begins like a marker and is none, which a stream may have cut short.
pub open spec fn diff_lines(diff: Seq<char>) -> Seq<Seq<char>> {
    let ls = split_lines(diff);
    let last = ls.last();
    if ls.len() > 0 && starts_like_marker(last) && !is_marker(last) {
        ls.drop_last()
    } else {
        ls
    }
}

/// Splits a diff into the lines that the engines read.
pub fn prepare_diff_lines(diff: &str) -> (r: Vec<Vec<char>>)
    ensures
        views(r@) == diff_lines(diff@),
{
    let chars = chars_of(diff);
    let mut lines = split_text_lines(&chars);
    proof {
        lemma_split_lines_nonempty(diff@);
    }
    let n = lines.len();
    let last = &lines[n - 1];
    if starts_like_a_marker(last) && !is_search_block_start(last) && !is_search_block_end(last)
        && !is_replace_block_end(last) {
        let ghost before = views(lines@);
        lines.pop();
        proof {
            assert(views(lines@) =~= before.drop_last());
        }
    }
    lines
}

/// Whether the line is one that salvage of the given kind may rewrite.
pub fn is_rescue_line(kind: Rescue, line: &Vec<char>) -> (r: bool)
    ensures
        r == is_rescue(kind, line@),
{
    match kind {
        Rescue::SearchStart => {
            let w = search_word_chars();
            run_then_exec(line, '-', &w, false) || run_then_exec(line, '<', &w, false)
        },
        Rescue::Separator => {
            let w: Vec<char> = Vec::new();
            proof {
                assert(w@ =~= Seq::<char>::empty());
            }
            run_then_exec(line, '=', &w, false)
        },
        Rescue::ReplaceEnd => {
            let w = replace_word_chars();
            run_then_exec(line, '+', &w, false) || run_then_exec(line, '>', &w, false)
        },
    }
}

fn leading_run_len(s: &Vec<char>, c: char) -> (n: usize)
    ensures
        n == leading_run(s@, c),
        n <= s.len(),
{
    let mut n: usize = 0;
    proof {
        assert(s@.skip(0) =~= s@);
    }
    while n < s.len() && s[n] == c
        invariant
            n <= s.len(),
            leading_run(s@, c) == n + leading_run(s@.skip(n as int), c),
        decreases s.len() - n,
    {
        proof {
            assert(s@.skip(n + 1) =~= s@.skip(n as int).drop_first());
        }
        n = n + 1;
    }
    n
}

fn tail_is(s: &Vec<char>, at: usize, word: &Vec<char>, gt: bool) -> (r: bool)
    requires
        at <= s.len(),
    ensures
        r == (s@.skip(at as int) == word@ || (gt && s@.skip(at as int) == word@.push('>'))),
{
    let rest = s.len() - at;
    let wl = word.len();
    if rest != wl && !(gt && rest > wl && rest - wl == 1) {
        proof {
            assert(s@.skip(at as int).len() != word@.len());
            if gt {
                assert(s@.skip(at as int).len() != word@.push('>').len());
            }
        }
        return false;
    }
    let mut i: usize = 0;
    while i < wl
        invariant
            at <= s.len(),
            wl == word.len(),
            i <= wl <= s.len() - at,
            s@.subrange(at as int, at + i) == word@.take(i as int),
        decreases wl - i,
    {
        if s[at + i] != word[i] {
            proof {
                assert(s@.skip(at as int)[i as int] != word@[i as int]);
                assert(s@.skip(at as int)[i as int] != word@.push('>')[i as int]);
            }
            return false;
        }
        proof {
            assert(s@.subrange(at as int, at + i + 1) =~= s@.subrange(at as int, at + i).push(
                s@[at + i],
            ));
            assert(word@.take(i + 1) =~= word@.take(i as int).push(word@[i as int]));
        }
        i = i + 1;
    }
    if rest == wl {
        proof {
            assert(s@.skip(at as int) =~= s@.subrange(at as int, at + wl));
            assert(word@.take(wl as int) =~= word@);
        }
        true
    } else {
        let last_ok = s[at + wl] == '>';
        proof {
            assert(s@.skip(at as int).len() != word@.len());
            assert(word@.take(wl as int) =~= word@);
            if last_ok {
                assert(s@.skip(at as int) =~= s@.subrange(at as int, at + wl).push('>'));
            } else {
                assert(s@.skip(at as int)[wl as int] != word@.push('>')[wl as int]);
            }
        }
        last_ok
    }
}

fn run_then_exec(s: &Vec<char>, c: char, word: &Vec<char>, gt: bool) -> (r: bool)
    ensures
        r == run_then(s@, c, word@, gt),
{
    let n = leading_run_len(s, c);
    n >= 3 && tail_is(s, n, word, gt)
}

fn search_word_chars() -> (r: Vec<char>)
    ensures
        r@ == search_word(),
{
    let mut r: Vec<char> = Vec::new();
    r.push(' ');
    r.push('S');
    r.push('E');
    r.push('A');
    r.push('R');
    r.push('C');
    r.push('H');
    proof {
        assert(r@ =~= search_word());
    }
    r
}

fn replace_word_chars() -> (r: Vec<char>)
    ensures
        r@ == replace_word(),
{
    let mut r: Vec<char> = Vec::new();
    r.push(' ');
    r.push('R');
    r.push('E');
    r.push('P');
    r.push('L');
    r.push('A');
    r.push('C');
    r.push('E');
    proof {
        assert(r@ =~= replace_word());
    }
    r
}

/// Whether the line opens a block: `^[-]{3,} SEARCH>?$` or `^[<]{3,} SEARCH>?$`.
pub fn is_search_block_start(line: &Vec<char>) -> (r: bool)
    ensures
        r == is_search_start(line@),
{
    let w = search_word_chars();
    run_then_exec(line, '-', &w, true) || run_then_exec(line, '<', &w, true)
}

/// Whether the line ends the search pattern: `^[=]{3,}$`.
pub fn is_search_block_end(line: &Vec<char>) -> (r: bool)
    ensures
        r == is_separator(line@),
{
    let w: Vec<char> = Vec::new();
    proof {
        assert(w@ =~= Seq::<char>::empty());
    }
    run_then_exec(line, '=', &w, false)
}

/// Whether the line closes a block: `^[+]{3,} REPLACE>?$` or `^[>]{3,} REPLACE>?$`.
pub fn is_replace_block_end(line: &Vec<char>) -> (r: bool)
    ensures
        r == is_replace_end(line@),
{
    let w = replace_word_chars();
    run_then_exec(line, '+', &w, true) || run_then_exec(line, '>', &w, true)
}

/// Whether the line begins with `-`, `<`, `=`, `+` or `>`.
pub fn starts_like_a_marker(line: &Vec<char>) -> (r: bool)
    ensures
        r == starts_like_marker(line@),
{
    if line.len() == 0 {
        false
    } else {
        let c = line[0];
        c == '-' || c == '<' || c == '=' || c == '+' || c == '>'
    }
}

/// A run of `c` followed by text that does not start with `c` has exactly that run.
pub proof fn lemma_leading_run_of_run(run: Seq<char>, rest: Seq<char>, c: char)
    requires
        forall|j: int| 0 <= j < run.len() ==> run[j] == c,
        rest.len() == 0 || rest[0] != c,
    ensures
        leading_run(run + rest, c) == run.len(),
    decreases run.len(),
{
    if run.len() > 0 {
        lemma_leading_run_of_run(run.drop_first(), rest, c);
        assert((run + rest).drop_first() =~= run.drop_first() + rest);
    } else {
        assert(run + rest =~= rest);
    }
}

} // verus!
