//! Properties of the two engines, proved over their specifications.
use vstd::prelude::*;
use crate::error::Failure;
use crate::locate::{locate, find_from, occurs_at, lemma_find_from_occurs};
use crate::marker::{
    diff_lines, is_marker, is_search_start, is_separator, is_replace_end, leading_run,
    starts_like_marker, search_word, replace_word, lemma_leading_run_of_run,
};
use crate::strict::{
    EngineState, ProcessingState, apply_strict, initial, run_lines, feed, step, resolve,
    resolved_range, lemma_run_lines_error_persists, closed, blank_tail,
};
use crate::text::{split_lines, trim_end_space, lemma_split_lines_nonempty};
use crate::lenient::{
    LenientState, lenient_initial, lenient_run, lenient_step, lenient_range, lenient_finish,
    apply_lenient, committed, malformed_outside, assembled, piece, sort_by_start,
    sorted_by_start,
};

verus! {

/// A separator line never opens a block.
pub proof fn lemma_separator_is_not_search_start(line: Seq<char>)
    ensures
        is_separator(line) ==> !is_search_start(line),
{
    if is_separator(line) {
        assert(leading_run(line, '=') >= 3);
        assert(line[0] == '=');
        assert(leading_run(line, '-') == 0);
        assert(leading_run(line, '<') == 0);
    }
}

/// An empty diff on the final chunk gives back the original unchanged, and so it
/// does on any chunk when the original is empty. (A chunk that is not final
/// holds only the output so far, which for an empty diff is empty.)
pub proof fn lemma_empty_diff_is_identity(original: Seq<char>, is_final: bool)
    requires
        is_final || original.len() == 0,
    ensures
        apply_strict(Seq::empty(), original, is_final) == Ok::<Seq<char>, Failure>(original),
{
    let ls = diff_lines(Seq::empty());
    assert(split_lines(Seq::<char>::empty()) == seq![Seq::<char>::empty()]);
    assert(!starts_like_marker(Seq::<char>::empty()));
    assert(ls == seq![Seq::<char>::empty()]);
    let m0 = initial(original, is_final);
    assert(leading_run(Seq::<char>::empty(), '-') == 0);
    assert(leading_run(Seq::<char>::empty(), '<') == 0);
    assert(leading_run(Seq::<char>::empty(), '=') == 0);
    assert(leading_run(Seq::<char>::empty(), '+') == 0);
    assert(leading_run(Seq::<char>::empty(), '>') == 0);
    assert(ls.drop_last() =~= Seq::<Seq<char>>::empty());
    let m1 = EngineState { pending: m0.pending.push(Seq::empty()), ..m0 };
    assert(feed(m0, Seq::empty()) == Ok::<EngineState, Failure>(m1));
    assert(run_lines(m0, ls.drop_last()) == Ok::<EngineState, Failure>(m0));
    assert(ls.last() == Seq::<char>::empty());
    assert(run_lines(m0, ls) == Ok::<EngineState, Failure>(m1));
    assert(original.subrange(0, original.len() as int) =~= original);
    assert(Seq::<char>::empty() + original =~= original);
}

/// When a SEARCH block resolves to a range that starts before the cursor (the
/// end of the previous block's match), the strict engine fails with
/// `SearchBlockIncorrectMatch`, holding the block's text.
pub proof fn lemma_match_before_cursor_is_rejected(
    diff: Seq<char>,
    original: Seq<char>,
    is_final: bool,
    i: int,
)
    requires
        0 <= i < diff_lines(diff).len(),
        run_lines(initial(original, is_final), diff_lines(diff).take(i)) is Ok,
        run_lines(initial(original, is_final), diff_lines(diff).take(i))->Ok_0.state
            == ProcessingState::StateSearch,
        is_separator(diff_lines(diff)[i]),
        resolved_range(run_lines(initial(original, is_final), diff_lines(diff).take(i))->Ok_0)
            matches Some((s, _)) && s < run_lines(
            initial(original, is_final),
            diff_lines(diff).take(i),
        )->Ok_0.cursor,
    ensures
        apply_strict(diff, original, is_final) == Err::<Seq<char>, Failure>(
            Failure::SearchBlockIncorrectMatch(
                trim_end_space(
                    run_lines(initial(original, is_final), diff_lines(diff).take(i))->Ok_0.search,
                ),
            ),
        ),
{
    let ls = diff_lines(diff);
    let m0 = initial(original, is_final);
    let m = run_lines(m0, ls.take(i))->Ok_0;
    lemma_separator_is_not_search_start(ls[i]);
    let mr = EngineState { state: ProcessingState::StateReplace, ..m };
    assert(resolved_range(mr) == resolved_range(m));
    let f = Failure::SearchBlockIncorrectMatch(trim_end_space(m.search));
    assert(resolve(mr) == Err::<EngineState, Failure>(f));
    assert(feed(m, ls[i]) == Err::<EngineState, Failure>(f));
    assert(ls.take(i + 1).drop_last() =~= ls.take(i));
    assert(run_lines(m0, ls.take(i + 1)) == Err::<EngineState, Failure>(f));
    lemma_run_lines_error_persists(m0, ls, i + 1);
}

/// When the pattern occurs exactly at or after `start`, the search takes the
/// leftmost such occurrence and never falls back to the line-based tiers.
pub proof fn lemma_exact_match_takes_precedence(
    original: Seq<char>,
    search: Seq<char>,
    start: int,
    lenient: bool,
    i: int,
)
    requires
        0 <= start <= i,
        occurs_at(original, search, i),
    ensures
        locate(original, search, start, lenient) matches Some((s, e)) && start <= s <= i
            && e == s + search.len() && occurs_at(original, search, s),
{
    lemma_find_from_occurs(original, search, start);
}

/// When the pattern occurs exactly at or after the cursor, the strict engine's
/// separator step resolves it to its leftmost such occurrence and writes the
/// original up to there: the line-based tiers are not consulted.
pub proof fn lemma_exact_match_resolves(m: EngineState, k: int)
    requires
        0 <= m.cursor,
        m.search.len() > 0,
        find_from(m.original, m.search, m.cursor) == Some(k),
    ensures
        resolve(m) == Ok::<EngineState, Failure>(
            EngineState {
                matched: Some((k, k + m.search.len())),
                result: m.result + m.original.subrange(m.cursor, k),
                ..m
            },
        ),
{
    lemma_find_from_occurs(m.original, m.search, m.cursor);
}

/// No line makes the strict engine fail with `ProcessingIncomplete`.
proof fn lemma_run_never_incomplete(m: EngineState, lines: Seq<Seq<char>>)
    ensures
        run_lines(m, lines) != Err::<EngineState, Failure>(Failure::ProcessingIncomplete),
        run_lines(m, lines) matches Ok(m2) ==> m2.is_final == m.is_final,
    decreases lines.len(),
{
    if lines.len() > 0 {
        lemma_run_never_incomplete(m, lines.drop_last());
        if let Ok(m1) = run_lines(m, lines.drop_last()) {
            let l = lines.last();
            assert(step(m1, l, true, m1.pending.len() as int) != Err::<(EngineState, int), Failure>(
                Failure::ProcessingIncomplete,
            ));
        }
    }
}

/// A chunk that is not final never fails with `ProcessingIncomplete`, whatever
/// the diff: a stream may stop anywhere.
pub proof fn lemma_streaming_never_incomplete(diff: Seq<char>, original: Seq<char>)
    ensures
        apply_strict(diff, original, false) != Err::<Seq<char>, Failure>(
            Failure::ProcessingIncomplete,
        ),
{
    lemma_run_never_incomplete(initial(original, false), diff_lines(diff));
}

/// Seven copies of `c`.
pub open spec fn seven(c: char) -> Seq<char> {
    Seq::new(7, |_j: int| c)
}

/// `------- SEARCH`.
pub open spec fn search_start_line() -> Seq<char> {
    seven('-') + search_word()
}

/// `=======`.
pub open spec fn separator_line() -> Seq<char> {
    seven('=')
}

/// `+++++++ REPLACE`.
pub open spec fn replace_end_line() -> Seq<char> {
    seven('+') + replace_word()
}

/// The lines, each followed by a line feed.
pub open spec fn join_lines(ls: Seq<Seq<char>>) -> Seq<char>
    decreases ls.len(),
{
    if ls.len() == 0 {
        Seq::empty()
    } else {
        join_lines(ls.drop_last()) + ls.last().push('\n')
    }
}

/// The lines of a block given as its search lines and its replacement lines.
pub open spec fn block_lines(b: (Seq<Seq<char>>, Seq<Seq<char>>)) -> Seq<Seq<char>> {
    seq![search_start_line()] + b.0 + seq![separator_line()] + b.1 + seq![replace_end_line()]
}

pub open spec fn blocks_lines(bs: Seq<(Seq<Seq<char>>, Seq<Seq<char>>)>) -> Seq<Seq<char>>
    decreases bs.len(),
{
    if bs.len() == 0 {
        Seq::empty()
    } else {
        blocks_lines(bs.drop_last()) + block_lines(bs.last())
    }
}

/// The diff text of the blocks, one after another, every line ended by a line feed.
pub open spec fn render_blocks(bs: Seq<(Seq<Seq<char>>, Seq<Seq<char>>)>) -> Seq<char> {
    join_lines(blocks_lines(bs))
}

/// The same diff without the line feed after its last line.
pub open spec fn render_blocks_open(bs: Seq<(Seq<Seq<char>>, Seq<Seq<char>>)>) -> Seq<char> {
    render_blocks(bs).drop_last()
}

/// What the strict engine makes of blocks found exactly in order: the chained
/// output, then the rest of the original.
pub open spec fn chained_result(original: Seq<char>, bs: Seq<(Seq<Seq<char>>, Seq<Seq<char>>)>) -> Seq<char> {
    let (out, c) = exact_chain(original, bs)->0;
    out + original.subrange(c, original.len() as int)
}

/// A line of a block's body: no line feed in it, and no marker.
pub open spec fn plain_line(l: Seq<char>) -> bool {
    !is_marker(l) && forall|j: int| 0 <= j < l.len() ==> l[j] != '\n'
}

/// A block with a non-empty search part whose lines, like those of its
/// replacement, are plain.
pub open spec fn well_formed_block(b: (Seq<Seq<char>>, Seq<Seq<char>>)) -> bool {
    &&& b.0.len() > 0
    &&& forall|j: int| 0 <= j < b.0.len() ==> plain_line(#[trigger] b.0[j])
    &&& forall|j: int| 0 <= j < b.1.len() ==> plain_line(#[trigger] b.1[j])
}

/// Each block's pattern found exactly, in turn, from the end of the previous
/// match: the output up to the last match and the end of that match.
pub open spec fn exact_chain(original: Seq<char>, bs: Seq<(Seq<Seq<char>>, Seq<Seq<char>>)>) -> Option<
    (Seq<char>, int),
>
    decreases bs.len(),
{
    if bs.len() == 0 {
        Some((Seq::empty(), 0))
    } else {
        match exact_chain(original, bs.drop_last()) {
            Some((out, c)) => {
                let p = join_lines(bs.last().0);
                match find_from(original, p, c) {
                    Some(s) => Some((out + original.subrange(c, s) + join_lines(bs.last().1), s + p.len())),
                    None => None,
                }
            },
            None => None,
        }
    }
}

/// The length of all search patterns: what the exact matches remove.
pub open spec fn pattern_total(bs: Seq<(Seq<Seq<char>>, Seq<Seq<char>>)>) -> int
    decreases bs.len(),
{
    if bs.len() == 0 {
        0
    } else {
        pattern_total(bs.drop_last()) + join_lines(bs.last().0).len()
    }
}

/// The length of all replacement bodies.
pub open spec fn replacement_total(bs: Seq<(Seq<Seq<char>>, Seq<Seq<char>>)>) -> int
    decreases bs.len(),
{
    if bs.len() == 0 {
        0
    } else {
        replacement_total(bs.drop_last()) + join_lines(bs.last().1).len()
    }
}

/// The idle state with an empty pending buffer, after some blocks.
pub open spec fn idle_after(original: Seq<char>, out: Seq<char>, c: int) -> EngineState {
    EngineState {
        original,
        is_final: true,
        state: ProcessingState::Idle,
        pending: Seq::empty(),
        result: out,
        cursor: c,
        search: Seq::empty(),
        matched: None,
    }
}

proof fn lemma_split_append_line(a: Seq<char>, t: Seq<char>)
    requires
        split_lines(a).len() >= 1,
        split_lines(a).last().len() == 0,
        forall|j: int| 0 <= j < t.len() ==> t[j] != '\n',
    ensures
        split_lines(a + t) == split_lines(a).drop_last().push(t),
    decreases t.len(),
{
    lemma_split_lines_nonempty(a);
    if t.len() == 0 {
        assert(a + t =~= a);
        assert(split_lines(a).last() =~= Seq::<char>::empty());
        assert(t =~= Seq::<char>::empty());
        assert(split_lines(a).drop_last().push(t) =~= split_lines(a));
    } else {
        let td = t.drop_last();
        lemma_split_append_line(a, td);
        assert((a + t).drop_last() =~= a + td);
        assert((a + t).last() == t.last());
        assert(td.push(t.last()) =~= t);
        let prev = split_lines(a).drop_last().push(td);
        assert(prev.update(prev.len() - 1, prev.last().push(t.last())) =~= split_lines(a).drop_last().push(t));
    }
}

/// Joining lines and splitting the text again gives the lines back, and an
/// empty line after the last line feed.
pub proof fn lemma_split_join(ls: Seq<Seq<char>>)
    requires
        forall|i: int, j: int| 0 <= i < ls.len() && 0 <= j < ls[i].len() ==> ls[i][j] != '\n',
    ensures
        split_lines(join_lines(ls)) == ls.push(Seq::<char>::empty()),
    decreases ls.len(),
{
    if ls.len() == 0 {
        assert(split_lines(Seq::<char>::empty()) =~= seq![Seq::<char>::empty()]);
        assert(ls.push(Seq::<char>::empty()) =~= seq![Seq::<char>::empty()]);
    } else {
        let d = ls.drop_last();
        let l = ls.last();
        assert forall|i: int, j: int| 0 <= i < d.len() && 0 <= j < d[i].len() implies d[i][j]
            != '\n' by {
            assert(d[i] == ls[i]);
        }
        lemma_split_join(d);
        assert forall|j: int| 0 <= j < l.len() implies l[j] != '\n' by {
            assert(l == ls[ls.len() - 1]);
        }
        lemma_split_lines_nonempty(join_lines(d));
        lemma_split_append_line(join_lines(d), l);
        assert(d.push(Seq::<char>::empty()).drop_last() =~= d);
        let x = join_lines(d) + l;
        assert(join_lines(ls) =~= x.push('\n'));
        assert(x.push('\n').drop_last() =~= x);
        assert(d.push(l) =~= ls);
    }
}

proof fn lemma_no_newline_in_word()
    ensures
        forall|j: int| 0 <= j < search_word().len() ==> search_word()[j] != '\n',
        forall|j: int| 0 <= j < replace_word().len() ==> replace_word()[j] != '\n',
        search_word().len() == 7,
        replace_word().len() == 8,
        search_word()[0] == ' ',
        replace_word()[0] == ' ',
{
    let w = search_word();
    assert(w[0] == ' ' && w[1] == 'S' && w[2] == 'E' && w[3] == 'A' && w[4] == 'R' && w[5] == 'C'
        && w[6] == 'H');
    let v = replace_word();
    assert(v[0] == ' ' && v[1] == 'R' && v[2] == 'E' && v[3] == 'P' && v[4] == 'L' && v[5] == 'A'
        && v[6] == 'C' && v[7] == 'E');
}

/// The canonical marker lines are the markers they stand for, and hold no line feed.
pub proof fn lemma_canonical_markers()
    ensures
        is_search_start(search_start_line()),
        !is_separator(search_start_line()),
        !is_replace_end(search_start_line()),
        is_separator(separator_line()),
        !is_search_start(separator_line()),
        !is_replace_end(separator_line()),
        is_replace_end(replace_end_line()),
        !is_search_start(replace_end_line()),
        !is_separator(replace_end_line()),
        forall|j: int| 0 <= j < search_start_line().len() ==> search_start_line()[j] != '\n',
        forall|j: int| 0 <= j < separator_line().len() ==> separator_line()[j] != '\n',
        forall|j: int| 0 <= j < replace_end_line().len() ==> replace_end_line()[j] != '\n',
{
    lemma_no_newline_in_word();
    lemma_leading_run_of_run(seven('-'), search_word(), '-');
    lemma_leading_run_of_run(seven('='), Seq::empty(), '=');
    lemma_leading_run_of_run(seven('+'), replace_word(), '+');
    assert(search_start_line().skip(7) =~= search_word());
    assert(seven('=') + Seq::<char>::empty() =~= seven('='));
    assert(separator_line().skip(7) =~= Seq::<char>::empty());
    assert(replace_end_line().skip(7) =~= replace_word());
    assert(search_start_line()[0] == '-');
    assert(separator_line()[0] == '=');
    assert(replace_end_line()[0] == '+');
    assert(leading_run(search_start_line(), '=') == 0);
    assert(leading_run(search_start_line(), '<') == 0);
    assert(leading_run(search_start_line(), '+') == 0);
    assert(leading_run(search_start_line(), '>') == 0);
    assert(leading_run(separator_line(), '-') == 0);
    assert(leading_run(separator_line(), '<') == 0);
    assert(leading_run(separator_line(), '+') == 0);
    assert(leading_run(separator_line(), '>') == 0);
    assert(leading_run(replace_end_line(), '-') == 0);
    assert(leading_run(replace_end_line(), '<') == 0);
    assert(leading_run(replace_end_line(), '=') == 0);
    assert(leading_run(replace_end_line(), '>') == 0);
    assert forall|j: int| 0 <= j < search_start_line().len() implies search_start_line()[j]
        != '\n' by {
        if j >= 7 {
            assert(search_start_line()[j] == search_word()[j - 7]);
        }
    }
    assert forall|j: int| 0 <= j < replace_end_line().len() implies replace_end_line()[j]
        != '\n' by {
        if j >= 7 {
            assert(replace_end_line()[j] == replace_word()[j - 7]);
        }
    }
}

/// Running `a` then `b` is running `a + b`.
pub proof fn lemma_run_concat(m: EngineState, a: Seq<Seq<char>>, b: Seq<Seq<char>>)
    ensures
        run_lines(m, a + b) == match run_lines(m, a) {
            Ok(m1) => run_lines(m1, b),
            Err(f) => Err(f),
        },
    decreases b.len(),
{
    if b.len() == 0 {
        assert(a + b =~= a);
    } else {
        lemma_run_concat(m, a, b.drop_last());
        assert((a + b).drop_last() =~= a + b.drop_last());
        assert((a + b).last() == b.last());
    }
}

proof fn lemma_run_search_lines(m: EngineState, ls: Seq<Seq<char>>)
    requires
        m.state == ProcessingState::StateSearch,
        forall|j: int| 0 <= j < ls.len() ==> plain_line(#[trigger] ls[j]),
    ensures
        run_lines(m, ls) == Ok::<EngineState, Failure>(
            EngineState { search: m.search + join_lines(ls), ..m },
        ),
    decreases ls.len(),
{
    if ls.len() == 0 {
        assert(m.search + join_lines(ls) =~= m.search);
    } else {
        let d = ls.drop_last();
        assert forall|j: int| 0 <= j < d.len() implies plain_line(#[trigger] d[j]) by {
            assert(d[j] == ls[j]);
        }
        lemma_run_search_lines(m, d);
        assert(plain_line(ls[ls.len() - 1]));
        assert(m.search + join_lines(d) + ls.last().push('\n') =~= m.search + join_lines(ls));
    }
}

proof fn lemma_run_replace_lines(m: EngineState, ls: Seq<Seq<char>>)
    requires
        m.state == ProcessingState::StateReplace,
        m.matched is Some,
        forall|j: int| 0 <= j < ls.len() ==> plain_line(#[trigger] ls[j]),
    ensures
        run_lines(m, ls) == Ok::<EngineState, Failure>(
            EngineState { result: m.result + join_lines(ls), ..m },
        ),
    decreases ls.len(),
{
    if ls.len() == 0 {
        assert(m.result + join_lines(ls) =~= m.result);
    } else {
        let d = ls.drop_last();
        assert forall|j: int| 0 <= j < d.len() implies plain_line(#[trigger] d[j]) by {
            assert(d[j] == ls[j]);
        }
        lemma_run_replace_lines(m, d);
        assert(plain_line(ls[ls.len() - 1]));
        assert(m.result + join_lines(d) + ls.last().push('\n') =~= m.result + join_lines(ls));
    }
}

proof fn lemma_join_nonempty(ls: Seq<Seq<char>>)
    requires
        ls.len() > 0,
    ensures
        join_lines(ls).len() > 0,
{
}

/// One well-formed block whose pattern occurs exactly at or after the cursor:
/// the original up to the match and the replacement are written, and the cursor
/// moves to the end of the match.
proof fn lemma_run_block(
    original: Seq<char>,
    out: Seq<char>,
    c: int,
    b: (Seq<Seq<char>>, Seq<Seq<char>>),
)
    requires
        0 <= c,
        well_formed_block(b),
        find_from(original, join_lines(b.0), c) is Some,
    ensures
        ({
            let p = join_lines(b.0);
            let s = find_from(original, p, c)->0;
            &&& c <= s
            &&& s + p.len() <= original.len()
            &&& run_lines(idle_after(original, out, c), block_lines(b)) == Ok::<EngineState, Failure>(
                idle_after(original, out + original.subrange(c, s) + join_lines(b.1), s + p.len()),
            )
        }),
{
    let p = join_lines(b.0);
    lemma_find_from_occurs(original, p, c);
    let s = find_from(original, p, c)->0;
    lemma_join_nonempty(b.0);
    let m = idle_after(original, out, c);
    let a1 = seq![search_start_line()];
    let a2 = a1 + b.0;
    let a3 = a2 + seq![separator_line()];
    let a4 = a3 + b.1;
    let a5 = a4 + seq![replace_end_line()];
    assert(block_lines(b) == a5);
    let m1 = EngineState { state: ProcessingState::StateSearch, search: Seq::empty(), ..m };
    lemma_feed_search_start(m);
    lemma_run_one(m, search_start_line());
    lemma_run_concat(m, a1, b.0);
    lemma_run_search_lines(m1, b.0);
    assert(Seq::<char>::empty() + p =~= p);
    let m2 = EngineState { search: p, ..m1 };
    lemma_run_concat(m, a2, seq![separator_line()]);
    let m3 = EngineState {
        state: ProcessingState::StateReplace,
        matched: Some((s, s + p.len())),
        result: out + original.subrange(c, s),
        ..m2
    };
    lemma_feed_separator(m2, s, s + p.len());
    lemma_run_one(m2, separator_line());
    lemma_run_concat(m, a3, b.1);
    lemma_run_replace_lines(m3, b.1);
    let m4 = EngineState { result: m3.result + join_lines(b.1), ..m3 };
    lemma_run_concat(m, a4, seq![replace_end_line()]);
    lemma_feed_replace_end(m4);
    lemma_run_one(m4, replace_end_line());
    assert(closed(m4) == idle_after(
        original,
        out + original.subrange(c, s) + join_lines(b.1),
        s + p.len(),
    ));
}

proof fn lemma_run_one(m: EngineState, l: Seq<char>)
    ensures
        run_lines(m, seq![l]) == feed(m, l),
{
    assert(seq![l].drop_last() =~= Seq::<Seq<char>>::empty());
    assert(seq![l].last() == l);
    assert(run_lines(m, Seq::<Seq<char>>::empty()) == Ok::<EngineState, Failure>(m));
}

proof fn lemma_feed_search_start(m: EngineState)
    requires
        m.state == ProcessingState::Idle,
        m.pending.len() == 0,
    ensures
        feed(m, search_start_line()) == Ok::<EngineState, Failure>(
            EngineState { state: ProcessingState::StateSearch, search: Seq::empty(), ..m },
        ),
{
    lemma_canonical_markers();
    assert(blank_tail(m.pending, 0) == 0);
    assert(m.pending.take(0) =~= m.pending);
}

proof fn lemma_feed_separator(m: EngineState, s: int, e: int)
    requires
        m.state == ProcessingState::StateSearch,
        m.search.len() > 0,
        find_from(m.original, m.search, m.cursor) == Some(s),
        e == s + m.search.len(),
        m.cursor <= s,
    ensures
        feed(m, separator_line()) == Ok::<EngineState, Failure>(
            EngineState {
                state: ProcessingState::StateReplace,
                matched: Some((s, e)),
                result: m.result + m.original.subrange(m.cursor, s),
                ..m
            },
        ),
{
    lemma_canonical_markers();
    let mr = EngineState { state: ProcessingState::StateReplace, ..m };
    assert(resolved_range(mr) == Some((s, e)));
}

proof fn lemma_feed_replace_end(m: EngineState)
    requires
        m.state == ProcessingState::StateReplace,
    ensures
        feed(m, replace_end_line()) == Ok::<EngineState, Failure>(closed(m)),
{
    lemma_canonical_markers();
}

/// Blocks whose patterns are found exactly, in turn, run to the idle state
/// with the chained output.
proof fn lemma_run_blocks(original: Seq<char>, bs: Seq<(Seq<Seq<char>>, Seq<Seq<char>>)>)
    requires
        forall|k: int| 0 <= k < bs.len() ==> well_formed_block(#[trigger] bs[k]),
        exact_chain(original, bs) is Some,
    ensures
        ({
            let (out, c) = exact_chain(original, bs)->0;
            &&& 0 <= c <= original.len()
            &&& out.len() == c - pattern_total(bs) + replacement_total(bs)
            &&& run_lines(idle_after(original, Seq::empty(), 0), blocks_lines(bs)) == Ok::<
                EngineState,
                Failure,
            >(idle_after(original, out, c))
        }),
    decreases bs.len(),
{
    if bs.len() == 0 {
        assert(blocks_lines(bs) =~= Seq::<Seq<char>>::empty());
    } else {
        let d = bs.drop_last();
        assert forall|k: int| 0 <= k < d.len() implies well_formed_block(#[trigger] d[k]) by {
            assert(d[k] == bs[k]);
        }
        lemma_run_blocks(original, d);
        let (out, c) = exact_chain(original, d)->0;
        assert(well_formed_block(bs[bs.len() - 1]));
        lemma_run_block(original, out, c, bs.last());
        lemma_run_concat(idle_after(original, Seq::empty(), 0), blocks_lines(d), block_lines(bs.last()));
    }
}

/// The initial state of a final chunk is the idle state before any block.
proof fn lemma_initial_is_idle(original: Seq<char>)
    ensures
        initial(original, true) == idle_after(original, Seq::empty(), 0),
{
}

/// The diff that well-formed blocks render to is read back as their lines and a
/// last empty line, and runs to the chained output.
proof fn lemma_apply_blocks(original: Seq<char>, bs: Seq<(Seq<Seq<char>>, Seq<Seq<char>>)>)
    requires
        forall|k: int| 0 <= k < bs.len() ==> well_formed_block(#[trigger] bs[k]),
        exact_chain(original, bs) is Some,
    ensures
        ({
            let (out, c) = exact_chain(original, bs)->0;
            apply_strict(render_blocks(bs), original, true) == Ok::<Seq<char>, Failure>(
                out + original.subrange(c, original.len() as int),
            )
        }),
{
    lemma_lines_of_blocks_plain(bs);
    let ls = blocks_lines(bs);
    lemma_split_join(ls);
    let dl = ls.push(Seq::<char>::empty());
    assert(diff_lines(render_blocks(bs)) == dl);
    lemma_run_blocks(original, bs);
    let (out, c) = exact_chain(original, bs)->0;
    let m = idle_after(original, out, c);
    lemma_initial_is_idle(original);
    assert(dl == ls + seq![Seq::<char>::empty()]);
    lemma_run_concat(initial(original, true), ls, seq![Seq::<char>::empty()]);
    assert(leading_run(Seq::<char>::empty(), '-') == 0);
    assert(leading_run(Seq::<char>::empty(), '<') == 0);
    assert(leading_run(Seq::<char>::empty(), '=') == 0);
    assert(leading_run(Seq::<char>::empty(), '+') == 0);
    assert(leading_run(Seq::<char>::empty(), '>') == 0);
    let m1 = EngineState { pending: seq![Seq::<char>::empty()], ..m };
    assert(Seq::<Seq<char>>::empty().push(Seq::<char>::empty()) =~= seq![Seq::<char>::empty()]);
    assert(feed(m, Seq::empty()) == Ok::<EngineState, Failure>(m1));
    lemma_run_one(m, Seq::<char>::empty());
    assert(run_lines(initial(original, true), dl) == Ok::<EngineState, Failure>(m1));
    if c == original.len() {
        assert(out + original.subrange(c, original.len() as int) =~= out);
    }
}

/// The rendered diff without its last line feed runs to the same result.
proof fn lemma_apply_blocks_open(original: Seq<char>, bs: Seq<(Seq<Seq<char>>, Seq<Seq<char>>)>)
    requires
        bs.len() > 0,
        forall|k: int| 0 <= k < bs.len() ==> well_formed_block(#[trigger] bs[k]),
        exact_chain(original, bs) is Some,
    ensures
        apply_strict(render_blocks_open(bs), original, true) == Ok::<Seq<char>, Failure>(
            chained_result(original, bs),
        ),
{
    lemma_lines_of_blocks_plain(bs);
    lemma_canonical_markers();
    let ls = blocks_lines(bs);
    let d = ls.drop_last();
    let l = ls.last();
    let b = bs.last();
    assert(ls == blocks_lines(bs.drop_last()) + block_lines(b));
    assert(l == replace_end_line());
    assert forall|i: int, j: int| 0 <= i < d.len() && 0 <= j < d[i].len() implies d[i][j]
        != '\n' by {
        assert(d[i] == ls[i]);
    }
    lemma_split_join(d);
    lemma_split_lines_nonempty(join_lines(d));
    assert(split_lines(join_lines(d)).last() =~= Seq::<char>::empty());
    lemma_split_append_line(join_lines(d), l);
    assert(d.push(Seq::<char>::empty()).drop_last() =~= d);
    assert(d.push(l) =~= ls);
    assert(render_blocks(bs) =~= (join_lines(d) + l).push('\n'));
    assert(render_blocks_open(bs) =~= join_lines(d) + l);
    assert(split_lines(render_blocks_open(bs)) == ls);
    assert(diff_lines(render_blocks_open(bs)) == ls);
    lemma_run_blocks(original, bs);
    lemma_initial_is_idle(original);
    let (out, c) = exact_chain(original, bs)->0;
    if c == original.len() {
        assert(out + original.subrange(c, original.len() as int) =~= out);
    }
}

/// Every line of rendered blocks is free of line feeds.
proof fn lemma_lines_of_blocks_plain(bs: Seq<(Seq<Seq<char>>, Seq<Seq<char>>)>)
    requires
        forall|k: int| 0 <= k < bs.len() ==> well_formed_block(#[trigger] bs[k]),
    ensures
        forall|i: int, j: int|
            0 <= i < blocks_lines(bs).len() && 0 <= j < blocks_lines(bs)[i].len()
                ==> blocks_lines(bs)[i][j] != '\n',
    decreases bs.len(),
{
    if bs.len() > 0 {
        let d = bs.drop_last();
        assert forall|k: int| 0 <= k < d.len() implies well_formed_block(#[trigger] d[k]) by {
            assert(d[k] == bs[k]);
        }
        lemma_lines_of_blocks_plain(d);
        lemma_canonical_markers();
        let b = bs.last();
        assert(well_formed_block(bs[bs.len() - 1]));
        let bl = block_lines(b);
        let a = blocks_lines(d);
        assert forall|i: int, j: int|
            0 <= i < blocks_lines(bs).len() && 0 <= j < blocks_lines(bs)[i].len() implies blocks_lines(
            bs,
        )[i][j] != '\n' by {
            if i >= a.len() {
                let k = i - a.len();
                assert(blocks_lines(bs)[i] == bl[k]);
                if 1 <= k < 1 + b.0.len() {
                    assert(bl[k] == b.0[k - 1]);
                    assert(plain_line(b.0[k - 1]));
                } else if 2 + b.0.len() <= k < 2 + b.0.len() + b.1.len() {
                    assert(bl[k] == b.1[k - 2 - b.0.len()]);
                    assert(plain_line(b.1[k - 2 - b.0.len()]));
                }
            } else {
                assert(blocks_lines(bs)[i] == a[i]);
            }
        }
    }
}

/// Well-formed blocks whose search patterns occur in the original in order
/// (each found exactly from the end of the previous match) apply without error,
/// whether or not the diff ends in a line feed. The result is the original with
/// each matched range replaced by its block's body, so it is as long as the
/// original less the matched text plus the replacement bodies.
pub proof fn lemma_in_order_blocks_apply(original: Seq<char>, bs: Seq<(Seq<Seq<char>>, Seq<Seq<char>>)>)
    requires
        forall|k: int| 0 <= k < bs.len() ==> well_formed_block(#[trigger] bs[k]),
        exact_chain(original, bs) is Some,
    ensures
        apply_strict(render_blocks(bs), original, true) == Ok::<Seq<char>, Failure>(
            chained_result(original, bs),
        ),
        bs.len() > 0 ==> apply_strict(render_blocks_open(bs), original, true) == Ok::<
            Seq<char>,
            Failure,
        >(chained_result(original, bs)),
        chained_result(original, bs).len() == original.len() - pattern_total(bs)
            + replacement_total(bs),
{
    lemma_apply_blocks(original, bs);
    if bs.len() > 0 {
        lemma_apply_blocks_open(original, bs);
    }
    lemma_run_blocks(original, bs);
}

/// With blocks whose replacement equals their search part, found exactly in
/// order, the output is the original, character for character, whether or not
/// the diff ends in a line feed.
pub proof fn lemma_identity_blocks_keep_original(
    original: Seq<char>,
    bs: Seq<(Seq<Seq<char>>, Seq<Seq<char>>)>,
)
    requires
        forall|k: int| 0 <= k < bs.len() ==> well_formed_block(#[trigger] bs[k]),
        forall|k: int| 0 <= k < bs.len() ==> (#[trigger] bs[k]).0 == bs[k].1,
        exact_chain(original, bs) is Some,
    ensures
        apply_strict(render_blocks(bs), original, true) == Ok::<Seq<char>, Failure>(original),
        bs.len() > 0 ==> apply_strict(render_blocks_open(bs), original, true) == Ok::<
            Seq<char>,
            Failure,
        >(original),
{
    lemma_in_order_blocks_apply(original, bs);
    lemma_identity_chain(original, bs);
    let (out, c) = exact_chain(original, bs)->0;
    assert(original.subrange(0, c) + original.subrange(c, original.len() as int) =~= original);
}

proof fn lemma_identity_chain(original: Seq<char>, bs: Seq<(Seq<Seq<char>>, Seq<Seq<char>>)>)
    requires
        forall|k: int| 0 <= k < bs.len() ==> (#[trigger] bs[k]).0 == bs[k].1,
        exact_chain(original, bs) is Some,
    ensures
        ({
            let (out, c) = exact_chain(original, bs)->0;
            0 <= c <= original.len() && out == original.subrange(0, c)
        }),
    decreases bs.len(),
{
    if bs.len() == 0 {
        assert(original.subrange(0, 0) =~= Seq::<char>::empty());
    } else {
        let d = bs.drop_last();
        assert forall|k: int| 0 <= k < d.len() implies (#[trigger] d[k]).0 == d[k].1 by {
            assert(d[k] == bs[k]);
        }
        lemma_identity_chain(original, d);
        let (out, c) = exact_chain(original, d)->0;
        let b = bs.last();
        assert(b == bs[bs.len() - 1]);
        let p = join_lines(b.0);
        lemma_find_from_occurs(original, p, c);
        let s = find_from(original, p, c)->0;
        assert(original.subrange(0, c) + original.subrange(c, s) + original.subrange(s, s + p.len())
            =~= original.subrange(0, s + p.len()));
    }
}

/// How the rendered diff is read back: the block lines and, when it ends in a
/// line feed, one empty line after them.
proof fn lemma_diff_lines_of_render(bs: Seq<(Seq<Seq<char>>, Seq<Seq<char>>)>)
    requires
        forall|k: int| 0 <= k < bs.len() ==> well_formed_block(#[trigger] bs[k]),
    ensures
        diff_lines(render_blocks(bs)) == blocks_lines(bs).push(Seq::<char>::empty()),
        bs.len() > 0 ==> diff_lines(render_blocks_open(bs)) == blocks_lines(bs),
{
    lemma_lines_of_blocks_plain(bs);
    lemma_canonical_markers();
    let ls = blocks_lines(bs);
    lemma_split_join(ls);
    assert(diff_lines(render_blocks(bs)) == ls.push(Seq::<char>::empty()));
    if bs.len() > 0 {
        let d = ls.drop_last();
        let l = ls.last();
        assert(ls == blocks_lines(bs.drop_last()) + block_lines(bs.last()));
        assert(l == replace_end_line());
        assert forall|i: int, j: int| 0 <= i < d.len() && 0 <= j < d[i].len() implies d[i][j]
            != '\n' by {
            assert(d[i] == ls[i]);
        }
        lemma_split_join(d);
        lemma_split_lines_nonempty(join_lines(d));
        assert(split_lines(join_lines(d)).last() =~= Seq::<char>::empty());
        lemma_split_append_line(join_lines(d), l);
        assert(d.push(Seq::<char>::empty()).drop_last() =~= d);
        assert(d.push(l) =~= ls);
        assert(render_blocks(bs) =~= (join_lines(d) + l).push('\n'));
        assert(render_blocks_open(bs) =~= join_lines(d) + l);
    }
}

/// The lenient engine between blocks whose replacements leave the original as
/// it is: idle at offset `c`, with replacements in order that rebuild
/// `original[0..c]`.
pub open spec fn lenient_identity_at(original: Seq<char>, m: LenientState, c: int) -> bool {
    &&& !m.in_search
    &&& !m.in_replace
    &&& m.matched is None
    &&& !m.out_of_order
    &&& m.cursor == c
    &&& 0 <= c <= original.len()
    &&& sorted_by_start(m.replacements)
    &&& forall|j: int| 0 <= j < m.replacements.len() ==> (#[trigger] m.replacements[j]).0 <= c
    &&& assembled(original, m.replacements) == (original.subrange(0, c), c)
}

pub proof fn lemma_lenient_concat(original: Seq<char>, m: LenientState, a: Seq<Seq<char>>, b: Seq<Seq<char>>)
    ensures
        lenient_run(original, m, a + b) == match lenient_run(original, m, a) {
            Ok(m1) => lenient_run(original, m1, b),
            Err(f) => Err(f),
        },
    decreases b.len(),
{
    if b.len() == 0 {
        assert(a + b =~= a);
    } else {
        lemma_lenient_concat(original, m, a, b.drop_last());
        assert((a + b).drop_last() =~= a + b.drop_last());
        assert((a + b).last() == b.last());
    }
}

proof fn lemma_lenient_one(original: Seq<char>, m: LenientState, l: Seq<char>)
    ensures
        lenient_run(original, m, seq![l]) == lenient_step(original, m, l),
{
    assert(seq![l].drop_last() =~= Seq::<Seq<char>>::empty());
    assert(seq![l].last() == l);
    assert(lenient_run(original, m, Seq::<Seq<char>>::empty()) == Ok::<LenientState, Failure>(m));
}

proof fn lemma_lenient_search_lines(original: Seq<char>, m: LenientState, ls: Seq<Seq<char>>)
    requires
        m.in_search,
        forall|j: int| 0 <= j < ls.len() ==> plain_line(#[trigger] ls[j]),
    ensures
        lenient_run(original, m, ls) == Ok::<LenientState, Failure>(
            LenientState { search: m.search + join_lines(ls), ..m },
        ),
    decreases ls.len(),
{
    if ls.len() == 0 {
        assert(m.search + join_lines(ls) =~= m.search);
    } else {
        let d = ls.drop_last();
        assert forall|j: int| 0 <= j < d.len() implies plain_line(#[trigger] d[j]) by {
            assert(d[j] == ls[j]);
        }
        lemma_lenient_search_lines(original, m, d);
        assert(plain_line(ls[ls.len() - 1]));
        assert(m.search + join_lines(d) + ls.last().push('\n') =~= m.search + join_lines(ls));
    }
}

proof fn lemma_lenient_replace_lines(original: Seq<char>, m: LenientState, ls: Seq<Seq<char>>)
    requires
        !m.in_search,
        m.in_replace,
        m.matched is Some,
        !m.out_of_order,
        forall|j: int| 0 <= j < ls.len() ==> plain_line(#[trigger] ls[j]),
    ensures
        lenient_run(original, m, ls) == Ok::<LenientState, Failure>(
            LenientState {
                replace: m.replace + join_lines(ls),
                result: m.result + join_lines(ls),
                ..m
            },
        ),
    decreases ls.len(),
{
    if ls.len() == 0 {
        assert(m.replace + join_lines(ls) =~= m.replace);
        assert(m.result + join_lines(ls) =~= m.result);
    } else {
        let d = ls.drop_last();
        assert forall|j: int| 0 <= j < d.len() implies plain_line(#[trigger] d[j]) by {
            assert(d[j] == ls[j]);
        }
        lemma_lenient_replace_lines(original, m, d);
        assert(plain_line(ls[ls.len() - 1]));
        assert(m.replace + join_lines(d) + ls.last().push('\n') =~= m.replace + join_lines(ls));
        assert(m.result + join_lines(d) + ls.last().push('\n') =~= m.result + join_lines(ls));
    }
}

proof fn lemma_lenient_identity_block(
    original: Seq<char>,
    m: LenientState,
    c: int,
    b: (Seq<Seq<char>>, Seq<Seq<char>>),
)
    requires
        lenient_identity_at(original, m, c),
        well_formed_block(b),
        b.0 == b.1,
        find_from(original, join_lines(b.0), c) is Some,
    ensures
        ({
            let p = join_lines(b.0);
            let s = find_from(original, p, c)->0;
            lenient_run(original, m, block_lines(b)) matches Ok(m2) && lenient_identity_at(
                original,
                m2,
                s + p.len(),
            )
        }),
{
    let p = join_lines(b.0);
    lemma_find_from_occurs(original, p, c);
    let s = find_from(original, p, c)->0;
    let e = s + p.len();
    lemma_join_nonempty(b.0);
    lemma_canonical_markers();
    let a1 = seq![search_start_line()];
    let a2 = a1 + b.0;
    let a3 = a2 + seq![separator_line()];
    let a4 = a3 + b.1;
    let a5 = a4 + seq![replace_end_line()];
    assert(block_lines(b) == a5);
    assert(search_start_line()[0] == '-');
    assert(!malformed_outside(search_start_line()));
    let m1 = LenientState { in_search: true, search: Seq::empty(), replace: Seq::empty(), ..m };
    lemma_lenient_one(original, m, search_start_line());
    lemma_lenient_concat(original, m, a1, b.0);
    lemma_lenient_search_lines(original, m1, b.0);
    assert(Seq::<char>::empty() + p =~= p);
    let m2 = LenientState { search: p, ..m1 };
    lemma_lenient_concat(original, m, a2, seq![separator_line()]);
    assert(lenient_range(original, p, c) == Some((s, e)));
    let m3 = LenientState {
        in_search: false,
        in_replace: true,
        matched: Some((s, e)),
        out_of_order: false,
        result: m2.result + original.subrange(c, s),
        ..m2
    };
    assert(lenient_step(original, m2, separator_line()) == Ok::<LenientState, Failure>(m3));
    lemma_lenient_one(original, m2, separator_line());
    lemma_lenient_concat(original, m, a3, b.1);
    lemma_lenient_replace_lines(original, m3, b.1);
    let m4 = LenientState {
        replace: m3.replace + join_lines(b.1),
        result: m3.result + join_lines(b.1),
        ..m3
    };
    lemma_lenient_concat(original, m, a4, seq![replace_end_line()]);
    assert(lenient_step(original, m4, replace_end_line()) == Ok::<LenientState, Failure>(
        committed(m4),
    ));
    lemma_lenient_one(original, m4, replace_end_line());
    let m5 = committed(m4);
    assert(lenient_run(original, m, block_lines(b)) == Ok::<LenientState, Failure>(m5));
    // the new replacement, `(s, e, p)`, rebuilds `original[0..e]`
    assert(Seq::<char>::empty() + p =~= p);
    let reps = m.replacements;
    let x = (s, e, p);
    assert(m5.replacements == reps.push(x));
    assert(reps.push(x).drop_last() =~= reps);
    assert(piece(original, c, s) == original.subrange(c, s)) by {
        if c == s {
            assert(original.subrange(c, s) =~= Seq::<char>::empty());
        }
    }
    assert(original.subrange(0, c) + original.subrange(c, s) + p =~= original.subrange(0, e));
    assert(assembled(original, reps.push(x)) == (original.subrange(0, e), e));
    assert forall|i: int, j: int| 0 <= i < j < m5.replacements.len() implies (
    #[trigger] m5.replacements[i]).0 <= (#[trigger] m5.replacements[j]).0 by {
        if j < reps.len() {
            assert(reps[i].0 <= reps[j].0);
        } else {
            assert(reps[i].0 <= c);
        }
    }
    assert forall|j: int| 0 <= j < m5.replacements.len() implies (
    #[trigger] m5.replacements[j]).0 <= e by {
        if j < reps.len() {
            assert(reps[j].0 <= c);
        }
    }
}

proof fn lemma_lenient_identity_blocks(original: Seq<char>, bs: Seq<(Seq<Seq<char>>, Seq<Seq<char>>)>)
    requires
        forall|k: int| 0 <= k < bs.len() ==> well_formed_block(#[trigger] bs[k]),
        forall|k: int| 0 <= k < bs.len() ==> (#[trigger] bs[k]).0 == bs[k].1,
        exact_chain(original, bs) is Some,
    ensures
        lenient_run(original, lenient_initial(), blocks_lines(bs)) matches Ok(m)
            && lenient_identity_at(original, m, (exact_chain(original, bs)->0).1),
    decreases bs.len(),
{
    if bs.len() == 0 {
        assert(blocks_lines(bs) =~= Seq::<Seq<char>>::empty());
        assert(original.subrange(0, 0) =~= Seq::<char>::empty());
    } else {
        let d = bs.drop_last();
        assert forall|k: int| 0 <= k < d.len() implies well_formed_block(#[trigger] d[k]) by {
            assert(d[k] == bs[k]);
        }
        assert forall|k: int| 0 <= k < d.len() implies (#[trigger] d[k]).0 == d[k].1 by {
            assert(d[k] == bs[k]);
        }
        lemma_lenient_identity_blocks(original, d);
        let m = lenient_run(original, lenient_initial(), blocks_lines(d))->Ok_0;
        let c = (exact_chain(original, d)->0).1;
        assert(well_formed_block(bs[bs.len() - 1]));
        assert(bs[bs.len() - 1].0 == bs[bs.len() - 1].1);
        lemma_lenient_identity_block(original, m, c, bs.last());
        lemma_lenient_concat(original, lenient_initial(), blocks_lines(d), block_lines(bs.last()));
    }
}

proof fn lemma_sort_sorted_is_identity(rs: Seq<(int, int, Seq<char>)>)
    requires
        sorted_by_start(rs),
    ensures
        sort_by_start(rs) == rs,
    decreases rs.len(),
{
    if rs.len() > 0 {
        let d = rs.drop_last();
        assert forall|i: int, j: int| 0 <= i < j < d.len() implies (#[trigger] d[i]).0 <= (
        #[trigger] d[j]).0 by {
            assert(rs[i].0 <= rs[j].0);
        }
        lemma_sort_sorted_is_identity(d);
        if d.len() > 0 {
            assert(rs[d.len() - 1].0 <= rs[rs.len() - 1].0);
        }
        assert(d.push(rs.last()) =~= rs);
    }
}

/// The lenient engine too gives back the original, character for character,
/// for blocks whose replacement equals their search part, found exactly in
/// order, whether or not the diff ends in a line feed.
pub proof fn lemma_lenient_identity_blocks_keep_original(
    original: Seq<char>,
    bs: Seq<(Seq<Seq<char>>, Seq<Seq<char>>)>,
)
    requires
        forall|k: int| 0 <= k < bs.len() ==> well_formed_block(#[trigger] bs[k]),
        forall|k: int| 0 <= k < bs.len() ==> (#[trigger] bs[k]).0 == bs[k].1,
        exact_chain(original, bs) is Some,
    ensures
        apply_lenient(render_blocks(bs), original, true) == Ok::<Seq<char>, Failure>(original),
        bs.len() > 0 ==> apply_lenient(render_blocks_open(bs), original, true) == Ok::<
            Seq<char>,
            Failure,
        >(original),
{
    lemma_diff_lines_of_render(bs);
    lemma_lenient_identity_blocks(original, bs);
    let ls = blocks_lines(bs);
    let m = lenient_run(original, lenient_initial(), ls)->Ok_0;
    let c = (exact_chain(original, bs)->0).1;
    lemma_sort_sorted_is_identity(m.replacements);
    assert(piece(original, c, original.len() as int) == original.subrange(c, original.len() as int))
        by {
        if c == original.len() {
            assert(original.subrange(c, c) =~= Seq::<char>::empty());
        }
    }
    assert(original.subrange(0, c) + original.subrange(c, original.len() as int) =~= original);
    assert(lenient_finish(original, m, true) == original);
    // the empty line after the last line feed changes nothing
    lemma_lenient_concat(original, lenient_initial(), ls, seq![Seq::<char>::empty()]);
    lemma_lenient_one(original, m, Seq::<char>::empty());
    assert(!malformed_outside(Seq::<char>::empty()));
    assert(leading_run(Seq::<char>::empty(), '-') == 0);
    assert(leading_run(Seq::<char>::empty(), '<') == 0);
    assert(leading_run(Seq::<char>::empty(), '=') == 0);
    assert(leading_run(Seq::<char>::empty(), '+') == 0);
    assert(leading_run(Seq::<char>::empty(), '>') == 0);
    assert(lenient_step(original, m, Seq::<char>::empty()) == Ok::<LenientState, Failure>(m));
    assert(ls.push(Seq::<char>::empty()) == ls + seq![Seq::<char>::empty()]);
}

} // verus!
