//! The three-tier search for a pattern in the original text: exact, line-trimmed,
//! and anchored on the first and last lines.
use vstd::prelude::*;
use crate::text::{
    split_lines, trim, views, split_text_lines, trimmed_equal, lemma_split_lines_nonempty,
};

verus! {

/// `pat` occurs in `text` at position `i`.
pub open spec fn occurs_at(text: Seq<char>, pat: Seq<char>, i: int) -> bool {
    0 <= i && i + pat.len() <= text.len() && text.subrange(i, i + pat.len()) == pat
}

/// The leftmost position at or after `from` where `pat` occurs in `text`.
pub open spec fn find_from(text: Seq<char>, pat: Seq<char>, from: int) -> Option<int>
    decreases text.len() + 1 - from,
{
    if from < 0 || from + pat.len() > text.len() {
        None
    } else if occurs_at(text, pat, from) {
        Some(from)
    } else {
        find_from(text, pat, from + 1)
    }
}

/// Where line `i` starts: the lengths of the lines before it, each with its line feed.
pub open spec fn line_offset(lines: Seq<Seq<char>>, i: int) -> int
    decreases i,
{
    if i <= 0 {
        0
    } else {
        line_offset(lines, i - 1) + lines[i - 1].len() + 1
    }
}

/// The first line, counting from line `s`, that starts at or after offset `start`;
/// the number of lines if there is none.
pub open spec fn start_line_from(lines: Seq<Seq<char>>, start: int, s: int) -> int
    decreases lines.len() - s,
{
    if 0 <= s < lines.len() && line_offset(lines, s) < start {
        start_line_from(lines, start, s + 1)
    } else {
        s
    }
}

/// The lines of a search pattern, without the empty line after its last line feed.
pub open spec fn pattern_lines(search: Seq<char>) -> Seq<Seq<char>> {
    let ls = split_lines(search);
    if ls.len() > 0 && ls.last().len() == 0 {
        ls.drop_last()
    } else {
        ls
    }
}

/// Each pattern line, trimmed, equals the original line at `i` onward, trimmed.
pub open spec fn lines_match_trimmed(orig: Seq<Seq<char>>, pat: Seq<Seq<char>>, i: int) -> bool {
    &&& 0 <= i
    &&& i + pat.len() <= orig.len()
    &&& forall|j: int| 0 <= j < pat.len() ==> trim(#[trigger] orig[i + j]) == trim(pat[j])
}

/// The first and last pattern lines, trimmed, equal the original lines at `i` and
/// `i + len - 1`, trimmed.
pub open spec fn anchors_match(orig: Seq<Seq<char>>, pat: Seq<Seq<char>>, i: int) -> bool {
    &&& 0 <= i
    &&& pat.len() > 0
    &&& i + pat.len() <= orig.len()
    &&& trim(orig[i]) == trim(pat[0])
    &&& trim(orig[i + pat.len() - 1]) == trim(pat[pat.len() - 1])
}

/// The first line index at or after `i` where the trimmed lines match.
pub open spec fn first_trimmed_match(orig: Seq<Seq<char>>, pat: Seq<Seq<char>>, i: int) -> Option<
    int,
>
    decreases orig.len() + 1 - i,
{
    if i < 0 || i + pat.len() > orig.len() {
        None
    } else if lines_match_trimmed(orig, pat, i) {
        Some(i)
    } else {
        first_trimmed_match(orig, pat, i + 1)
    }
}

/// The first line index at or after `i` where the anchors match.
pub open spec fn first_anchor_match(orig: Seq<Seq<char>>, pat: Seq<Seq<char>>, i: int) -> Option<
    int,
>
    decreases orig.len() + 1 - i,
{
    if i < 0 || i + pat.len() > orig.len() {
        None
    } else if anchors_match(orig, pat, i) {
        Some(i)
    } else {
        first_anchor_match(orig, pat, i + 1)
    }
}

/// Where a match that covers the lines before line `e` ends. The strict engine
/// counts a line feed after every matched line, also after the last line of the
/// text; the lenient engine does not count one after the last line.
pub open spec fn match_end(orig: Seq<Seq<char>>, e: int, lenient: bool) -> int {
    if lenient && e == orig.len() {
        line_offset(orig, e) - 1
    } else {
        line_offset(orig, e)
    }
}

/// The second tier: a run of original lines that equal the pattern lines once
/// both are trimmed, at or after the line where `start` falls.
pub open spec fn line_trimmed_match(original: Seq<char>, search: Seq<char>, start: int, lenient: bool) -> Option<(int, int)> {
    let ol = split_lines(original);
    let pl = pattern_lines(search);
    if pl.len() == 0 {
        None
    } else {
        match first_trimmed_match(ol, pl, start_line_from(ol, start, 0)) {
            Some(i) => Some((line_offset(ol, i), match_end(ol, i + pl.len(), lenient))),
            None => None,
        }
    }
}

/// The third tier, for patterns of three lines or more (counted before the
/// empty line after the last line feed is dropped): a run of original lines
/// whose first and last lines equal those of the pattern once trimmed.
pub open spec fn block_anchor_match(original: Seq<char>, search: Seq<char>, start: int, lenient: bool) -> Option<(int, int)> {
    let ol = split_lines(original);
    let pl = pattern_lines(search);
    if split_lines(search).len() < 3 {
        None
    } else {
        match first_anchor_match(ol, pl, start_line_from(ol, start, 0)) {
            Some(i) => Some((line_offset(ol, i), match_end(ol, i + pl.len(), lenient))),
            None => None,
        }
    }
}

/// The match of a non-empty search pattern at or after `start`: the exact
/// occurrence if there is one, else the line-trimmed match, else the anchored one.
pub open spec fn locate(original: Seq<char>, search: Seq<char>, start: int, lenient: bool) -> Option<(int, int)> {
    match find_from(original, search, start) {
        Some(i) => Some((i, i + search.len())),
        None => match line_trimmed_match(original, search, start, lenient) {
            Some(r) => Some(r),
            None => block_anchor_match(original, search, start, lenient),
        },
    }
}

pub proof fn lemma_line_offset_monotone(lines: Seq<Seq<char>>, i: int, j: int)
    requires
        i <= j,
    ensures
        line_offset(lines, i) <= line_offset(lines, j),
    decreases j - i,
{
    if i < j {
        lemma_line_offset_monotone(lines, i, j - 1);
    }
}

proof fn lemma_line_offset_prefix(a: Seq<Seq<char>>, b: Seq<Seq<char>>, i: int)
    requires
        i <= a.len(),
        i <= b.len(),
        forall|j: int| 0 <= j < i ==> a[j] == b[j],
    ensures
        line_offset(a, i) == line_offset(b, i),
    decreases i,
{
    if i > 0 {
        lemma_line_offset_prefix(a, b, i - 1);
    }
}

/// All lines of a text, each with a line feed, are one character longer than the text.
pub proof fn lemma_line_offset_total(s: Seq<char>)
    ensures
        line_offset(split_lines(s), split_lines(s).len() as int) == s.len() + 1,
    decreases s.len(),
{
    lemma_split_lines_nonempty(s);
    if s.len() > 0 {
        let prev = split_lines(s.drop_last());
        lemma_line_offset_total(s.drop_last());
        lemma_split_lines_nonempty(s.drop_last());
        let cur = split_lines(s);
        let m = prev.len() as int;
        if s.last() == '\n' {
            lemma_line_offset_prefix(cur, prev, m);
            assert(cur.len() == m + 1);
            assert(cur[m].len() == 0);
            assert(line_offset(cur, m + 1) == line_offset(cur, m) + cur[m].len() + 1);
            assert(line_offset(cur, cur.len() as int) == s.len() + 1);
        } else {
            lemma_line_offset_prefix(cur, prev, m - 1);
            assert(cur.len() == m);
            assert(cur[m - 1].len() == prev[m - 1].len() + 1);
            assert(line_offset(cur, m) == line_offset(cur, m - 1) + cur[m - 1].len() + 1);
            assert(line_offset(prev, m) == line_offset(prev, m - 1) + prev[m - 1].len() + 1);
            assert(line_offset(cur, cur.len() as int) == s.len() + 1);
        }
    } else {
        let ls = split_lines(s);
        assert(ls.len() == 1);
        assert(line_offset(ls, 1) == line_offset(ls, 0) + ls[0].len() + 1);
    }
}

/// Every line of a text starts within the text.
pub proof fn lemma_line_offset_bound(s: Seq<char>, i: int)
    requires
        0 <= i < split_lines(s).len(),
    ensures
        line_offset(split_lines(s), i) <= s.len(),
        line_offset(split_lines(s), i + 1) <= s.len() + 1,
{
    lemma_line_offset_total(s);
    lemma_line_offset_monotone(split_lines(s), i + 1, split_lines(s).len() as int);
}

proof fn lemma_start_line(lines: Seq<Seq<char>>, start: int, s: int)
    requires
        0 <= s,
    ensures
        s <= start_line_from(lines, start, s),
        start_line_from(lines, start, s) < lines.len() ==> line_offset(
            lines,
            start_line_from(lines, start, s),
        ) >= start,
    decreases lines.len() - s,
{
    if 0 <= s < lines.len() && line_offset(lines, s) < start {
        lemma_start_line(lines, start, s + 1);
    }
}

proof fn lemma_first_trimmed(orig: Seq<Seq<char>>, pat: Seq<Seq<char>>, i: int)
    ensures
        first_trimmed_match(orig, pat, i) matches Some(j) ==> i <= j && lines_match_trimmed(
            orig,
            pat,
            j,
        ),
    decreases orig.len() + 1 - i,
{
    if !(i < 0 || i + pat.len() > orig.len()) && !lines_match_trimmed(orig, pat, i) {
        lemma_first_trimmed(orig, pat, i + 1);
    }
}

proof fn lemma_first_anchor(orig: Seq<Seq<char>>, pat: Seq<Seq<char>>, i: int)
    ensures
        first_anchor_match(orig, pat, i) matches Some(j) ==> i <= j && anchors_match(orig, pat, j),
    decreases orig.len() + 1 - i,
{
    if !(i < 0 || i + pat.len() > orig.len()) && !anchors_match(orig, pat, i) {
        lemma_first_anchor(orig, pat, i + 1);
    }
}

/// A match over lines `[j, j + k)` of the original, `k >= 1`, lies within it, and
/// starts at or after `start` when `j` is at or after the line where `start` falls.
proof fn lemma_line_range_bounds(original: Seq<char>, start: int, j: int, k: int, lenient: bool)
    requires
        0 <= start,
        start_line_from(split_lines(original), start, 0) <= j,
        k >= 1,
        j + k <= split_lines(original).len(),
    ensures
        start <= line_offset(split_lines(original), j) <= original.len(),
        line_offset(split_lines(original), j) <= match_end(split_lines(original), j + k, lenient),
        match_end(split_lines(original), j + k, lenient) <= original.len() + 1,
        lenient ==> match_end(split_lines(original), j + k, lenient) <= original.len(),
{
    let ol = split_lines(original);
    lemma_start_line(ol, start, 0);
    lemma_line_offset_monotone(ol, start_line_from(ol, start, 0), j);
    lemma_line_offset_bound(original, j);
    lemma_line_offset_monotone(ol, j, j + k);
    lemma_line_offset_monotone(ol, j + k, ol.len() as int);
    lemma_line_offset_total(original);
    if j + k < ol.len() {
        lemma_line_offset_bound(original, j + k);
    }
}

/// A match that `locate` gives lies within the original, at or after `start`.
pub proof fn lemma_locate_bounds(original: Seq<char>, search: Seq<char>, start: int, lenient: bool)
    requires
        0 <= start,
    ensures
        locate(original, search, start, lenient) matches Some((s, e)) ==> start <= s
            <= original.len() && s <= e <= original.len() + 1 && (lenient ==> e
            <= original.len()),
{
    lemma_find_from_occurs(original, search, start);
    let ol = split_lines(original);
    let pl = pattern_lines(search);
    let sl = start_line_from(ol, start, 0);
    lemma_first_trimmed(ol, pl, sl);
    lemma_first_anchor(ol, pl, sl);
    if find_from(original, search, start) is None {
        if line_trimmed_match(original, search, start, lenient) is Some {
            let j = first_trimmed_match(ol, pl, sl)->0;
            lemma_line_range_bounds(original, start, j, pl.len() as int, lenient);
        } else if block_anchor_match(original, search, start, lenient) is Some {
            let j = first_anchor_match(ol, pl, sl)->0;
            lemma_line_range_bounds(original, start, j, pl.len() as int, lenient);
        }
    }
}

/// The leftmost exact occurrence of `pat` in `text` at or after `from`.
pub fn find_exact(text: &Vec<char>, pat: &Vec<char>, from: usize) -> (r: Option<usize>)
    requires
        pat.len() > 0,
    ensures
        match r {
            Some(i) => find_from(text@, pat@, from as int) == Some(i as int),
            None => find_from(text@, pat@, from as int) is None,
        },
{
    let n = text.len();
    let m = pat.len();
    if m > n {
        return None;
    }
    let mut i: usize = from;
    while i <= n - m
        invariant
            0 < m <= n,
            n == text.len(),
            m == pat.len(),
            from <= i,
            find_from(text@, pat@, from as int) == find_from(text@, pat@, i as int),
        decreases n + 1 - i,
    {
        let mut j: usize = 0;
        let mut same = true;
        while j < m
            invariant
                i + m <= n == text.len(),
                m == pat.len(),
                j <= m,
                same ==> text@.subrange(i as int, i + j) == pat@.take(j as int),
                !same ==> !occurs_at(text@, pat@, i as int),
            decreases m - j,
        {
            if same {
                if text[i + j] != pat[j] {
                    proof {
                        assert(text@.subrange(i as int, i + m)[j as int] != pat@[j as int]);
                    }
                    same = false;
                } else {
                    proof {
                        assert(text@.subrange(i as int, i + j + 1) =~= text@.subrange(
                            i as int,
                            i + j,
                        ).push(text@[i + j]));
                        assert(pat@.take(j + 1) =~= pat@.take(j as int).push(pat@[j as int]));
                    }
                }
            }
            j = j + 1;
        }
        if same {
            proof {
                assert(pat@.take(m as int) =~= pat@);
            }
            return Some(i);
        }
        i = i + 1;
    }
    None
}

/// The line where offset `start` falls, as `start_line_from` gives it, and where it starts.
fn start_line(lines: &Vec<Vec<char>>, start: usize, total: usize) -> (r: usize)
    requires
        line_offset(views(lines@), lines.len() as int) == total + 1,
        total < usize::MAX,
    ensures
        r == start_line_from(views(lines@), start as int, 0),
        r <= lines.len(),
{
    let ghost ls = views(lines@);
    let mut s: usize = 0;
    let mut cur: usize = 0;
    while cur < start && s < lines.len()
        invariant
            ls == views(lines@),
            line_offset(ls, lines.len() as int) == total + 1,
            total < usize::MAX,
            s <= lines.len(),
            cur == line_offset(ls, s as int),
            start_line_from(ls, start as int, 0) == start_line_from(ls, start as int, s as int),
        decreases lines.len() - s,
    {
        proof {
            lemma_line_offset_monotone(ls, s + 1, lines.len() as int);
        }
        cur = cur + lines[s].len() + 1;
        s = s + 1;
    }
    s
}

/// Where line `i` starts.
fn offset_of_line(lines: &Vec<Vec<char>>, i: usize, total: usize) -> (r: usize)
    requires
        i <= lines.len(),
        line_offset(views(lines@), lines.len() as int) == total + 1,
        total < usize::MAX,
    ensures
        r == line_offset(views(lines@), i as int),
{
    let ghost ls = views(lines@);
    let mut k: usize = 0;
    let mut cur: usize = 0;
    while k < i
        invariant
            ls == views(lines@),
            i <= lines.len(),
            line_offset(ls, lines.len() as int) == total + 1,
            total < usize::MAX,
            k <= i,
            cur == line_offset(ls, k as int),
        decreases i - k,
    {
        proof {
            lemma_line_offset_monotone(ls, k + 1, lines.len() as int);
        }
        cur = cur + lines[k].len() + 1;
        k = k + 1;
    }
    cur
}

/// How many lines of the pattern count: all but an empty last one.
fn pattern_line_count(raw: &Vec<Vec<char>>) -> (k: usize)
    requires
        raw.len() >= 1,
    ensures
        k <= raw.len(),
        views(raw@).take(k as int) == (if views(raw@).last().len() == 0 {
            views(raw@).drop_last()
        } else {
            views(raw@)
        }),
{
    let n = raw.len();
    if raw[n - 1].len() == 0 {
        proof {
            assert(views(raw@).take(n - 1) =~= views(raw@).drop_last());
        }
        n - 1
    } else {
        proof {
            assert(views(raw@).take(n as int) =~= views(raw@));
        }
        n
    }
}

/// The range that lines `[i, e)` of the original cover, with the line feed rule of
/// `match_end`.
fn line_range(lines: &Vec<Vec<char>>, i: usize, e: usize, total: usize, lenient: bool) -> (r: (
    usize,
    usize,
))
    requires
        i <= e <= lines.len(),
        line_offset(views(lines@), lines.len() as int) == total + 1,
        total < usize::MAX,
    ensures
        r.0 == line_offset(views(lines@), i as int),
        r.1 == match_end(views(lines@), e as int, lenient),
{
    let start = offset_of_line(lines, i, total);
    let end = offset_of_line(lines, e, total);
    proof {
        lemma_line_offset_monotone(views(lines@), 0, e as int);
    }
    if lenient && e == lines.len() {
        (start, end - 1)
    } else {
        (start, end)
    }
}

/// Whether the pattern's lines `[0, k)` match the original from line `i` once trimmed.
fn trimmed_run_matches(orig: &Vec<Vec<char>>, pat: &Vec<Vec<char>>, k: usize, i: usize) -> (r: bool)
    requires
        k <= pat.len(),
        i + k <= orig.len(),
    ensures
        r == lines_match_trimmed(views(orig@), views(pat@).take(k as int), i as int),
{
    let ghost ol = views(orig@);
    let ghost pl = views(pat@).take(k as int);
    let mut j: usize = 0;
    while j < k
        invariant
            ol == views(orig@),
            pl == views(pat@).take(k as int),
            k <= pat.len(),
            i + k <= orig.len(),
            j <= k,
            forall|t: int| 0 <= t < j ==> trim(#[trigger] ol[i + t]) == trim(pl[t]),
        decreases k - j,
    {
        if !trimmed_equal(&orig[i + j], &pat[j]) {
            proof {
                assert(trim(ol[i + j]) != trim(pl[j as int]));
            }
            return false;
        }
        j = j + 1;
    }
    true
}

/// The second tier of the search.
pub fn line_trimmed_fallback_match(
    original: &Vec<char>,
    search: &Vec<char>,
    start_index: usize,
    lenient: bool,
) -> (r: Option<(usize, usize)>)
    requires
        original.len() < usize::MAX,
    ensures
        match r {
            Some((s, e)) => line_trimmed_match(original@, search@, start_index as int, lenient)
                == Some((s as int, e as int)),
            None => line_trimmed_match(original@, search@, start_index as int, lenient) is None,
        },
{
    let orig = split_text_lines(original);
    let raw = split_text_lines(search);
    proof {
        lemma_split_lines_nonempty(search@);
        lemma_line_offset_total(original@);
    }
    let k = pattern_line_count(&raw);
    if k == 0 {
        return None;
    }
    let ghost ol = views(orig@);
    let ghost pl = pattern_lines(search@);
    let total = original.len();
    let s = start_line(&orig, start_index, total);
    let n = orig.len();
    if k > n {
        proof {
            assert(first_trimmed_match(ol, pl, s as int) is None);
        }
        return None;
    }
    let mut i: usize = s;
    while i <= n - k
        invariant
            ol == views(orig@),
            pl == pattern_lines(search@),
            pl == views(raw@).take(k as int),
            k <= raw.len(),
            1 <= k <= n == orig.len(),
            line_offset(ol, n as int) == total + 1,
            total == original.len() < usize::MAX,
            s <= i,
            s == start_line_from(ol, start_index as int, 0),
            ol == split_lines(original@),
            first_trimmed_match(ol, pl, s as int) == first_trimmed_match(ol, pl, i as int),
        decreases n + 1 - i,
    {
        if trimmed_run_matches(&orig, &raw, k, i) {
            let r = line_range(&orig, i, i + k, total, lenient);
            proof {
                assert(first_trimmed_match(ol, pl, i as int) == Some(i as int));
                assert(first_trimmed_match(ol, pl, start_line_from(ol, start_index as int, 0))
                    == Some(i as int));
            }
            return Some(r);
        }
        i = i + 1;
    }
    None
}

/// The third tier of the search.
pub fn block_anchor_fallback_match(
    original: &Vec<char>,
    search: &Vec<char>,
    start_index: usize,
    lenient: bool,
) -> (r: Option<(usize, usize)>)
    requires
        original.len() < usize::MAX,
    ensures
        match r {
            Some((s, e)) => block_anchor_match(original@, search@, start_index as int, lenient)
                == Some((s as int, e as int)),
            None => block_anchor_match(original@, search@, start_index as int, lenient) is None,
        },
{
    let orig = split_text_lines(original);
    let raw = split_text_lines(search);
    proof {
        lemma_split_lines_nonempty(search@);
        lemma_line_offset_total(original@);
    }
    if raw.len() < 3 {
        return None;
    }
    let k = pattern_line_count(&raw);
    let ghost ol = views(orig@);
    let ghost pl = pattern_lines(search@);
    let total = original.len();
    let s = start_line(&orig, start_index, total);
    let n = orig.len();
    if k > n {
        proof {
            assert(first_anchor_match(ol, pl, s as int) is None);
        }
        return None;
    }
    let mut i: usize = s;
    while i <= n - k
        invariant
            ol == views(orig@),
            pl == pattern_lines(search@),
            pl == views(raw@).take(k as int),
            2 <= k <= raw.len(),
            raw.len() >= 3,
            views(raw@) == split_lines(search@),
            k <= n == orig.len(),
            line_offset(ol, n as int) == total + 1,
            total == original.len() < usize::MAX,
            s <= i,
            s == start_line_from(ol, start_index as int, 0),
            ol == split_lines(original@),
            first_anchor_match(ol, pl, s as int) == first_anchor_match(ol, pl, i as int),
        decreases n + 1 - i,
    {
        if trimmed_equal(&orig[i], &raw[0]) && trimmed_equal(&orig[i + k - 1], &raw[k - 1]) {
            let r = line_range(&orig, i, i + k, total, lenient);
            proof {
                assert(anchors_match(ol, pl, i as int));
                assert(first_anchor_match(ol, pl, i as int) == Some(i as int));
            }
            return Some(r);
        }
        i = i + 1;
    }
    None
}

/// The match of a non-empty search pattern at or after `start_index`, tier by tier.
pub fn locate_match(original: &Vec<char>, search: &Vec<char>, start_index: usize, lenient: bool) -> (r:
    Option<(usize, usize)>)
    requires
        original.len() < usize::MAX,
        search.len() > 0,
    ensures
        match r {
            Some((s, e)) => locate(original@, search@, start_index as int, lenient) == Some(
                (s as int, e as int),
            ),
            None => locate(original@, search@, start_index as int, lenient) is None,
        },
{
    match find_exact(original, search, start_index) {
        Some(i) => {
            proof {
                assert(occurs_at(original@, search@, i as int)) by {
                    lemma_find_from_occurs(original@, search@, start_index as int);
                }
            }
            Some((i, i + search.len()))
        },
        None => match line_trimmed_fallback_match(original, search, start_index, lenient) {
            Some(r) => Some(r),
            None => block_anchor_fallback_match(original, search, start_index, lenient),
        },
    }
}

/// What `find_from` returns is an occurrence, at or after `from`, with none before it.
pub proof fn lemma_find_from_occurs(text: Seq<char>, pat: Seq<char>, from: int)
    requires
        0 <= from,
    ensures
        match find_from(text, pat, from) {
            Some(i) => occurs_at(text, pat, i) && from <= i && forall|j: int|
                from <= j < i ==> !occurs_at(text, pat, j),
            None => forall|j: int| from <= j ==> !occurs_at(text, pat, j),
        },
    decreases text.len() + 1 - from,
{
    if from + pat.len() > text.len() {
    } else if !occurs_at(text, pat, from) {
        lemma_find_from_occurs(text, pat, from + 1);
    }
}

} // verus!
