//! The lenient engine: it takes blocks in any order, collects their
//! replacements, and on the final chunk applies them sorted by position.
use vstd::prelude::*;
use crate::error::{DiffError, Failure, outcome};
use crate::locate::{locate, locate_match, lemma_locate_bounds, find_from, find_exact, lemma_find_from_occurs};
use crate::marker::{
    is_search_start, is_separator, is_replace_end, diff_lines, prepare_diff_lines,
    is_search_block_start, is_search_block_end, is_replace_block_end,
};
use crate::text::{trim_end_space, chars_of, string_of, trim_end_of, append_range, append_line, views, copy_range};

verus! {

/// One collected replacement: the range of the original it replaces, and its text.
pub struct Replacement {
    pub start: usize,
    pub end: usize,
    pub content: Vec<char>,
}

impl View for Replacement {
    type V = (int, int, Seq<char>);

    open spec fn view(&self) -> (int, int, Seq<char>) {
        (self.start as int, self.end as int, self.content@)
    }
}

pub open spec fn replacement_views(v: Seq<Replacement>) -> Seq<(int, int, Seq<char>)> {
    v.map_values(|r: Replacement| r@)
}

/// Inserts `x` into `sorted` after every element that starts at or before it.
pub open spec fn insert_by_start(sorted: Seq<(int, int, Seq<char>)>, x: (int, int, Seq<char>)) -> Seq<
    (int, int, Seq<char>),
>
    decreases sorted.len(),
{
    if sorted.len() == 0 || sorted.last().0 <= x.0 {
        sorted.push(x)
    } else {
        insert_by_start(sorted.drop_last(), x).push(sorted.last())
    }
}

/// The replacements sorted by start; those with equal starts keep their order.
pub open spec fn sort_by_start(rs: Seq<(int, int, Seq<char>)>) -> Seq<(int, int, Seq<char>)>
    decreases rs.len(),
{
    if rs.len() == 0 {
        rs
    } else {
        insert_by_start(sort_by_start(rs.drop_last()), rs.last())
    }
}

/// The original between two offsets; nothing where they are out of order.
pub open spec fn piece(original: Seq<char>, from: int, to: int) -> Seq<char> {
    if 0 <= from < to <= original.len() {
        original.subrange(from, to)
    } else {
        Seq::empty()
    }
}

/// The text before the tail when the replacements are applied in turn, and the
/// offset where the tail starts.
pub open spec fn assembled(original: Seq<char>, rs: Seq<(int, int, Seq<char>)>) -> (Seq<char>, int)
    decreases rs.len(),
{
    if rs.len() == 0 {
        (Seq::empty(), 0)
    } else {
        let (text, cur) = assembled(original, rs.drop_last());
        let (s, e, content) = rs.last();
        (text + piece(original, cur, s) + content, e)
    }
}

/// `original[0..s1] + r1 + original[e1..s2] + r2 + ... + original[ek..]`.
pub open spec fn assemble(original: Seq<char>, rs: Seq<(int, int, Seq<char>)>) -> Seq<char> {
    let (text, cur) = assembled(original, rs);
    text + piece(original, cur, original.len() as int)
}

/// What the lenient engine holds, as mathematical values.
pub struct LenientState {
    pub result: Seq<char>,
    pub cursor: int,
    pub search: Seq<char>,
    pub replace: Seq<char>,
    pub in_search: bool,
    pub in_replace: bool,
    pub matched: Option<(int, int)>,
    pub replacements: Seq<(int, int, Seq<char>)>,
    pub out_of_order: bool,
}

pub open spec fn lenient_initial() -> LenientState {
    LenientState {
        result: Seq::empty(),
        cursor: 0,
        search: Seq::empty(),
        replace: Seq::empty(),
        in_search: false,
        in_replace: false,
        matched: None,
        replacements: Seq::empty(),
        out_of_order: false,
    }
}

/// A line outside any block that starts like a marker and is not the marker it
/// starts like.
pub open spec fn malformed_outside(line: Seq<char>) -> bool {
    ||| (line.len() > 0 && (line[0] == '-' || line[0] == '<') && !is_search_start(line))
    ||| (line.len() > 0 && line[0] == '=' && !is_separator(line))
    ||| (line.len() > 0 && (line[0] == '+' || line[0] == '>') && !is_replace_end(line))
}

/// The match of a pattern: for an empty pattern the whole original; else the
/// three tiers from the cursor, then an exact occurrence anywhere.
pub open spec fn lenient_range(original: Seq<char>, search: Seq<char>, cursor: int) -> Option<(int, int)> {
    if search.len() == 0 {
        Some((0, original.len() as int))
    } else {
        match locate(original, search, cursor, true) {
            Some(r) => Some(r),
            None => match find_from(original, search, 0) {
                Some(i) => Some((i, i + search.len())),
                None => None,
            },
        }
    }
}

/// The state once the current block's replacement is collected.
pub open spec fn committed(m: LenientState) -> LenientState {
    let (s, e) = m.matched->0;
    LenientState {
        replacements: m.replacements.push((s, e, m.replace)),
        cursor: if m.out_of_order {
            m.cursor
        } else {
            e
        },
        in_search: false,
        in_replace: false,
        search: Seq::empty(),
        replace: Seq::empty(),
        matched: None,
        out_of_order: false,
        ..m
    }
}

/// One line through the lenient engine.
pub open spec fn lenient_step(original: Seq<char>, m: LenientState, line: Seq<char>) -> Result<
    LenientState,
    Failure,
> {
    if !m.in_search && !m.in_replace && malformed_outside(line) {
        Err(Failure::NoLinesAvailable)
    } else if is_search_start(line) {
        Ok(LenientState { in_search: true, search: Seq::empty(), replace: Seq::empty(), ..m })
    } else if is_separator(line) {
        match lenient_range(original, m.search, m.cursor) {
            None => Err(Failure::SearchBlockNotFound(trim_end_space(m.search))),
            Some((s, e)) => {
                let ooo = m.out_of_order || s < m.cursor;
                Ok(
                    LenientState {
                        in_search: false,
                        in_replace: true,
                        matched: Some((s, e)),
                        out_of_order: ooo,
                        result: if ooo {
                            m.result
                        } else {
                            m.result + original.subrange(m.cursor, s)
                        },
                        ..m
                    },
                )
            },
        }
    } else if is_replace_end(line) {
        if m.matched is None {
            Err(Failure::NoLinesAvailable)
        } else {
            Ok(committed(m))
        }
    } else if m.in_search {
        Ok(LenientState { search: m.search + line.push('\n'), ..m })
    } else if m.in_replace {
        Ok(
            LenientState {
                replace: m.replace + line.push('\n'),
                result: if m.matched is Some && !m.out_of_order {
                    m.result + line.push('\n')
                } else {
                    m.result
                },
                ..m
            },
        )
    } else {
        Ok(m)
    }
}

pub open spec fn lenient_run(original: Seq<char>, m: LenientState, lines: Seq<Seq<char>>) -> Result<
    LenientState,
    Failure,
>
    decreases lines.len(),
{
    if lines.len() == 0 {
        Ok(m)
    } else {
        match lenient_run(original, m, lines.drop_last()) {
            Ok(m1) => lenient_step(original, m1, lines.last()),
            Err(f) => Err(f),
        }
    }
}

/// The result once the lines are in: on the final chunk, the open block (if its
/// match is known) is collected and all replacements are applied in order of
/// their starts; otherwise the output so far.
pub open spec fn lenient_finish(original: Seq<char>, m: LenientState, is_final: bool) -> Seq<char> {
    if is_final {
        let m1 = if m.in_replace && m.matched is Some {
            committed(m)
        } else {
            m
        };
        assemble(original, sort_by_start(m1.replacements))
    } else {
        m.result
    }
}

/// The lenient engine on a whole diff.
pub open spec fn apply_lenient(diff: Seq<char>, original: Seq<char>, is_final: bool) -> Result<
    Seq<char>,
    Failure,
> {
    match lenient_run(original, lenient_initial(), diff_lines(diff)) {
        Ok(m) => Ok(lenient_finish(original, m, is_final)),
        Err(f) => Err(f),
    }
}

/// What holds of the lenient engine between two lines.
pub open spec fn lenient_wf(original: Seq<char>, m: LenientState) -> bool {
    &&& original.len() < usize::MAX
    &&& 0 <= m.cursor <= original.len()
    &&& (m.matched matches Some((s, e)) ==> 0 <= s <= e <= original.len() && (!m.out_of_order
        ==> m.cursor <= s))
    &&& forall|j: int|
        0 <= j < m.replacements.len() ==> 0 <= (#[trigger] m.replacements[j]).0 <= m.replacements[j].1
            <= original.len()
}

/// Inserting at `p`, after the elements that start at or before `x` and before
/// those that start after it, is `insert_by_start`.
pub proof fn lemma_insert_by_start(sorted: Seq<(int, int, Seq<char>)>, x: (int, int, Seq<char>), p: int)
    requires
        0 <= p <= sorted.len(),
        forall|j: int| p <= j < sorted.len() ==> (#[trigger] sorted[j]).0 > x.0,
        p == 0 || sorted[p - 1].0 <= x.0,
    ensures
        insert_by_start(sorted, x) == sorted.take(p).push(x) + sorted.skip(p),
    decreases sorted.len(),
{
    if sorted.len() == p {
        assert(sorted.take(p) =~= sorted);
        assert(sorted.take(p).push(x) + sorted.skip(p) =~= sorted.push(x));
    } else {
        let d = sorted.drop_last();
        assert forall|j: int| p <= j < d.len() implies (#[trigger] d[j]).0 > x.0 by {
            assert(d[j] == sorted[j]);
        }
        lemma_insert_by_start(d, x, p);
        assert(sorted.take(p).push(x) + sorted.skip(p) =~= (d.take(p).push(x) + d.skip(p)).push(
            sorted.last(),
        ));
    }
}

/// The replacements are in order of their starts.
pub open spec fn sorted_by_start(rs: Seq<(int, int, Seq<char>)>) -> bool {
    forall|i: int, j: int| 0 <= i < j < rs.len() ==> (#[trigger] rs[i]).0 <= (#[trigger] rs[j]).0
}

proof fn lemma_insert_by_start_bounded(sorted: Seq<(int, int, Seq<char>)>, x: (int, int, Seq<char>), b: int)
    requires
        forall|i: int| 0 <= i < sorted.len() ==> (#[trigger] sorted[i]).0 <= b,
        x.0 <= b,
    ensures
        forall|i: int|
            0 <= i < insert_by_start(sorted, x).len() ==> (#[trigger] insert_by_start(sorted, x)[i]).0
                <= b,
        insert_by_start(sorted, x).len() == sorted.len() + 1,
    decreases sorted.len(),
{
    if !(sorted.len() == 0 || sorted.last().0 <= x.0) {
        let d = sorted.drop_last();
        assert forall|i: int| 0 <= i < d.len() implies (#[trigger] d[i]).0 <= b by {
            assert(d[i] == sorted[i]);
        }
        lemma_insert_by_start_bounded(d, x, b);
        assert(sorted[sorted.len() - 1].0 <= b);
    }
}

/// Inserting into a sorted sequence keeps it sorted and adds one element.
pub proof fn lemma_insert_by_start_sorted(sorted: Seq<(int, int, Seq<char>)>, x: (int, int, Seq<char>))
    requires
        sorted_by_start(sorted),
    ensures
        sorted_by_start(insert_by_start(sorted, x)),
        insert_by_start(sorted, x).len() == sorted.len() + 1,
    decreases sorted.len(),
{
    if sorted.len() == 0 || sorted.last().0 <= x.0 {
        let r = sorted.push(x);
        assert forall|i: int, j: int| 0 <= i < j < r.len() implies (#[trigger] r[i]).0 <= (
        #[trigger] r[j]).0 by {
            if j == sorted.len() {
                if i < sorted.len() - 1 {
                    assert(sorted[i].0 <= sorted[sorted.len() - 1].0);
                }
            } else {
                assert(sorted[i].0 <= sorted[j].0);
            }
        }
    } else {
        let d = sorted.drop_last();
        let l = sorted.last();
        assert forall|i: int, j: int| 0 <= i < j < d.len() implies (#[trigger] d[i]).0 <= (
        #[trigger] d[j]).0 by {
            assert(sorted[i].0 <= sorted[j].0);
        }
        lemma_insert_by_start_sorted(d, x);
        assert forall|i: int| 0 <= i < d.len() implies (#[trigger] d[i]).0 <= l.0 by {
            assert(sorted[i].0 <= sorted[sorted.len() - 1].0);
        }
        lemma_insert_by_start_bounded(d, x, l.0);
        let ins = insert_by_start(d, x);
        let r = ins.push(l);
        assert forall|i: int, j: int| 0 <= i < j < r.len() implies (#[trigger] r[i]).0 <= (
        #[trigger] r[j]).0 by {
            if j == ins.len() {
                assert(ins[i].0 <= l.0);
            } else {
                assert(ins[i].0 <= ins[j].0);
            }
        }
    }
}

/// `sort_by_start` gives the replacements in order of their starts, as many as
/// there were.
pub proof fn lemma_sort_by_start_sorted(rs: Seq<(int, int, Seq<char>)>)
    ensures
        sorted_by_start(sort_by_start(rs)),
        sort_by_start(rs).len() == rs.len(),
    decreases rs.len(),
{
    if rs.len() > 0 {
        lemma_sort_by_start_sorted(rs.drop_last());
        lemma_insert_by_start_sorted(sort_by_start(rs.drop_last()), rs.last());
    }
}

/// Inserting adds exactly `x` to what the sequence holds.
pub proof fn lemma_insert_by_start_multiset(sorted: Seq<(int, int, Seq<char>)>, x: (int, int, Seq<char>))
    ensures
        insert_by_start(sorted, x).to_multiset() == sorted.to_multiset().insert(x),
    decreases sorted.len(),
{
    broadcast use vstd::seq_lib::to_multiset_build;
    if !(sorted.len() == 0 || sorted.last().0 <= x.0) {
        let d = sorted.drop_last();
        lemma_insert_by_start_multiset(d, x);
        assert(d.push(sorted.last()) =~= sorted);
        assert(insert_by_start(d, x).push(sorted.last()).to_multiset() =~= d.to_multiset().insert(
            x,
        ).insert(sorted.last()));
        assert(sorted.to_multiset().insert(x) =~= d.to_multiset().insert(sorted.last()).insert(x));
    }
}

/// `sort_by_start` holds the same replacements as its argument: it is a permutation.
pub proof fn lemma_sort_by_start_permutation(rs: Seq<(int, int, Seq<char>)>)
    ensures
        sort_by_start(rs).to_multiset() == rs.to_multiset(),
    decreases rs.len(),
{
    broadcast use vstd::seq_lib::to_multiset_build;
    if rs.len() > 0 {
        lemma_sort_by_start_permutation(rs.drop_last());
        lemma_insert_by_start_multiset(sort_by_start(rs.drop_last()), rs.last());
        assert(rs.drop_last().push(rs.last()) =~= rs);
    }
}

/// The replacements that start at `k`.
pub open spec fn starting_at(k: int) -> spec_fn((int, int, Seq<char>)) -> bool {
    |r: (int, int, Seq<char>)| r.0 == k
}

proof fn lemma_insert_by_start_stable(sorted: Seq<(int, int, Seq<char>)>, x: (int, int, Seq<char>), k: int)
    ensures
        insert_by_start(sorted, x).filter(starting_at(k)) == if x.0 == k {
            sorted.filter(starting_at(k)).push(x)
        } else {
            sorted.filter(starting_at(k))
        },
    decreases sorted.len(),
{
    broadcast use vstd::seq::Seq::lemma_filter_push;
    if !(sorted.len() == 0 || sorted.last().0 <= x.0) {
        let d = sorted.drop_last();
        lemma_insert_by_start_stable(d, x, k);
        assert(d.push(sorted.last()) =~= sorted);
    }
}

/// Among replacements with the same start, `sort_by_start` keeps their order:
/// the sort is stable.
pub proof fn lemma_sort_by_start_stable(rs: Seq<(int, int, Seq<char>)>, k: int)
    ensures
        sort_by_start(rs).filter(starting_at(k)) == rs.filter(starting_at(k)),
    decreases rs.len(),
{
    broadcast use vstd::seq::Seq::lemma_filter_push;
    if rs.len() > 0 {
        lemma_sort_by_start_stable(rs.drop_last(), k);
        lemma_insert_by_start_stable(sort_by_start(rs.drop_last()), rs.last(), k);
        assert(rs.drop_last().push(rs.last()) =~= rs);
    }
}

fn copy_replacement(r: &Replacement) -> (c: Replacement)
    ensures
        c@ == r@,
{
    let content = copy_range(&r.content, 0, r.content.len());
    proof {
        assert(r.content@.subrange(0, r.content@.len() as int) =~= r.content@);
    }
    Replacement { start: r.start, end: r.end, content }
}

/// The replacements sorted by start, stably.
fn sort_replacements(rs: &Vec<Replacement>) -> (r: Vec<Replacement>)
    ensures
        replacement_views(r@) == sort_by_start(replacement_views(rs@)),
{
    let ghost all = replacement_views(rs@);
    let mut sorted: Vec<Replacement> = Vec::new();
    let mut i: usize = 0;
    proof {
        assert(all.take(0) =~= Seq::<(int, int, Seq<char>)>::empty());
        assert(replacement_views(sorted@) =~= Seq::<(int, int, Seq<char>)>::empty());
    }
    while i < rs.len()
        invariant
            all == replacement_views(rs@),
            i <= rs.len(),
            replacement_views(sorted@) == sort_by_start(all.take(i as int)),
        decreases rs.len() - i,
    {
        let x = copy_replacement(&rs[i]);
        let ghost sv = replacement_views(sorted@);
        let mut p: usize = sorted.len();
        while p > 0 && sorted[p - 1].start > x.start
            invariant
                sv == replacement_views(sorted@),
                p <= sorted.len(),
                forall|j: int| p <= j < sv.len() ==> (#[trigger] sv[j]).0 > x@.0,
            decreases p,
        {
            proof {
                assert(sv[p - 1] == sorted@[p - 1]@);
            }
            p = p - 1;
        }
        proof {
            if p > 0 {
                assert(sv[p - 1] == sorted@[p - 1]@);
            }
            lemma_insert_by_start(sv, x@, p as int);
            assert(all.take(i + 1).drop_last() =~= all.take(i as int));
            assert(all.take(i + 1).last() == x@);
        }
        sorted.insert(p, x);
        proof {
            assert(replacement_views(sorted@) =~= sv.take(p as int).push(x@) + sv.skip(p as int));
        }
        i = i + 1;
    }
    proof {
        assert(all.take(rs.len() as int) =~= all);
    }
    sorted
}

/// Applies the replacements in turn to the original.
fn assemble_text(original: &Vec<char>, rs: &Vec<Replacement>) -> (r: Vec<char>)
    ensures
        r@ == assemble(original@, replacement_views(rs@)),
{
    let ghost all = replacement_views(rs@);
    let mut out: Vec<char> = Vec::new();
    let mut cur: usize = 0;
    let mut i: usize = 0;
    proof {
        assert(all.take(0) =~= Seq::<(int, int, Seq<char>)>::empty());
    }
    while i < rs.len()
        invariant
            all == replacement_views(rs@),
            i <= rs.len(),
            (out@, cur as int) == assembled(original@, all.take(i as int)),
        decreases rs.len() - i,
    {
        let s = rs[i].start;
        if cur < s && s <= original.len() {
            append_range(&mut out, original, cur, s);
        }
        let ghost before = out@;
        append_range(&mut out, &rs[i].content, 0, rs[i].content.len());
        proof {
            assert(rs[i as int].content@.subrange(0, rs[i as int].content@.len() as int)
                =~= rs[i as int].content@);
            assert(all.take(i + 1).drop_last() =~= all.take(i as int));
            assert(all.take(i + 1).last() == rs@[i as int]@);
        }
        cur = rs[i].end;
        i = i + 1;
    }
    proof {
        assert(all.take(rs.len() as int) =~= all);
    }
    if cur < original.len() {
        append_range(&mut out, original, cur, original.len());
    }
    out
}

/// The lenient engine's working values.
struct LenientRun {
    result: Vec<char>,
    last_processed_index: usize,
    current_search_content: Vec<char>,
    current_replace_content: Vec<char>,
    in_search: bool,
    in_replace: bool,
    search_match: Option<(usize, usize)>,
    replacements: Vec<Replacement>,
    pending_out_of_order_replacement: bool,
}

impl View for LenientRun {
    type V = LenientState;

    closed spec fn view(&self) -> LenientState {
        LenientState {
            result: self.result@,
            cursor: self.last_processed_index as int,
            search: self.current_search_content@,
            replace: self.current_replace_content@,
            in_search: self.in_search,
            in_replace: self.in_replace,
            matched: match self.search_match {
                Some((s, e)) => Some((s as int, e as int)),
                None => None,
            },
            replacements: replacement_views(self.replacements@),
            out_of_order: self.pending_out_of_order_replacement,
        }
    }
}

impl LenientRun {
    fn new() -> (r: Self)
        ensures
            r@ == lenient_initial(),
    {
        let r = LenientRun {
            result: Vec::new(),
            last_processed_index: 0,
            current_search_content: Vec::new(),
            current_replace_content: Vec::new(),
            in_search: false,
            in_replace: false,
            search_match: None,
            replacements: Vec::new(),
            pending_out_of_order_replacement: false,
        };
        proof {
            assert(r@.replacements =~= Seq::<(int, int, Seq<char>)>::empty());
            assert(r@ =~= lenient_initial());
        }
        r
    }

    /// Collects the current block's replacement and closes the block.
    fn commit(&mut self, original: &Vec<char>)
        requires
            lenient_wf(original@, old(self)@),
            old(self)@.matched is Some,
        ensures
            final(self)@ == committed(old(self)@),
            lenient_wf(original@, final(self)@),
    {
        let ghost m0 = self@;
        if let Some((s, e)) = self.search_match {
            let content = copy_range(
                &self.current_replace_content,
                0,
                self.current_replace_content.len(),
            );
            proof {
                assert(m0.replace.subrange(0, m0.replace.len() as int) =~= m0.replace);
            }
            let ghost rv = self@.replacements;
            self.replacements.push(Replacement { start: s, end: e, content });
            if !self.pending_out_of_order_replacement {
                self.last_processed_index = e;
            }
            self.in_search = false;
            self.in_replace = false;
            self.current_search_content.clear();
            self.current_replace_content.clear();
            self.search_match = None;
            self.pending_out_of_order_replacement = false;
            proof {
                assert(self@.replacements =~= rv.push((s as int, e as int, m0.replace)));
                assert(self@ == committed(m0));
                assert forall|j: int| 0 <= j < self@.replacements.len() implies 0 <= (
                #[trigger] self@.replacements[j]).0 <= self@.replacements[j].1
                    <= original@.len() by {
                    if j < rv.len() {
                        assert(self@.replacements[j] == rv[j]);
                    }
                }
            }
        }
    }

    /// One line through the lenient engine; see `lenient_step`.
    fn process(&mut self, original: &Vec<char>, line: &Vec<char>) -> (r: Result<(), DiffError>)
        requires
            lenient_wf(original@, old(self)@),
        ensures
            match lenient_step(original@, old(self)@, line@) {
                Ok(m) => r is Ok && final(self)@ == m && lenient_wf(original@, m),
                Err(f) => r is Err && r->Err_0@ == f,
            },
    {
        let ghost m0 = self@;
        if !self.in_search && !self.in_replace {
            let starts_search = line.len() > 0 && (line[0] == '-' || line[0] == '<');
            let starts_separator = line.len() > 0 && line[0] == '=';
            let starts_replace = line.len() > 0 && (line[0] == '+' || line[0] == '>');
            if starts_search && !is_search_block_start(line) {
                return Err(DiffError::NoLinesAvailable);
            }
            if starts_separator && !is_search_block_end(line) {
                return Err(DiffError::NoLinesAvailable);
            }
            if starts_replace && !is_replace_block_end(line) {
                return Err(DiffError::NoLinesAvailable);
            }
        }
        if is_search_block_start(line) {
            self.in_search = true;
            self.current_search_content.clear();
            self.current_replace_content.clear();
            proof {
                assert(self@ == (LenientState {
                    in_search: true,
                    search: Seq::empty(),
                    replace: Seq::empty(),
                    ..m0
                }));
            }
            return Ok(());
        }
        if is_search_block_end(line) {
            self.in_search = false;
            self.in_replace = true;
            let range: Option<(usize, usize)>;
            if self.current_search_content.len() == 0 {
                range = Some((0, original.len()));
            } else {
                match locate_match(original, &self.current_search_content, self.last_processed_index, true) {
                    Some(r) => {
                        range = Some(r);
                    },
                    None => match find_exact(original, &self.current_search_content, 0) {
                        Some(i) => {
                            proof {
                                lemma_find_from_occurs(original@, m0.search, 0);
                            }
                            range = Some((i, i + self.current_search_content.len()));
                        },
                        None => {
                            range = None;
                        },
                    },
                }
                proof {
                    lemma_locate_bounds(original@, m0.search, m0.cursor, true);
                }
            }
            match range {
                None => {
                    return Err(DiffError::SearchBlockNotFound(
                        string_of(&trim_end_of(&self.current_search_content)),
                    ));
                },
                Some((s, e)) => {
                    if s < self.last_processed_index {
                        self.pending_out_of_order_replacement = true;
                    }
                    self.search_match = Some((s, e));
                    if !self.pending_out_of_order_replacement {
                        append_range(&mut self.result, original, self.last_processed_index, s);
                    }
                    proof {
                        assert(self@ == (LenientState {
                            in_search: false,
                            in_replace: true,
                            matched: Some((s as int, e as int)),
                            out_of_order: m0.out_of_order || s < m0.cursor,
                            result: if m0.out_of_order || s < m0.cursor {
                                m0.result
                            } else {
                                m0.result + original@.subrange(m0.cursor, s as int)
                            },
                            ..m0
                        }));
                    }
                    return Ok(());
                },
            }
        }
        if is_replace_block_end(line) {
            if self.search_match.is_none() {
                return Err(DiffError::NoLinesAvailable);
            }
            self.commit(original);
            return Ok(());
        }
        if self.in_search {
            append_line(&mut self.current_search_content, line);
        } else if self.in_replace {
            append_line(&mut self.current_replace_content, line);
            if self.search_match.is_some() && !self.pending_out_of_order_replacement {
                append_line(&mut self.result, line);
            }
        }
        Ok(())
    }
}

/// Once a run of lines has failed, more lines do not change its error.
pub proof fn lemma_lenient_error_persists(
    original: Seq<char>,
    m: LenientState,
    lines: Seq<Seq<char>>,
    i: int,
)
    requires
        0 <= i <= lines.len(),
        lenient_run(original, m, lines.take(i)) is Err,
    ensures
        lenient_run(original, m, lines) == lenient_run(original, m, lines.take(i)),
    decreases lines.len() - i,
{
    if i < lines.len() {
        assert(lines.take(i + 1).drop_last() =~= lines.take(i));
        lemma_lenient_error_persists(original, m, lines, i + 1);
    } else {
        assert(lines.take(i) =~= lines);
    }
}

/// Applies a diff with the lenient engine: blocks may come in any order; on the
/// final chunk the replacements are applied sorted by where they match. With
/// `is_final` false the result is the in-order output so far.
pub fn construct_new_file_content_v1(
    diff_content: &str,
    original_content: &str,
    is_final: bool,
) -> (r: Result<String, DiffError>)
    requires
        original_content@.len() < usize::MAX,
    ensures
        outcome(r) == apply_lenient(diff_content@, original_content@, is_final),
{
    let original = chars_of(original_content);
    let mut run = LenientRun::new();
    let lines = prepare_diff_lines(diff_content);
    let ghost ls = views(lines@);
    let ghost o = original@;
    let mut i: usize = 0;
    proof {
        assert(ls.take(0) =~= Seq::<Seq<char>>::empty());
    }
    while i < lines.len()
        invariant
            ls == views(lines@),
            ls == diff_lines(diff_content@),
            o == original@,
            o == original_content@,
            i <= lines.len(),
            lenient_wf(o, run@),
            lenient_run(o, lenient_initial(), ls.take(i as int)) == Ok::<LenientState, Failure>(
                run@,
            ),
        decreases lines.len() - i,
    {
        proof {
            assert(ls.take(i + 1).drop_last() =~= ls.take(i as int));
            assert(ls.take(i + 1).last() == lines@[i as int]@);
        }
        match run.process(&original, &lines[i]) {
            Ok(()) => {},
            Err(e) => {
                proof {
                    assert(lenient_run(o, lenient_initial(), ls.take(i + 1)) == Err::<
                        LenientState,
                        Failure,
                    >(e@));
                    lemma_lenient_error_persists(o, lenient_initial(), ls, i + 1);
                }
                return Err(e);
            },
        }
        i = i + 1;
    }
    proof {
        assert(ls.take(lines.len() as int) =~= ls);
    }
    if is_final {
        if run.in_replace && run.search_match.is_some() {
            run.commit(&original);
        }
        let sorted = sort_replacements(&run.replacements);
        let out = assemble_text(&original, &sorted);
        Ok(string_of(&out))
    } else {
        Ok(string_of(&run.result))
    }
}

} // verus!
