//! The strict engine: a state machine over the diff's lines that applies the
//! blocks left to right and writes its output as it goes.
use vstd::prelude::*;
use crate::error::{DiffError, Failure, outcome};
use crate::locate::{locate, locate_match, lemma_locate_bounds};
use crate::marker::{
    Rescue, is_rescue, is_marker, is_search_start, is_separator, is_replace_end, diff_lines,
    prepare_diff_lines, is_rescue_line, is_search_block_start, is_search_block_end,
    is_replace_block_end, lemma_rescue_lines_are_markers,
};
use crate::text::{
    trim_end_space, is_blank_line, chars_of, string_of, trim_end_of, is_blank, append_range, append_line, views,
    copy_range,
};

verus! {

/// Where the engine stands between two lines.
#[derive(Clone, Copy, Debug, PartialEq, Eq, Structural)]
pub enum ProcessingState {
    Idle,
    StateSearch,
    StateReplace,
}

/// What the engine holds, as mathematical values.
pub struct EngineState {
    pub original: Seq<char>,
    pub is_final: bool,
    pub state: ProcessingState,
    /// Lines read outside any block, kept for salvage.
    pub pending: Seq<Seq<char>>,
    pub result: Seq<char>,
    /// How much of the original has been consumed.
    pub cursor: int,
    pub search: Seq<char>,
    /// The range that the current SEARCH block resolved to.
    pub matched: Option<(int, int)>,
}

/// The state before the first line.
pub open spec fn initial(original: Seq<char>, is_final: bool) -> EngineState {
    EngineState {
        original,
        is_final,
        state: ProcessingState::Idle,
        pending: Seq::empty(),
        result: Seq::empty(),
        cursor: 0,
        search: Seq::empty(),
        matched: None,
    }
}

/// The state after a block: idle, with no pattern and no match.
pub open spec fn cleared(m: EngineState) -> EngineState {
    EngineState { state: ProcessingState::Idle, search: Seq::empty(), matched: None, ..m }
}

/// The state after a block closes: the cursor moves to the end of its match.
pub open spec fn closed(m: EngineState) -> EngineState {
    EngineState {
        cursor: match m.matched {
            Some(r) => r.1,
            None => m.cursor,
        },
        ..cleared(m)
    }
}

/// How many blank lines end the first `i` pending lines.
pub open spec fn blank_tail(pending: Seq<Seq<char>>, i: int) -> nat
    decreases i,
{
    if 0 < i <= pending.len() && is_blank_line(pending[i - 1]) {
        1 + blank_tail(pending, i - 1)
    } else {
        0
    }
}

pub proof fn lemma_blank_tail_bound(pending: Seq<Seq<char>>, i: int)
    ensures
        blank_tail(pending, i) <= if i < 0 {
            0
        } else {
            i
        },
    decreases i,
{
    if 0 < i <= pending.len() && is_blank_line(pending[i - 1]) {
        lemma_blank_tail_bound(pending, i - 1);
    }
}

/// The error that salvage ends in: with no lines to work on, `NoLinesAvailable`;
/// else the one of its kind, since the line that it looks for is a marker, and
/// markers never reach the pending lines.
pub open spec fn salvage_failure(limit: int, kind: Failure) -> Failure {
    if limit == 0 {
        Failure::NoLinesAvailable
    } else {
        kind
    }
}

/// The match that the current pattern resolves to: for an empty pattern the
/// whole original (nothing, if the original is empty); else the three tiers,
/// searching from the cursor.
pub open spec fn resolved_range(m: EngineState) -> Option<(int, int)> {
    if m.search.len() == 0 {
        Some((0, m.original.len() as int))
    } else {
        locate(m.original, m.search, m.cursor, false)
    }
}

/// On a separator: resolve the pattern, then write out the original up to the match.
pub open spec fn resolve(m: EngineState) -> Result<EngineState, Failure> {
    match resolved_range(m) {
        None => Err(Failure::SearchBlockNotFound(trim_end_space(m.search))),
        Some((s, e)) => if s < m.cursor {
            Err(Failure::SearchBlockIncorrectMatch(trim_end_space(m.search)))
        } else {
            Ok(
                EngineState {
                    matched: Some((s, e)),
                    result: m.result + m.original.subrange(m.cursor, s),
                    ..m
                },
            )
        },
    }
}

/// One line through the engine. `can_write` says whether a line outside any
/// block is kept; `limit` is how many pending lines salvage may look at. Gives the
/// new state and how many pending lines were dropped.
pub open spec fn step(m: EngineState, line: Seq<char>, can_write: bool, limit: int) -> Result<
    (EngineState, int),
    Failure,
> {
    if is_search_start(line) {
        let r = blank_tail(
            m.pending,
            if limit < m.pending.len() {
                limit
            } else {
                m.pending.len() as int
            },
        );
        if limit - r > 0 {
            Err(Failure::MissingReplaceMarker)
        } else if m.state != ProcessingState::Idle {
            Err(Failure::InvalidStateTransition)
        } else {
            Ok(
                (
                    EngineState {
                        state: ProcessingState::StateSearch,
                        search: Seq::empty(),
                        pending: m.pending.take(m.pending.len() - r),
                        ..m
                    },
                    r as int,
                ),
            )
        }
    } else if is_separator(line) {
        if m.state == ProcessingState::Idle {
            Err(salvage_failure(limit, Failure::InvalidReplaceMarker(0)))
        } else if m.state == ProcessingState::StateReplace {
            Err(Failure::InvalidStateTransition)
        } else {
            match resolve(EngineState { state: ProcessingState::StateReplace, ..m }) {
                Ok(m2) => Ok((m2, 0)),
                Err(f) => Err(f),
            }
        }
    } else if is_replace_end(line) {
        if m.state != ProcessingState::StateReplace {
            Err(salvage_failure(limit, Failure::MalformedReplaceBlock(0)))
        } else {
            Ok((closed(m), 0))
        }
    } else if m.state == ProcessingState::StateReplace {
        if m.matched is Some {
            Ok((EngineState { result: m.result + line.push('\n'), ..m }, 0))
        } else {
            Ok((m, 0))
        }
    } else if m.state == ProcessingState::StateSearch {
        Ok((EngineState { search: m.search + line.push('\n'), ..m }, 0))
    } else if can_write {
        Ok((EngineState { pending: m.pending.push(line), ..m }, 0))
    } else {
        Ok((m, 0))
    }
}

/// A line as `process_line` feeds it: kept if outside a block, with every pending
/// line open to salvage.
pub open spec fn feed(m: EngineState, line: Seq<char>) -> Result<EngineState, Failure> {
    match step(m, line, true, m.pending.len() as int) {
        Ok((m2, _)) => Ok(m2),
        Err(f) => Err(f),
    }
}

/// The lines fed one after another; the first error stops the run.
pub open spec fn run_lines(m: EngineState, lines: Seq<Seq<char>>) -> Result<EngineState, Failure>
    decreases lines.len(),
{
    if lines.len() == 0 {
        Ok(m)
    } else {
        match run_lines(m, lines.drop_last()) {
            Ok(m1) => feed(m1, lines.last()),
            Err(f) => Err(f),
        }
    }
}

/// The result once the lines are in. On the final chunk an open block whose
/// match is known is closed, the rest of the original is appended, and a block
/// still in its SEARCH part is an error.
pub open spec fn finish(m: EngineState) -> Result<Seq<char>, Failure> {
    let m1 = if m.is_final && m.state == ProcessingState::StateReplace && m.matched is Some {
        closed(m)
    } else {
        m
    };
    let out = if m1.is_final && m1.cursor < m1.original.len() {
        m1.result + m1.original.subrange(m1.cursor, m1.original.len() as int)
    } else {
        m1.result
    };
    if m1.is_final && m1.state != ProcessingState::Idle {
        Err(Failure::ProcessingIncomplete)
    } else {
        Ok(out)
    }
}

/// The strict engine on a whole diff.
pub open spec fn apply_strict(diff: Seq<char>, original: Seq<char>, is_final: bool) -> Result<
    Seq<char>,
    Failure,
> {
    match run_lines(initial(original, is_final), diff_lines(diff)) {
        Ok(m) => finish(m),
        Err(f) => Err(f),
    }
}

/// The engine's state for one call.
pub struct NewFileContentConstructor {
    original_content: Vec<char>,
    is_final: bool,
    state: ProcessingState,
    pending_non_standard_lines: Vec<Vec<char>>,
    result: Vec<char>,
    last_processed_index: usize,
    current_search_content: Vec<char>,
    search_match: Option<(usize, usize)>,
}

impl View for NewFileContentConstructor {
    type V = EngineState;

    closed spec fn view(&self) -> EngineState {
        EngineState {
            original: self.original_content@,
            is_final: self.is_final,
            state: self.state,
            pending: views(self.pending_non_standard_lines@),
            result: self.result@,
            cursor: self.last_processed_index as int,
            search: self.current_search_content@,
            matched: match self.search_match {
                Some((s, e)) => Some((s as int, e as int)),
                None => None,
            },
        }
    }
}

/// What holds of the engine between two lines.
pub open spec fn well_formed(m: EngineState) -> bool {
    &&& m.original.len() < usize::MAX
    &&& 0 <= m.cursor <= m.original.len() + 1
    &&& (m.matched is Some <==> m.state == ProcessingState::StateReplace)
    &&& (m.matched matches Some((s, e)) ==> m.cursor <= s <= m.original.len() && s <= e
        <= m.original.len() + 1)
    &&& forall|j: int| 0 <= j < m.pending.len() ==> !is_marker(#[trigger] m.pending[j])
}

impl NewFileContentConstructor {
    pub closed spec fn wf(&self) -> bool {
        &&& well_formed(self@)
        &&& self.original_content.len() < usize::MAX
    }

    /// A fresh engine over the original text.
    pub fn new(original_content: String, is_final: bool) -> (r: Self)
        requires
            original_content@.len() < usize::MAX,
        ensures
            r@ == initial(original_content@, is_final),
            r.wf(),
    {
        let original = chars_of(original_content.as_str());
        Self::with_original(original, is_final)
    }

    fn with_original(original: Vec<char>, is_final: bool) -> (r: Self)
        requires
            original@.len() < usize::MAX,
        ensures
            r@ == initial(original@, is_final),
            r.wf(),
    {
        let ghost text = original@;
        let r = NewFileContentConstructor {
            original_content: original,
            is_final,
            state: ProcessingState::Idle,
            pending_non_standard_lines: Vec::new(),
            result: Vec::new(),
            last_processed_index: 0,
            current_search_content: Vec::new(),
            search_match: None,
        };
        proof {
            assert(views(r.pending_non_standard_lines@) =~= Seq::<Seq<char>>::empty());
            assert(r@ =~= initial(text, is_final));
        }
        r
    }

    fn reset_for_next_block(&mut self)
        ensures
            final(self)@ == cleared(old(self)@),
            final(self).original_content == old(self).original_content,
    {
        self.state = ProcessingState::Idle;
        self.current_search_content.clear();
        self.search_match = None;
        proof {
            assert(final(self)@ =~= cleared(old(self)@));
        }
    }

    /// The last of the first `line_limit` pending lines that salvage of this kind may rewrite.
    fn find_last_matching_line_index(&self, kind: Rescue, line_limit: usize) -> (r: Option<usize>)
        requires
            line_limit <= self@.pending.len(),
        ensures
            match r {
                Some(i) => i < line_limit && is_rescue(kind, self@.pending[i as int]),
                None => forall|j: int| 0 <= j < line_limit ==> !is_rescue(kind, self@.pending[j]),
            },
    {
        let mut i: usize = line_limit;
        while i > 0
            invariant
                i <= line_limit <= self@.pending.len(),
                forall|j: int| i <= j < line_limit ==> !is_rescue(kind, self@.pending[j]),
            decreases i,
        {
            i = i - 1;
            proof {
                assert(self@.pending[i as int] == self.pending_non_standard_lines@[i as int]@);
            }
            if is_rescue_line(kind, &self.pending_non_standard_lines[i]) {
                return Some(i);
            }
        }
        None
    }

    fn update_processing_state(&mut self, new_state: ProcessingState) -> (r: Result<(), DiffError>)
        ensures
            (old(self).state == ProcessingState::Idle && new_state == ProcessingState::StateSearch)
                || (old(self).state == ProcessingState::StateSearch && new_state
                == ProcessingState::StateReplace) ==> r is Ok && final(self)@ == (EngineState {
                state: new_state,
                ..old(self)@
            }),
            !((old(self).state == ProcessingState::Idle && new_state
                == ProcessingState::StateSearch) || (old(self).state
                == ProcessingState::StateSearch && new_state == ProcessingState::StateReplace))
                ==> r is Err && r->Err_0@ == Failure::InvalidStateTransition && final(self)@
                == old(self)@,
            final(self).original_content == old(self).original_content,
    {
        let is_valid_transition = (self.state == ProcessingState::Idle && new_state
            == ProcessingState::StateSearch) || (self.state == ProcessingState::StateSearch
            && new_state == ProcessingState::StateReplace);
        if !is_valid_transition {
            return Err(DiffError::InvalidStateTransition);
        }
        self.state = new_state;
        Ok(())
    }

    /// Whether the engine has reached `state` within the current block: a block
    /// whose replacement is being read is still one being searched, and every
    /// state counts as idle.
    fn is_state_active(&self, state: ProcessingState) -> (r: bool)
        ensures
            r == match state {
                ProcessingState::Idle => true,
                ProcessingState::StateSearch => self@.state != ProcessingState::Idle,
                ProcessingState::StateReplace => self@.state == ProcessingState::StateReplace,
            },
    {
        match state {
            ProcessingState::Idle => true,
            ProcessingState::StateSearch => self.state != ProcessingState::Idle,
            ProcessingState::StateReplace => self.state == ProcessingState::StateReplace,
        }
    }

    fn is_searching_active(&self) -> (r: bool)
        ensures
            r == (self@.state != ProcessingState::Idle),
    {
        self.is_state_active(ProcessingState::StateSearch)
    }

    fn is_replacing_active(&self) -> (r: bool)
        ensures
            r == (self@.state == ProcessingState::StateReplace),
    {
        self.is_state_active(ProcessingState::StateReplace)
    }

    /// Whether salvage has lines to work on: some of the first `limit` remain.
    fn has_pending_non_standard_lines(&self, limit: usize) -> (r: bool)
        requires
            limit <= self@.pending.len(),
        ensures
            r == (limit > 0),
    {
        limit > 0
    }

    /// Feeds one line of the diff to the engine.
    pub fn process_line(&mut self, line: String) -> (r: Result<(), DiffError>)
        requires
            old(self).wf(),
        ensures
            match feed(old(self)@, line@) {
                Ok(m) => r is Ok && final(self)@ == m && final(self).wf(),
                Err(f) => r is Err && r->Err_0@ == f,
            },
            r is Ok ==> well_formed(final(self)@) && old(self)@.cursor <= final(self)@.cursor,
    {
        let chars = chars_of(line.as_str());
        self.process_chars(&chars)
    }

    fn process_chars(&mut self, line: &Vec<char>) -> (r: Result<(), DiffError>)
        requires
            old(self).wf(),
        ensures
            match feed(old(self)@, line@) {
                Ok(m) => r is Ok && final(self)@ == m && final(self).wf(),
                Err(f) => r is Err && r->Err_0@ == f,
            },
            r is Ok ==> well_formed(final(self)@) && old(self)@.cursor <= final(self)@.cursor,
    {
        let limit = self.pending_non_standard_lines.len();
        match self.internal_process_line(line, true, limit) {
            Ok(_) => Ok(()),
            Err(e) => Err(e),
        }
    }

    fn activate_replace_state(&mut self) -> (r: Result<(), DiffError>)
        ensures
            old(self).state == ProcessingState::StateSearch ==> r is Ok && final(self)@ == (
            EngineState { state: ProcessingState::StateReplace, ..old(self)@ }),
            old(self).state != ProcessingState::StateSearch ==> r is Err && r->Err_0@
                == Failure::InvalidStateTransition,
            final(self).original_content == old(self).original_content,
    {
        self.update_processing_state(ProcessingState::StateReplace)
    }

    fn activate_search_state(&mut self) -> (r: Result<(), DiffError>)
        ensures
            old(self).state == ProcessingState::Idle ==> r is Ok && final(self)@ == (EngineState {
                state: ProcessingState::StateSearch,
                search: Seq::empty(),
                ..old(self)@
            }),
            old(self).state != ProcessingState::Idle ==> r is Err && r->Err_0@
                == Failure::InvalidStateTransition,
            final(self).original_content == old(self).original_content,
    {
        match self.update_processing_state(ProcessingState::StateSearch) {
            Ok(()) => {},
            Err(e) => return Err(e),
        }
        self.current_search_content.clear();
        proof {
            assert(final(self)@ =~= (EngineState {
                state: ProcessingState::StateSearch,
                search: Seq::empty(),
                ..old(self)@
            }));
        }
        Ok(())
    }

    /// Drops the blank lines that end the first `line_limit` pending lines, taking
    /// them from the end of the buffer, and says how many it dropped.
    fn trim_pending_non_standard_trailing_empty_lines(&mut self, line_limit: usize) -> (r: usize)
        requires
            old(self).wf(),
        ensures
            r == blank_tail(
                old(self)@.pending,
                if line_limit < old(self)@.pending.len() {
                    line_limit as int
                } else {
                    old(self)@.pending.len() as int
                },
            ),
            final(self)@ == (EngineState {
                pending: old(self)@.pending.take(old(self)@.pending.len() - r),
                ..old(self)@
            }),
            final(self).wf(),
    {
        let ghost m0 = self@;
        let len = self.pending_non_standard_lines.len();
        let top = if line_limit < len {
            line_limit
        } else {
            len
        };
        let mut i: usize = top;
        let mut removed: usize = 0;
        proof {
            assert(m0.pending.take(m0.pending.len() as int) =~= m0.pending);
            assert(self@ =~= (EngineState { pending: m0.pending.take(m0.pending.len() - 0), ..m0 }));
        }
        while i > 0 && is_blank(&self.pending_non_standard_lines[i - 1])
            invariant
                well_formed(m0),
                self.original_content.len() < usize::MAX,
                len == m0.pending.len(),
                top <= len,
                i + removed == top,
                self.pending_non_standard_lines.len() == len - removed,
                self@ == (EngineState { pending: m0.pending.take(len - removed), ..m0 }),
                blank_tail(m0.pending, top as int) == removed + blank_tail(m0.pending, i as int),
            decreases i,
        {
            proof {
                assert(self@.pending[i - 1] == m0.pending[i - 1]);
            }
            let ghost before = self@.pending;
            self.pending_non_standard_lines.pop();
            removed = removed + 1;
            i = i - 1;
            proof {
                assert(self@.pending =~= m0.pending.take(len - removed));
                assert(self@ == (EngineState { pending: m0.pending.take(len - removed), ..m0 }));
            }
        }
        proof {
            if i > 0 {
                assert(self@.pending[i - 1] == m0.pending[i - 1]);
            }
        }
        removed
    }

    /// On a separator: resolves the pattern and writes the original up to the match.
    fn before_replace(&mut self) -> (r: Result<(), DiffError>)
        requires
            well_formed(EngineState { state: ProcessingState::StateSearch, ..old(self)@ }),
            old(self)@.state == ProcessingState::StateReplace,
            old(self).original_content.len() < usize::MAX,
        ensures
            match resolve(old(self)@) {
                Ok(m) => r is Ok && final(self)@ == m && final(self).wf(),
                Err(f) => r is Err && r->Err_0@ == f && final(self)@ == old(self)@,
            },
    {
        let range: Option<(usize, usize)>;
        if self.current_search_content.len() == 0 {
            if self.original_content.len() == 0 {
                range = Some((0, 0));
            } else {
                range = Some((0, self.original_content.len()));
            }
        } else {
            range = locate_match(
                &self.original_content,
                &self.current_search_content,
                self.last_processed_index,
                false,
            );
            proof {
                lemma_locate_bounds(self@.original, self@.search, self@.cursor, false);
            }
        }
        match range {
            None => Err(DiffError::SearchBlockNotFound(
                string_of(&trim_end_of(&self.current_search_content)),
            )),
            Some((s, e)) => {
                if s < self.last_processed_index {
                    return Err(DiffError::SearchBlockIncorrectMatch(
                        string_of(&trim_end_of(&self.current_search_content)),
                    ));
                }
                let ghost m0 = self@;
                self.search_match = Some((s, e));
                append_range(&mut self.result, &self.original_content, self.last_processed_index, s);
                proof {
                    assert(self@ == (EngineState {
                        matched: Some((s as int, e as int)),
                        result: m0.result + m0.original.subrange(m0.cursor, s as int),
                        ..m0
                    }));
                    let pre = EngineState { state: ProcessingState::StateSearch, ..m0 };
                    assert forall|j: int| 0 <= j < self@.pending.len() implies !is_marker(
                        #[trigger] self@.pending[j],
                    ) by {
                        assert(pre.pending[j] == self@.pending[j]);
                    }
                    assert(well_formed(self@));
                    assert(self.wf());
                }
                Ok(())
            },
        }
    }

    /// Salvage of a separator that arrived outside a block: it would rewrite the last
    /// SEARCH-like pending line and feed the lines from there again. Such a line is
    /// a marker, and markers never reach the pending lines, so salvage finds none
    /// and the structural error stands.
    fn try_fix_search_block(&mut self, line_limit: usize) -> (r: Result<usize, DiffError>)
        requires
            old(self).wf(),
            line_limit <= old(self)@.pending.len(),
        ensures
            r is Err && r->Err_0@ == salvage_failure(
                line_limit as int,
                Failure::InvalidReplaceMarker(0),
            ),
            final(self)@ == old(self)@,
    {
        if line_limit == 0 {
            return Err(DiffError::NoLinesAvailable);
        }
        match self.find_last_matching_line_index(Rescue::SearchStart, line_limit) {
            None => Err(DiffError::InvalidReplaceMarker(0)),
            Some(i) => {
                proof {
                    lemma_rescue_lines_are_markers(Rescue::SearchStart, self@.pending[i as int]);
                    assert(false);
                }
                Err(DiffError::InvalidReplaceMarker(0))
            },
        }
    }

    /// Salvage of a REPLACE line that arrived outside the replacement part: it would
    /// rewrite the last separator-like pending line and feed the lines from there
    /// again. Such a line is a marker, so salvage finds none and the error stands.
    fn try_fix_replace_block(&mut self, line_limit: usize) -> (r: Result<usize, DiffError>)
        requires
            old(self).wf(),
            line_limit <= old(self)@.pending.len(),
        ensures
            r is Err && r->Err_0@ == salvage_failure(
                line_limit as int,
                Failure::MalformedReplaceBlock(0),
            ),
            final(self)@ == old(self)@,
    {
        if line_limit == 0 {
            return Err(DiffError::NoLinesAvailable);
        }
        match self.find_last_matching_line_index(Rescue::Separator, line_limit) {
            None => Err(DiffError::MalformedReplaceBlock(0)),
            Some(i) => {
                proof {
                    lemma_rescue_lines_are_markers(Rescue::Separator, self@.pending[i as int]);
                    assert(false);
                }
                Err(DiffError::MalformedReplaceBlock(0))
            },
        }
    }

    /// Salvage of a block left open before the next SEARCH line: when the last
    /// pending line looks like a REPLACE line it would be rewritten and fed again.
    /// Such a line is a marker, so salvage finds none and the error stands.
    fn try_fix_search_replace_block(&mut self, line_limit: usize) -> (r: Result<usize, DiffError>)
        requires
            old(self).wf(),
            line_limit <= old(self)@.pending.len(),
        ensures
            r is Err && r->Err_0@ == salvage_failure(
                line_limit as int,
                Failure::MissingReplaceMarker,
            ),
            final(self)@ == old(self)@,
    {
        if line_limit == 0 {
            return Err(DiffError::NoLinesAvailable);
        }
        let replace_end_tag_index = self.find_last_matching_line_index(
            Rescue::ReplaceEnd,
            line_limit,
        );
        if let Some(i) = replace_end_tag_index {
            proof {
                lemma_rescue_lines_are_markers(Rescue::ReplaceEnd, self@.pending[i as int]);
                assert(false);
            }
        }
        Err(DiffError::MissingReplaceMarker)
    }

    /// One line through the engine; see `step`.
    fn internal_process_line(
        &mut self,
        line: &Vec<char>,
        can_write_pending_non_standard_lines: bool,
        pending_non_standard_line_limit: usize,
    ) -> (r: Result<usize, DiffError>)
        requires
            old(self).wf(),
            pending_non_standard_line_limit <= old(self)@.pending.len(),
        ensures
            match step(
                old(self)@,
                line@,
                can_write_pending_non_standard_lines,
                pending_non_standard_line_limit as int,
            ) {
                Ok((m, k)) => r is Ok && r->Ok_0 == k && final(self)@ == m && final(self).wf(),
                Err(f) => r is Err && r->Err_0@ == f,
            },
    {
        let ghost m0 = self@;
        let mut limit = pending_non_standard_line_limit;
        let mut remove_line_count: usize = 0;
        if is_search_block_start(line) {
            remove_line_count = self.trim_pending_non_standard_trailing_empty_lines(limit);
            proof {
                lemma_blank_tail_bound(
                    m0.pending,
                    if limit < m0.pending.len() {
                        limit as int
                    } else {
                        m0.pending.len() as int
                    },
                );
            }
            if remove_line_count > 0 {
                limit = limit - remove_line_count;
            }
            if self.has_pending_non_standard_lines(limit) {
                match self.try_fix_search_replace_block(limit) {
                    Ok(_) => {},
                    Err(e) => return Err(e),
                }
                if can_write_pending_non_standard_lines {
                    self.pending_non_standard_lines.clear();
                }
            }
            match self.activate_search_state() {
                Ok(()) => {},
                Err(e) => return Err(e),
            }
        } else if is_search_block_end(line) {
            if !self.is_searching_active() {
                match self.try_fix_search_block(limit) {
                    Ok(_) => {},
                    Err(e) => return Err(e),
                }
                if can_write_pending_non_standard_lines {
                    self.pending_non_standard_lines.clear();
                }
            }
            match self.activate_replace_state() {
                Ok(()) => {},
                Err(e) => return Err(e),
            }
            match self.before_replace() {
                Ok(()) => {},
                Err(e) => return Err(e),
            }
        } else if is_replace_block_end(line) {
            if !self.is_replacing_active() {
                match self.try_fix_replace_block(limit) {
                    Ok(_) => {},
                    Err(e) => return Err(e),
                }
                if can_write_pending_non_standard_lines {
                    self.pending_non_standard_lines.clear();
                }
            }
            if let Some((_, end)) = self.search_match {
                self.last_processed_index = end;
            }
            self.reset_for_next_block();
            proof {
                assert(self@ =~= closed(m0));
            }
        } else if self.is_replacing_active() {
            if self.search_match.is_some() {
                append_line(&mut self.result, line);
            }
        } else if self.is_searching_active() {
            append_line(&mut self.current_search_content, line);
        } else if can_write_pending_non_standard_lines {
            let copy = copy_range(line, 0, line.len());
            proof {
                assert(line@.subrange(0, line@.len() as int) =~= line@);
            }
            self.pending_non_standard_lines.push(copy);
            proof {
                assert(self@.pending =~= m0.pending.push(line@));
            }
        }
        Ok(remove_line_count)
    }

    /// The output, once the diff's lines are all in.
    pub fn get_result(self) -> (r: Result<String, DiffError>)
        requires
            self.wf(),
        ensures
            outcome(r) == finish(self@),
    {
        let mut this = self;
        if this.is_final && this.is_replacing_active() && this.search_match.is_some() {
            if let Some((_, end)) = this.search_match {
                this.last_processed_index = end;
            }
            this.reset_for_next_block();
            proof {
                assert(this@ =~= closed(self@));
            }
        }
        if this.is_final && this.last_processed_index < this.original_content.len() {
            let n = this.original_content.len();
            append_range(&mut this.result, &this.original_content, this.last_processed_index, n);
        }
        if this.is_final && this.state != ProcessingState::Idle {
            return Err(DiffError::ProcessingIncomplete);
        }
        Ok(string_of(&this.result))
    }
}

/// Once a run of lines has failed, more lines do not change its error.
pub proof fn lemma_run_lines_error_persists(m: EngineState, lines: Seq<Seq<char>>, i: int)
    requires
        0 <= i <= lines.len(),
        run_lines(m, lines.take(i)) is Err,
    ensures
        run_lines(m, lines) == run_lines(m, lines.take(i)),
    decreases lines.len() - i,
{
    if i < lines.len() {
        assert(lines.take(i + 1).drop_last() =~= lines.take(i));
        lemma_run_lines_error_persists(m, lines, i + 1);
    } else {
        assert(lines.take(i) =~= lines);
    }
}

/// Applies a diff with the strict engine: blocks must come in the order of
/// their matches in the original. With `is_final` false the result is the output
/// so far, without the rest of the original.
pub fn construct_new_file_content_v2(
    diff_content: &str,
    original_content: &str,
    is_final: bool,
) -> (r: Result<String, DiffError>)
    requires
        original_content@.len() < usize::MAX,
    ensures
        outcome(r) == apply_strict(diff_content@, original_content@, is_final),
{
    let original = chars_of(original_content);
    let mut constructor = NewFileContentConstructor::with_original(original, is_final);
    let lines = prepare_diff_lines(diff_content);
    let ghost ls = views(lines@);
    let ghost m0 = initial(original_content@, is_final);
    let mut i: usize = 0;
    proof {
        assert(ls.take(0) =~= Seq::<Seq<char>>::empty());
    }
    while i < lines.len()
        invariant
            ls == views(lines@),
            ls == diff_lines(diff_content@),
            m0 == initial(original_content@, is_final),
            i <= lines.len(),
            constructor.wf(),
            run_lines(m0, ls.take(i as int)) == Ok::<EngineState, Failure>(constructor@),
        decreases lines.len() - i,
    {
        proof {
            assert(ls.take(i + 1).drop_last() =~= ls.take(i as int));
            assert(ls.take(i + 1).last() == lines@[i as int]@);
        }
        match constructor.process_chars(&lines[i]) {
            Ok(()) => {},
            Err(e) => {
                proof {
                    assert(run_lines(m0, ls.take(i + 1)) == Err::<EngineState, Failure>(e@));
                    lemma_run_lines_error_persists(m0, ls, i + 1);

                }
                return Err(e);
            },
        }
        i = i + 1;
    }
    proof {
        assert(ls.take(lines.len() as int) =~= ls);
    }
    constructor.get_result()
}

} // verus!
