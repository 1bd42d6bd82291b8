//! The main engine: a stackless walk of a compiled automaton over structural events.
//!
//! The executor keeps only the current state, the depth, and a small stack of frames
//! recording the state to restore when a container whose transition changed the state
//! is closed.
use vstd::prelude::*;
use smallvec::SmallVec;
use crate::classification::depth::is_opening_byte;
use crate::classification::quotes::{BACKSLASH, QUOTE};
use crate::classification::structural::{
    event_at, event_idx, is_event_pos, next_event_spec, BracketType, StructuralClassifier,
    StructuralEvent, COLON, OPENING_CURLY, OPENING_SQUARE,
};
use crate::engine::depth::{Depth, MAX_DEPTH};
use crate::engine::tail_skipping::TailSkip;
use crate::engine::walk::{
    closing_step, colon_step, comma_step, lemma_matching_close, lemma_next_from, next_from, opening_step, step, walk,
    walk_fuel, walk_measure, lemma_first_event_from, document_walk, query_result, Outcome, Walk,
};
use crate::error::{DepthError, EngineError};
use crate::input::{input_contents, Input};
use crate::query::{quoted, Automaton, Label, State};
use crate::result::QueryResult;

verus! {

/// ASCII whitespace: space, tab, line feed, form feed and carriage return.
pub open spec fn is_ws(b: u8) -> bool {
    b == 0x20u8 || b == 0x09u8 || b == 0x0au8 || b == 0x0cu8 || b == 0x0du8
}

/// Whether a byte is ASCII whitespace.
pub fn is_whitespace(b: u8) -> (r: bool)
    ensures
        r == is_ws(b),
{
    b == 0x20u8 || b == 0x09u8 || b == 0x0au8 || b == 0x0cu8 || b == 0x0du8
}

/// Offset of the last byte before `idx` that is not whitespace, or -1.
pub open spec fn last_non_ws_before(s: Seq<u8>, idx: int) -> int
    decreases idx,
{
    if idx <= 0 {
        -1
    } else if !is_ws(s[idx - 1]) {
        idx - 1
    } else {
        last_non_ws_before(s, idx - 1)
    }
}

/// Offset of the last double quote before `idx`, or -1.
pub open spec fn last_quote_before(s: Seq<u8>, idx: int) -> int
    decreases idx,
{
    if idx <= 0 {
        -1
    } else if s[idx - 1] == QUOTE {
        idx - 1
    } else {
        last_quote_before(s, idx - 1)
    }
}

/// Offset of the first byte in `s[lo..hi]` that is not whitespace, or -1.
pub open spec fn first_non_ws_from(s: Seq<u8>, lo: int, hi: int) -> int
    decreases hi - lo,
{
    if lo >= hi {
        -1
    } else if !is_ws(s[lo]) {
        lo
    } else {
        first_non_ws_from(s, lo + 1, hi)
    }
}

/// The colon that a value at `idx` follows, skipping whitespace.
pub open spec fn preceding_colon(s: Seq<u8>, idx: int) -> Option<int> {
    let j = last_non_ws_before(s, idx);
    if j >= 0 && s[j] == COLON {
        Some(j)
    } else {
        None
    }
}

/// Whether the member name whose closing quote is at `q` is `label`: the quoted label
/// ends at `q` and its opening quote is not preceded by a backslash.
pub open spec fn label_matches_at(s: Seq<u8>, q: int, label: Seq<u8>) -> bool {
    let start = q + 1 - (label.len() + 2);
    &&& 0 <= start
    &&& q < s.len()
    &&& s.subrange(start, q + 1) == quoted(label)
    &&& (start == 0 || s[start - 1] != BACKSLASH)
}

/// Index of the first transition at or after `i` whose label matches the member name
/// closed by the quote at `q`, or -1.
pub open spec fn first_matching(ts: Seq<(Label, State)>, s: Seq<u8>, q: int, i: int) -> int
    decreases ts.len() - i,
{
    if i < 0 || i >= ts.len() {
        -1
    } else if label_matches_at(s, q, ts[i].0@) {
        i
    } else {
        first_matching(ts, s, q, i + 1)
    }
}

proof fn lemma_last_before_range(s: Seq<u8>, idx: int)
    requires
        idx >= 0,
    ensures
        -1 <= last_non_ws_before(s, idx) < idx,
        -1 <= last_quote_before(s, idx) < idx,
    decreases idx,
{
    if idx > 0 {
        lemma_last_before_range(s, idx - 1);
    }
}

proof fn lemma_first_non_ws_range(s: Seq<u8>, lo: int, hi: int)
    ensures
        first_non_ws_from(s, lo, hi) == -1 || lo <= first_non_ws_from(s, lo, hi) < hi,
    decreases hi - lo,
{
    if lo < hi {
        lemma_first_non_ws_range(s, lo + 1, hi);
    }
}

/// A frame of the executor's stack: the state and container kind to restore when
/// the depth falls back to `depth`.
#[derive(Clone, Copy, Debug, PartialEq, Eq, Structural)]
pub struct StackFrame {
    pub depth: u8,
    pub state: State,
    pub is_list: bool,
}

/// A stack of frames, held inline up to 128 frames.
// Opaque to Verus: it cannot declare `SmallVec`, whose parameter is bound by smallvec's `Array` trait.
#[verifier::external_body]
pub struct SmallStack {
    contents: SmallVec<[StackFrame; 128]>,
}

/// The frames on a stack, bottom first.
pub uninterp spec fn stack_frames(s: SmallStack) -> Seq<StackFrame>;

/// Relies on `SmallVec::new`: the vector is empty.
#[verifier::external_body]
fn smallvec_new() -> (r: SmallStack)
    ensures
        stack_frames(r) == Seq::<StackFrame>::empty(),
{
    SmallStack { contents: SmallVec::new() }
}

/// Relies on `SmallVec::push`: the frame is appended.
#[verifier::external_body]
fn smallvec_push(s: &mut SmallStack, frame: StackFrame)
    requires
        stack_frames(*old(s)).len() < 256,
    ensures
        stack_frames(*final(s)) == stack_frames(*old(s)).push(frame),
{
    s.contents.push(frame)
}

/// Relies on `SmallVec::pop`: the last frame is removed and returned.
#[verifier::external_body]
fn smallvec_pop(s: &mut SmallStack) -> (r: Option<StackFrame>)
    ensures
        stack_frames(*old(s)).len() == 0 ==> r is None && stack_frames(*final(s)) == stack_frames(*old(s)),
        stack_frames(*old(s)).len() > 0 ==> r == Some(stack_frames(*old(s)).last())
            && stack_frames(*final(s)) == stack_frames(*old(s)).drop_last(),
{
    s.contents.pop()
}

/// Relies on `SmallVec`'s `Deref` to a slice and on `last`: a copy of the last frame.
#[verifier::external_body]
fn smallvec_last(s: &SmallStack) -> (r: Option<StackFrame>)
    ensures
        stack_frames(*s).len() == 0 ==> r is None,
        stack_frames(*s).len() > 0 ==> r == Some(stack_frames(*s).last()),
{
    s.contents.last().copied()
}

impl SmallStack {
    pub open spec fn frames(&self) -> Seq<StackFrame> {
        stack_frames(*self)
    }

    /// An empty stack.
    pub fn new() -> (r: Self)
        ensures
            r.frames() == Seq::<StackFrame>::empty(),
    {
        smallvec_new()
    }

    /// The top frame, if any.
    pub fn peek(&self) -> (r: Option<StackFrame>)
        ensures
            self.frames().len() == 0 ==> r is None,
            self.frames().len() > 0 ==> r == Some(self.frames().last()),
    {
        smallvec_last(self)
    }

    /// Pop the top frame if it was pushed at `depth` or deeper.
    pub fn pop_if_at_or_below(&mut self, depth: u8) -> (r: Option<StackFrame>)
        ensures
            old(self).frames().len() > 0 && depth <= old(self).frames().last().depth ==> {
                &&& r == Some(old(self).frames().last())
                &&& final(self).frames() == old(self).frames().drop_last()
            },
            !(old(self).frames().len() > 0 && depth <= old(self).frames().last().depth) ==> {
                &&& r is None
                &&& final(self).frames() == old(self).frames()
            },
    {
        match self.peek() {
            Some(frame) => {
                if depth <= frame.depth {
                    return smallvec_pop(self);
                }
                None
            },
            None => None,
        }
    }

    /// Push a frame.
    pub fn push(&mut self, value: StackFrame)
        requires
            old(self).frames().len() < 256,
        ensures
            final(self).frames() == old(self).frames().push(value),
    {
        smallvec_push(self, value)
    }
}

/// Which optimisations the engine applies. Tail skipping jumps over containers under a
/// rejecting fallback; unique labels, which needs tail skipping, leaves a container as soon
/// as a unitary state has matched in it.
#[derive(Clone, Copy, Debug, PartialEq, Eq, Structural)]
pub struct EngineOptions {
    pub tail_skip: bool,
    pub unique_labels: bool,
}

impl EngineOptions {
    /// Every optimisation on.
    pub fn all() -> (r: Self)
        ensures
            r.tail_skip,
            r.unique_labels,
    {
        EngineOptions { tail_skip: true, unique_labels: true }
    }

    /// Every optimisation off.
    pub fn none() -> (r: Self)
        ensures
            !r.tail_skip,
            !r.unique_labels,
    {
        EngineOptions { tail_skip: false, unique_labels: false }
    }

    /// Whether a unitary state leaves its container early.
    pub open spec fn skips_unitary(&self) -> bool {
        self.tail_skip && self.unique_labels
    }
}

/// An event is consistent with the document: a closing, possibly made up after a skip,
/// or a structural character at its offset.
pub open spec fn event_ok(s: Seq<u8>, e: StructuralEvent) -> bool {
    e is Closing || event_at(s, event_idx(e) as int) == Some(e)
}

/// The reports an opening at `idx` makes for the first element of a list, given the
/// event that followed it.
pub open spec fn list_reports(s: Seq<u8>, idx: int, next: Option<StructuralEvent>) -> Seq<usize> {
    match next {
        Some(StructuralEvent::Closing(_, c)) => {
            let j = first_non_ws_from(s, idx + 1, c as int);
            if j >= 0 {
                seq![j as usize]
            } else {
                Seq::empty()
            }
        },
        Some(StructuralEvent::Comma(_)) => seq![(idx + 1) as usize],
        _ => Seq::empty(),
    }
}

/// Some transition of `st` into an accepting state has the label closed by the quote at `q`.
pub open spec fn accepting_match(aut: &Automaton, st: State, s: Seq<u8>, q: int) -> bool {
    exists|i: int|
        0 <= i < aut.transitions_of(st).len() && aut.accepting(#[trigger] aut.transitions_of(st)[i].1)
            && label_matches_at(s, q, aut.transitions_of(st)[i].0@)
}

/// Index of the transition an opening at `idx` takes by its member name, or -1:
/// at depth zero, without a preceding colon, or when no label matches.
pub open spec fn opening_match(aut: &Automaton, st: State, depth: nat, s: Seq<u8>, idx: int) -> int {
    if depth == 0 {
        -1
    } else {
        match preceding_colon(s, idx) {
            Some(c) => if last_quote_before(s, c) >= 0 {
                first_matching(aut.transitions_of(st), s, last_quote_before(s, c), 0)
            } else {
                -1
            },
            None => -1,
        }
    }
}

/// An opening at `idx` under a rejecting fallback is skipped whole, with tail skipping on.
pub open spec fn opening_skips(aut: &Automaton, st: State, depth: nat, s: Seq<u8>, idx: int, tail_skip: bool) -> bool {
    tail_skip && opening_match(aut, st, depth, s, idx) < 0 && depth != 0 && aut.rejecting(aut.fallback_of(st))
}

/// The state entered by an opening at `idx` that is not skipped.
pub open spec fn opening_state(aut: &Automaton, st: State, depth: nat, s: Seq<u8>, idx: int) -> State {
    let mi = opening_match(aut, st, depth, s, idx);
    if mi >= 0 {
        aut.transitions_of(st)[mi].1
    } else if depth == 0 {
        st
    } else {
        aut.fallback_of(st)
    }
}

/// What an opening at `idx` reports for the container itself: the colon before it when
/// its label leads to an accepting state, or `idx` when an accepting fallback is taken.
pub open spec fn opening_reports(aut: &Automaton, st: State, depth: nat, s: Seq<u8>, idx: int) -> Seq<usize> {
    let mi = opening_match(aut, st, depth, s, idx);
    if mi >= 0 {
        if aut.accepting(aut.transitions_of(st)[mi].1) {
            seq![preceding_colon(s, idx)->Some_0 as usize]
        } else {
            Seq::empty()
        }
    } else if depth != 0 && aut.accepting(aut.fallback_of(st)) {
        seq![idx as usize]
    } else {
        Seq::empty()
    }
}

/// The label lookup for an opening at `idx` fails: a colon precedes it, no quote precedes
/// the colon, and the state has transitions to try.
pub open spec fn opening_malformed(aut: &Automaton, st: State, depth: nat, s: Seq<u8>, idx: int) -> bool {
    &&& depth != 0
    &&& preceding_colon(s, idx) is Some
    &&& last_quote_before(s, preceding_colon(s, idx)->Some_0) < 0
    &&& aut.transitions_of(st).len() > 0
}

/// The outcome of a handler: it goes on from `w`, or stopped with an error after the
/// reports in `w`.
pub open spec fn outcome_of(r: Result<(), EngineError>, w: Walk) -> Outcome {
    match r {
        Ok(()) => Outcome::Continue(w),
        Err(e) => Outcome::Failed(e, w.reports),
    }
}

struct Executor<'b> {
    depth: Depth,
    state: State,
    stack: SmallStack,
    automaton: &'b Automaton,
    bytes: &'b [u8],
    next_event: Option<StructuralEvent>,
    is_list: bool,
    options: EngineOptions,
}

fn query_executor<'b>(automaton: &'b Automaton, bytes: &'b [u8], options: EngineOptions) -> (r: Executor<'b>)
    requires
        automaton.wf(),
    ensures
        r.options == options,
        r.automaton == automaton,
        r.bytes == bytes,
        r.state == automaton.initial(),
        r.depth@ == 0,
        r.frames() == Seq::<StackFrame>::empty(),
        r.next_event is None,
        !r.is_list,
{
    Executor {
        depth: Depth::zero(),
        state: automaton.initial_state(),
        stack: SmallStack::new(),
        automaton,
        bytes,
        next_event: None,
        is_list: false,
        options,
    }
}

impl<'b> Executor<'b> {
    spec fn frames(&self) -> Seq<StackFrame> {
        self.stack.frames()
    }

    /// The executor and its classifier as a point of the walk.
    spec fn walk_of(&self, c: TailSkip<'b>, reports: Seq<usize>) -> Walk {
        Walk {
            depth: self.depth@,
            state: self.state,
            frames: self.frames(),
            is_list: self.is_list,
            next_event: self.next_event,
            cursor: c.cursor(),
            colons: c.colons_on(),
            commas: c.commas_on(),
            reports,
        }
    }

    /// Frames hold valid states, are pushed at increasing depths below `bound`.
    spec fn stack_below(&self, bound: nat) -> bool {
        let f = self.frames();
        &&& forall|i: int| 0 <= i < f.len() ==> {
            &&& self.automaton.valid_state((#[trigger] f[i]).state)
            &&& f[i].depth >= i
            &&& (f[i].depth as nat) < bound
        }
        &&& forall|i: int, j: int| 0 <= i < j < f.len() ==> #[trigger] f[i].depth < #[trigger] f[j].depth
    }

    spec fn wf(&self, c: TailSkip<'b>) -> bool {
        &&& self.automaton.wf()
        &&& self.automaton.valid_state(self.state)
        &&& self.stack_below(self.depth@)
        &&& c.wf()
        &&& c.input() == self.bytes@
        &&& match self.next_event {
            Some(e) => event_ok(self.bytes@, e),
            None => true,
        }
    }

    spec fn fallback(&self) -> State {
        self.automaton.fallback_of(self.state)
    }

    proof fn lemma_stack_len(&self, bound: nat)
        requires
            self.stack_below(bound),
        ensures
            self.frames().len() <= bound,
    {
        let f = self.frames();
        if f.len() > 0 {
            assert(f[f.len() - 1].depth >= f.len() - 1);
        }
    }

    /// The colon a value opened at `idx` follows, when not at the top level.
    fn find_preceding_colon(&self, idx: usize) -> (r: Option<usize>)
        requires
            idx <= self.bytes@.len(),
        ensures
            self.depth@ == 0 ==> r is None,
            self.depth@ != 0 ==> match preceding_colon(self.bytes@, idx as int) {
                Some(c) => r == Some(c as usize),
                None => r is None,
            },
    {
        if self.depth.is_zero() {
            return None;
        }
        let ghost s = self.bytes@;
        let mut j: usize = idx;
        while j > 0 && is_whitespace(self.bytes[j - 1])
            invariant
                j <= idx <= s.len(),
                s == self.bytes@,
                last_non_ws_before(s, idx as int) == last_non_ws_before(s, j as int),
            decreases j,
        {
            j -= 1;
        }
        if j == 0 {
            None
        } else if self.bytes[j - 1] == COLON {
            Some(j - 1)
        } else {
            None
        }
    }

    /// Whether the member name before the colon at `idx` is `label`.
    fn is_match(&self, idx: usize, label: &Label) -> (r: Result<bool, EngineError>)
        requires
            idx <= self.bytes@.len(),
            label.wf(),
        ensures
            last_quote_before(self.bytes@, idx as int) < 0 ==> r == Err::<bool, EngineError>(
                EngineError::MalformedLabelQuotes(idx),
            ),
            last_quote_before(self.bytes@, idx as int) >= 0 ==> r == Ok::<bool, EngineError>(
                label_matches_at(self.bytes@, last_quote_before(self.bytes@, idx as int), label@),
            ),
    {
        let ghost s = self.bytes@;
        let n: usize = self.bytes.len();
        let mut j: usize = idx;
        while j > 0 && self.bytes[j - 1] != QUOTE
            invariant
                j <= idx <= s.len(),
                s == self.bytes@,
                last_quote_before(s, idx as int) == last_quote_before(s, j as int),
            decreases j,
        {
            j -= 1;
        }
        if j == 0 {
            return Err(EngineError::MalformedLabelQuotes(idx));
        }
        let closing_quote_idx: usize = j - 1;
        let ghost q = closing_quote_idx as int;
        assert(last_quote_before(s, idx as int) == q);
        let expected = label.bytes_with_quotes();
        let len: usize = expected.len();
        if closing_quote_idx + 1 < len {
            return Ok(false);
        }
        let start: usize = closing_quote_idx + 1 - len;
        let mut k: usize = 0;
        while k < len
            invariant
                k <= len,
                len == expected@.len(),
                expected@ == quoted(label@),
                start + len == q + 1,
                q < s.len(),
                n == s.len(),
                s == self.bytes@,
                last_quote_before(s, idx as int) == q,
                forall|m: int| 0 <= m < k ==> s[start + m] == expected@[m],
            decreases len - k,
        {
            if self.bytes[start + k] != expected[k] {
                assert(s.subrange(start as int, q + 1)[k as int] != quoted(label@)[k as int]);
                return Ok(false);
            }
            k += 1;
        }
        assert(s.subrange(start as int, q + 1) =~= quoted(label@));
        Ok(start == 0 || self.bytes[start - 1] != BACKSLASH)
    }

    /// Enter `target` for a container opened by `opening`, saving the current state
    /// when either the state or the kind of container changes.
    fn transition_to(&mut self, target: State, opening: u8)
        requires
            old(self).stack_below(old(self).depth@),
            old(self).automaton.valid_state(old(self).state),
            old(self).automaton.valid_state(target),
        ensures
            final(self).stack_below(old(self).depth@ + 1),
            final(self).automaton == old(self).automaton,
            final(self).bytes == old(self).bytes,
            final(self).depth == old(self).depth,
            final(self).is_list == old(self).is_list,
            final(self).next_event == old(self).next_event,
            final(self).options == old(self).options,
            final(self).state == target,
            (target != old(self).state || (opening == OPENING_SQUARE) != old(self).is_list) ==> final(self).frames()
                == old(self).frames().push(
                StackFrame { depth: old(self).depth@ as u8, state: old(self).state, is_list: old(self).is_list },
            ),
            !(target != old(self).state || (opening == OPENING_SQUARE) != old(self).is_list) ==> final(self).frames()
                == old(self).frames(),
    {
        let target_is_list = opening == OPENING_SQUARE;
        if target != self.state || target_is_list != self.is_list {
            proof {
                self.lemma_stack_len(self.depth@);
            }
            let frame = StackFrame { depth: self.depth.get(), state: self.state, is_list: self.is_list };
            let ghost f0 = self.frames();
            proof {
                if f0.len() > 0 {
                    assert(f0[f0.len() - 1].depth >= f0.len() - 1);
                    assert(forall|i: int| 0 <= i < f0.len() ==> (#[trigger] f0[i]).depth <= f0[f0.len() - 1].depth);
                }
            }
            self.stack.push(frame);
            self.state = target;
            proof {
                let f = self.frames();
                assert(f[f0.len() as int] == frame);
                assert(forall|i: int| 0 <= i < f0.len() ==> #[trigger] f[i] == f0[i]);
            }
        }
    }

    /// A comma at `idx`: in a list whose fallback accepts, the element after it is
    /// reported, unless it is a container (then its opening reports it).
    fn handle_comma<R: QueryResult>(&mut self, classifier: &mut TailSkip<'b>, idx: usize, result: &mut R)
        requires
            old(self).wf(*old(classifier)),
            old(self).next_event is None,
            idx < old(self).bytes@.len(),
            old(result).result_inv(),
        ensures
            final(self).wf(*final(classifier)),
            final(self).automaton == old(self).automaton,
            final(self).bytes == old(self).bytes,
            final(self).depth == old(self).depth,
            final(self).state == old(self).state,
            final(self).is_list == old(self).is_list,
            final(self).frames() == old(self).frames(),
            final(self).options == old(self).options,
            final(classifier).colons_on() == old(classifier).colons_on(),
            final(classifier).commas_on() == old(classifier).commas_on(),
            final(result).result_inv(),
            final(self).walk_of(*final(classifier), final(result).reported()) == comma_step(
                old(self).automaton,
                old(self).bytes@,
                old(self).walk_of(*old(classifier), old(result).reported()),
                idx as int,
            ),
            next_event_spec(
                old(classifier).input(),
                old(classifier).cursor(),
                old(classifier).colons_on(),
                old(classifier).commas_on(),
                final(self).next_event,
                final(classifier).cursor(),
            ),
            final(result).reported() == if !(final(self).next_event matches Some(StructuralEvent::Opening(_, _)))
                && old(self).is_list && old(self).automaton.accepting(old(self).fallback()) {
                old(result).reported().push((idx + 1) as usize)
            } else {
                old(result).reported()
            },
    {
        proof {
            classifier.inner().lemma_cursor_bounded();
        }
        self.next_event = classifier.next();
        proof {
            lemma_next_from(
                old(classifier).input(),
                old(classifier).cursor(),
                old(classifier).colons_on(),
                old(classifier).commas_on(),
                self.next_event,
                classifier.cursor(),
            );
        }
        let is_next_opening = match self.next_event {
            Some(e) => e.is_opening(),
            None => false,
        };
        if !is_next_opening {
            let fallback_state = self.automaton.table(self.state).fallback_state();
            if self.is_list && self.automaton.is_accepting(fallback_state) {
                // The next element starts right after the comma.
                result.report(idx + 1);
            }
        }
        assert(self.frames() == old(self).frames());
    }

    /// A colon at `idx`: unless a container follows, the value after it is reported when
    /// the member name leads to an accepting state, or the fallback accepts.
    fn handle_colon<R: QueryResult>(&mut self, classifier: &mut TailSkip<'b>, idx: usize, result: &mut R)
        -> (r: Result<(), EngineError>)
        requires
            old(self).wf(*old(classifier)),
            old(self).next_event is None,
            idx < old(self).bytes@.len(),
            old(result).result_inv(),
        ensures
            final(result).result_inv(),
            r is Ok ==> final(self).wf(*final(classifier)),
            final(self).automaton == old(self).automaton,
            final(self).bytes == old(self).bytes,
            final(self).depth == old(self).depth,
            final(self).state == old(self).state,
            final(self).is_list == old(self).is_list,
            final(self).frames() == old(self).frames(),
            final(self).options == old(self).options,
            final(classifier).input() == old(classifier).input(),
            final(classifier).colons_on() == old(classifier).colons_on(),
            final(classifier).commas_on() == old(classifier).commas_on(),
            outcome_of(r, final(self).walk_of(*final(classifier), final(result).reported())) == colon_step(
                old(self).automaton,
                old(self).options,
                old(self).bytes@,
                old(self).walk_of(*old(classifier), old(result).reported()),
                idx as int,
            ),
            r is Ok ==> final(classifier).cursor() >= old(classifier).cursor(),
            r is Ok && final(self).next_event is Some ==> final(classifier).cursor() > old(classifier).cursor(),
            final(self).next_event matches Some(StructuralEvent::Opening(_, _)) ==> r is Ok
                && final(result).reported() == old(result).reported(),
            !(final(self).next_event matches Some(StructuralEvent::Opening(_, _))) ==> {
                let s = old(self).bytes@;
                let lq = last_quote_before(s, idx as int);
                let aut = old(self).automaton;
                if lq < 0 && aut.transition_to_accepting(old(self).state) {
                    r == Err::<(), EngineError>(EngineError::MalformedLabelQuotes(idx))
                        && final(result).reported() == old(result).reported()
                } else {
                    r is Ok && final(result).reported() == if (lq >= 0 && accepting_match(aut, old(self).state, s, lq))
                        || aut.accepting(old(self).fallback()) {
                        old(result).reported().push(idx)
                    } else {
                        old(result).reported()
                    }
                }
            },
    {
        proof {
            classifier.inner().lemma_cursor_bounded();
        }
        let ghost s = self.bytes@;
        let ghost lq = last_quote_before(s, idx as int);
        let ghost c0 = classifier.cursor();
        self.next_event = classifier.next();
        let ghost c1 = classifier.cursor();
        let ghost ne = self.next_event;
        proof {
            lemma_next_from(s, c0, old(classifier).colons_on(), old(classifier).commas_on(), ne, c1);
            classifier.inner().lemma_cursor_bounded();
        }
        let is_next_opening = match self.next_event {
            Some(e) => e.is_opening(),
            None => false,
        };
        if !is_next_opening {
            let mut any_matched = false;
            let transitions = self.automaton.table(self.state).transitions();
            let ghost ts = self.automaton.transitions_of(self.state);
            let mut i: usize = 0;
            while i < transitions.len()
                invariant_except_break
                    !any_matched,
                    result.reported() == old(result).reported(),
                invariant
                    transitions@ == ts,
                    ts == self.automaton.transitions_of(self.state),
                    self.automaton.wf(),
                    self.automaton.valid_state(self.state),
                    s == self.bytes@,
                    idx < s.len(),
                    lq == last_quote_before(s, idx as int),
                    i <= ts.len(),
                    result.result_inv(),
                    self.automaton == old(self).automaton,
                    self.bytes == old(self).bytes,
                    self.depth == old(self).depth,
                    self.state == old(self).state,
                    self.is_list == old(self).is_list,
                    self.stack == old(self).stack,
                    self.options == old(self).options,
                    self.next_event == ne,
                    classifier.cursor() == c1,
                    c0 == old(classifier).cursor(),
                    next_from(s, c0, old(classifier).colons_on(), old(classifier).commas_on()) == (ne, c1),
                    !(self.next_event matches Some(StructuralEvent::Opening(_, _))),
                    classifier.input() == old(classifier).input(),
                    classifier.colons_on() == old(classifier).colons_on(),
                    classifier.commas_on() == old(classifier).commas_on(),
                    forall|k: int| 0 <= k < i ==> !self.automaton.accepting(#[trigger] ts[k].1) || (lq >= 0 && !label_matches_at(s, lq, ts[k].0@)),
                    lq < 0 ==> forall|k: int| 0 <= k < i ==> !self.automaton.accepting(#[trigger] ts[k].1),
                ensures
                    result.result_inv(),
                    any_matched ==> lq >= 0 && accepting_match(self.automaton, self.state, s, lq)
                        && result.reported() == old(result).reported().push(idx),
                    !any_matched ==> !(lq >= 0 && accepting_match(self.automaton, self.state, s, lq))
                        && result.reported() == old(result).reported()
                        && (lq < 0 ==> !self.automaton.transition_to_accepting(self.state)),
                decreases ts.len() - i,
            {
                let label = &transitions[i].0;
                let target = transitions[i].1;
                proof {
                    assert(self.automaton.valid_state(ts[i as int].1));
                    assert(ts[i as int].0.wf());
                }
                if self.automaton.is_accepting(target) {
                    let matched = match self.is_match(idx, label) {
                        Ok(m) => m,
                        Err(e) => {
                            proof {
                                assert(self.automaton.transition_to_accepting(self.state));
                            }
                            return Err(e);
                        },
                    };
                    if matched {
                        result.report(idx);
                        any_matched = true;
                        break;
                    }
                }
                i += 1;
            }
            let fallback_state = self.automaton.table(self.state).fallback_state();
            if !any_matched && self.automaton.is_accepting(fallback_state) {
                result.report(idx);
            }
            let is_next_closing = match self.next_event {
                Some(e) => e.is_closing(),
                None => false,
            };
            // Labels are unique within an object: after a match in a unitary state nothing else in
            // the container can be selected. At the end of the input there is nothing left to skip.
            if self.options.tail_skip && self.options.unique_labels && any_matched && self.next_event.is_some()
                && !is_next_closing && self.automaton.is_unitary(self.state) {
                let opening = if self.is_list { OPENING_SQUARE } else { OPENING_CURLY };
                let stop_at = classifier.skip(opening);
                proof {
                    lemma_matching_close(s, opening, c1, stop_at as int);
                }
                let bracket_type = if self.is_list { BracketType::Square } else { BracketType::Curly };
                self.next_event = Some(StructuralEvent::Closing(bracket_type, stop_at));
            }
        }
        assert(self.frames() == old(self).frames());
        Ok(())
    }

    /// A closing bracket at `idx`: leave the container, restoring the state saved when it
    /// was entered; in a unitary state, skip the rest of the enclosing container.
    fn handle_closing(&mut self, classifier: &mut TailSkip<'b>, idx: usize) -> (r: Result<(), EngineError>)
        requires
            old(self).wf(*old(classifier)),
            old(self).next_event is None,
        ensures
            final(self).automaton == old(self).automaton,
            final(self).bytes == old(self).bytes,
            final(classifier).input() == old(classifier).input(),
            final(self).options == old(self).options,
            forall|reps: Seq<usize>|
                #[trigger] closing_step(
                    old(self).automaton,
                    old(self).options,
                    old(self).bytes@,
                    old(self).walk_of(*old(classifier), reps),
                    idx as int,
                ) == outcome_of(r, final(self).walk_of(*final(classifier), reps)),
            old(self).depth@ == 0 ==> *final(self) == *old(self) && *final(classifier) == *old(classifier),
            old(self).depth@ == 0 ==> r == Err::<(), EngineError>(EngineError::DepthBelowZero(idx, DepthError::BelowZero)),
            old(self).depth@ > 0 ==> {
                let f = old(self).frames();
                let pop = f.len() > 0 && old(self).depth@ - 1 <= f.last().depth;
                let aut = old(self).automaton;
                &&& r is Ok
                &&& final(self).wf(*final(classifier))
                &&& final(self).depth@ == old(self).depth@ - 1
                &&& final(classifier).cursor() >= old(classifier).cursor()
                &&& pop ==> final(self).frames() == f.drop_last() && final(self).state == f.last().state
                    && final(self).is_list == f.last().is_list
                &&& !pop ==> final(self).frames() == f && final(self).state == old(self).state
                    && final(self).is_list == old(self).is_list
                &&& (pop && old(self).options.skips_unitary() && aut.unitary(f.last().state)) ==> {
                    &&& final(self).next_event matches Some(StructuralEvent::Closing(_, _))
                    &&& final(classifier).colons_on() == old(classifier).colons_on()
                    &&& final(classifier).commas_on() == old(classifier).commas_on()
                }
                &&& !(pop && old(self).options.skips_unitary() && aut.unitary(f.last().state)) ==> {
                    &&& final(self).next_event is None
                    &&& final(classifier).cursor() == old(classifier).cursor()
                    &&& final(classifier).commas_on() == (final(self).is_list && aut.accepting(final(self).fallback()))
                    &&& final(classifier).colons_on() == (!final(self).is_list && aut.transition_to_accepting(final(self).state))
                }
            },
    {
        proof {
            classifier.inner().lemma_cursor_bounded();
        }
        match self.depth.decrement() {
            Ok(()) => {},
            Err(err) => {
                return Err(EngineError::DepthBelowZero(idx, err));
            },
        }
        let ghost f = self.frames();
        let popped = self.stack.pop_if_at_or_below(self.depth.get());
        proof {
            if f.len() > 0 {
                assert(forall|i: int| 0 <= i < f.len() - 1 ==> (#[trigger] f[i]).depth < f[f.len() - 1].depth);
                assert(forall|i: int| 0 <= i < f.len() - 1 ==> #[trigger] f.drop_last()[i] == f[i]);
            }
        }
        match popped {
            Some(stack_frame) => {
                assert(self.automaton.valid_state(f[f.len() - 1].state));
                self.state = stack_frame.state;
                self.is_list = stack_frame.is_list;
                if self.options.tail_skip && self.options.unique_labels && self.automaton.is_unitary(self.state) {
                    let opening = if self.is_list { OPENING_SQUARE } else { OPENING_CURLY };
                    let close_idx = classifier.skip(opening);
                    proof {
                        lemma_matching_close(old(classifier).input(), opening, old(classifier).cursor(), close_idx as int);
                    }
                    let bracket_type = if self.is_list { BracketType::Square } else { BracketType::Curly };
                    self.next_event = Some(StructuralEvent::Closing(bracket_type, close_idx));
                    proof {
                        assert(self.frames() == f.drop_last());
                        assert forall|reps: Seq<usize>|
                            #[trigger] closing_step(
                                old(self).automaton,
                                old(self).options,
                                old(self).bytes@,
                                old(self).walk_of(*old(classifier), reps),
                                idx as int,
                            ) == outcome_of(Ok(()), self.walk_of(*classifier, reps)) by {}
                    }
                    return Ok(());
                }
            },
            None => {},
        }
        let fallback_state = self.automaton.table(self.state).fallback_state();
        if self.is_list && self.automaton.is_accepting(fallback_state) {
            classifier.turn_commas_on(idx);
        } else {
            classifier.turn_commas_off();
        }
        if !self.is_list && self.automaton.has_transition_to_accepting(self.state) {
            classifier.turn_colons_on(idx);
        } else {
            classifier.turn_colons_off();
        }
        Ok(())
    }

    /// An opening bracket at `idx`: take the transition of the member name before it, or
    /// the fallback, or skip the container when the fallback rejects; then enter it.
    #[verifier::rlimit(100)]
    fn handle_opening<R: QueryResult>(&mut self, classifier: &mut TailSkip<'b>, idx: usize, result: &mut R)
        -> (r: Result<(), EngineError>)
        requires
            old(self).wf(*old(classifier)),
            old(self).next_event is None,
            idx < old(self).bytes@.len(),
            is_opening_byte(old(self).bytes@[idx as int]),
            old(result).result_inv(),
        ensures
            final(result).result_inv(),
            final(self).automaton == old(self).automaton,
            final(self).bytes == old(self).bytes,
            final(self).options == old(self).options,
            final(classifier).input() == old(classifier).input(),
            outcome_of(r, final(self).walk_of(*final(classifier), final(result).reported())) == opening_step(
                old(self).automaton,
                old(self).options,
                old(self).bytes@,
                old(self).walk_of(*old(classifier), old(result).reported()),
                idx as int,
            ),
            ({
                let s = old(self).bytes@;
                let aut = old(self).automaton;
                let st = old(self).state;
                let d = old(self).depth@;
                let b = s[idx as int];
                let new_state = opening_state(aut, st, d, s, idx as int);
                let list = b == OPENING_SQUARE;
                let changed = (opening_match(aut, st, d, s, idx as int) >= 0 || d != 0)
                    && (new_state != st || list != old(self).is_list);
                if opening_malformed(aut, st, d, s, idx as int) {
                    &&& r == Err::<(), EngineError>(EngineError::MalformedLabelQuotes(preceding_colon(s, idx as int)->Some_0 as usize))
                    &&& final(result).reported() == old(result).reported()
                } else if opening_skips(aut, st, d, s, idx as int, old(self).options.tail_skip) {
                    &&& r is Ok
                    &&& final(self).wf(*final(classifier))
                    &&& final(self).depth == old(self).depth
                    &&& final(self).state == st
                    &&& final(self).is_list == old(self).is_list
                    &&& final(self).frames() == old(self).frames()
                    &&& final(self).next_event is None
                    &&& final(result).reported() == old(result).reported()
                    &&& final(classifier).colons_on() == old(classifier).colons_on()
                    &&& final(classifier).commas_on() == old(classifier).commas_on()
                    &&& final(classifier).cursor() >= old(classifier).cursor()
                } else {
                    &&& final(self).state == new_state
                    &&& final(self).is_list == list
                    &&& changed ==> final(self).frames() == old(self).frames().push(
                        StackFrame { depth: d as u8, state: st, is_list: old(self).is_list },
                    )
                    &&& !changed ==> final(self).frames() == old(self).frames()
                    &&& final(result).reported() == old(result).reported() + opening_reports(aut, st, d, s, idx as int)
                        + if list && aut.accepting(aut.fallback_of(new_state)) {
                        list_reports(s, idx as int, final(self).next_event)
                    } else {
                        Seq::<usize>::empty()
                    }
                    &&& (list && aut.accepting(aut.fallback_of(new_state))) ==> next_event_spec(
                        s,
                        old(classifier).cursor(),
                        old(classifier).colons_on(),
                        true,
                        final(self).next_event,
                        final(classifier).cursor(),
                    )
                    &&& !(list && aut.accepting(aut.fallback_of(new_state))) ==> final(self).next_event is None
                        && final(classifier).cursor() == old(classifier).cursor()
                    &&& list ==> final(classifier).commas_on() == aut.accepting(aut.fallback_of(new_state))
                    &&& !list ==> final(classifier).commas_on() == old(classifier).commas_on()
                    &&& final(classifier).colons_on() == (!list && aut.transition_to_accepting(new_state))
                    &&& d >= MAX_DEPTH ==> r == Err::<(), EngineError>(
                        EngineError::DepthAboveLimit(idx, DepthError::AboveLimit(MAX_DEPTH as usize)),
                    )
                    &&& d < MAX_DEPTH ==> r is Ok && final(self).depth@ == d + 1 && final(self).wf(*final(classifier))
                }
            }),
    {
        proof {
            classifier.inner().lemma_cursor_bounded();
        }
        let ghost s = self.bytes@;
        let ghost st = self.state;
        let ghost d = self.depth@;
        let ghost ts = self.automaton.transitions_of(st);
        proof {
            self.depth.lemma_bounded();
        }
        let aut: &'b Automaton = self.automaton;
        let b = self.bytes[idx];
        proof {
            lemma_last_before_range(s, idx as int);
        }
        let mut any_matched = false;
        match self.find_preceding_colon(idx) {
            Some(colon_idx) => {
                let ghost lq = last_quote_before(s, colon_idx as int);
                proof {
                    lemma_last_before_range(s, colon_idx as int);
                }
                assert(self.frames() == old(self).frames());
                let transitions = aut.table(self.state).transitions();
                let mut i: usize = 0;
                while i < transitions.len()
                    invariant_except_break
                        !any_matched,
                        self.state == st,
                        self.frames() == old(self).frames(),
                        result.reported() == old(result).reported(),
                    invariant
                        transitions@ == ts,
                        ts == aut.transitions_of(st),
                        aut.wf(),
                        aut.valid_state(st),
                        aut == old(self).automaton,
                        self.automaton == aut,
                        self.bytes == old(self).bytes,
                        self.depth == old(self).depth,
                        d == self.depth@,
                        st == old(self).state,
                        s == old(self).bytes@,
                        self.options == old(self).options,
                        self.is_list == old(self).is_list,
                        self.next_event is None,
                        *classifier == *old(classifier),
                        self.stack_below(d + 1),
                        any_matched ==> self.automaton.valid_state(self.state),
                        !any_matched ==> self.stack_below(d),
                        s == self.bytes@,
                        colon_idx < idx < s.len(),
                        d != 0,
                        preceding_colon(s, idx as int) == Some(colon_idx as int),
                        lq == last_quote_before(s, colon_idx as int),
                        i <= ts.len(),
                        result.result_inv(),
                        i > 0 ==> lq >= 0,
                        lq >= 0 ==> first_matching(ts, s, lq, 0) == first_matching(ts, s, lq, i as int),
                    ensures
                        any_matched ==> {
                            let mi = first_matching(ts, s, lq, 0);
                            &&& lq >= 0
                            &&& 0 <= mi < ts.len()
                            &&& self.state == ts[mi].1
                            &&& (ts[mi].1 != st || (b == OPENING_SQUARE) != old(self).is_list) ==> self.frames()
                                == old(self).frames().push(
                                StackFrame { depth: d as u8, state: st, is_list: old(self).is_list },
                            )
                            &&& !(ts[mi].1 != st || (b == OPENING_SQUARE) != old(self).is_list) ==> self.frames()
                                == old(self).frames()
                            &&& result.reported() == old(result).reported() + if aut.accepting(ts[mi].1) {
                                seq![colon_idx]
                            } else {
                                Seq::<usize>::empty()
                            }
                        },
                        !any_matched ==> (lq >= 0 ==> first_matching(ts, s, lq, 0) == -1) && (lq < 0 ==> ts.len() == 0)
                            && self.state == st && self.frames() == old(self).frames()
                            && result.reported() == old(result).reported() && self.stack_below(d),
                    decreases ts.len() - i,
                {
                    let label = &transitions[i].0;
                    let target = transitions[i].1;
                    proof {
                        assert(aut.valid_state(ts[i as int].1));
                        assert(ts[i as int].0.wf());
                    }
                    match self.is_match(colon_idx, label) {
                        Err(e) => {
                            assert(opening_malformed(aut, st, d, s, idx as int));
                            return Err(e);
                        },
                        Ok(m) => {
                            if m {
                                self.transition_to(target, b);
                                any_matched = true;
                                if aut.is_accepting(target) {
                                    result.report(colon_idx);
                                }
                                assert(result.reported() =~= old(result).reported() + if aut.accepting(ts[i as int].1) {
                                    seq![colon_idx]
                                } else {
                                    Seq::<usize>::empty()
                                });
                                break;
                            }
                        },
                    }
                    i += 1;
                }
            },
            None => {},
        }
        if !any_matched && !self.depth.is_zero() {
            let fallback = aut.table(self.state).fallback_state();
            if self.options.tail_skip && aut.is_rejecting(fallback) {
                let k = classifier.skip(b);
                proof {
                    lemma_matching_close(s, b, old(classifier).cursor(), k as int);
                }
                return Ok(());
            }
            self.transition_to(fallback, b);
            if aut.is_accepting(fallback) {
                result.report(idx);
            }
        }
        let ghost before_list = result.reported();
        if b == OPENING_SQUARE {
            self.is_list = true;
            let fallback = aut.table(self.state).fallback_state();
            if aut.is_accepting(fallback) {
                classifier.turn_commas_on(idx);
                let ghost before_next = *classifier;
                self.next_event = classifier.next();
                proof {
                    lemma_next_from(s, before_next.cursor(), before_next.colons_on(), true, self.next_event, classifier.cursor());
                }
                match self.next_event {
                    Some(StructuralEvent::Closing(_, close_idx)) => {
                        let mut next_idx: usize = idx + 1;
                        while next_idx < close_idx
                            invariant_except_break
                                result.reported() == before_list,
                            invariant
                                idx < next_idx,
                                close_idx < s.len(),
                                s == self.bytes@,
                                result.result_inv(),
                                first_non_ws_from(s, idx + 1, close_idx as int) == first_non_ws_from(s, next_idx as int, close_idx as int),
                            ensures
                                first_non_ws_from(s, idx + 1, close_idx as int) >= 0 ==> result.reported() == before_list.push(
                                    first_non_ws_from(s, idx + 1, close_idx as int) as usize,
                                ),
                                first_non_ws_from(s, idx + 1, close_idx as int) < 0 ==> result.reported() == before_list,
                            decreases close_idx - next_idx,
                        {
                            if !is_whitespace(self.bytes[next_idx]) {
                                result.report(next_idx);
                                break;
                            }
                            next_idx += 1;
                        }
                    },
                    Some(StructuralEvent::Comma(_)) => {
                        result.report(idx + 1);
                    },
                    _ => {},
                }
            } else {
                classifier.turn_commas_off();
            }
        } else {
            self.is_list = false;
        }
        if !self.is_list && aut.has_transition_to_accepting(self.state) {
            classifier.turn_colons_on(idx);
        } else {
            classifier.turn_colons_off();
        }
        proof {
            let w = old(self).walk_of(*old(classifier), old(result).reported());
            let new_state = opening_state(aut, st, d, s, idx as int);
            let list = s[idx as int] == OPENING_SQUARE;
            let list_accepts = list && aut.accepting(aut.fallback_of(new_state));
            let nf = next_from(s, w.cursor, w.colons, true);
            assert(!opening_malformed(aut, st, d, s, idx as int));
            assert(!opening_skips(aut, st, d, s, idx as int, old(self).options.tail_skip));
            assert(list_accepts ==> self.next_event == nf.0);
            assert(list_accepts ==> classifier.cursor() == nf.1);
            assert(!list_accepts ==> self.next_event is None);
            assert(!list_accepts ==> classifier.cursor() == w.cursor);
            assert(classifier.colons_on() == (!list && aut.transition_to_accepting(new_state)));
            assert(classifier.commas_on() == if list { list_accepts } else { w.commas });
            let changed = (opening_match(aut, st, d, s, idx as int) >= 0 || d != 0) && (new_state != st || list != w.is_list);
            assert(self.state == new_state);
            assert(self.is_list == list);
            assert(self.frames() == if changed {
                w.frames.push(StackFrame { depth: d as u8, state: st, is_list: w.is_list })
            } else {
                w.frames
            });
            let next_event = if list_accepts { nf.0 } else { None };
            assert(result.reported() == w.reports + opening_reports(aut, st, d, s, idx as int) + if list_accepts {
                list_reports(s, idx as int, next_event)
            } else {
                Seq::<usize>::empty()
            });
        }
        match self.depth.increment() {
            Ok(()) => {},
            Err(err) => {
                return Err(EngineError::DepthAboveLimit(idx, err));
            },
        }
        Ok(())
    }

    /// Walk the events until the container open at the start closes, or the input ends.
    #[verifier::rlimit(100)]
    fn run_on_subtree<R: QueryResult>(&mut self, classifier: &mut TailSkip<'b>, result: &mut R)
        -> (r: Result<(), EngineError>)
        requires
            old(self).wf(*old(classifier)),
            old(result).result_inv(),
            all_within(old(result).reported(), old(self).bytes@.len() as int),
        ensures
            final(result).result_inv(),
            all_within(final(result).reported(), old(self).bytes@.len() as int),
            final(self).bytes == old(self).bytes,
            final(self).automaton == old(self).automaton,
            final(self).options == old(self).options,
            r is Ok ==> final(self).wf(*final(classifier)),
            ({
                let s = old(self).bytes@;
                let w = old(self).walk_of(*old(classifier), old(result).reported());
                let out = walk(old(self).automaton, old(self).options, s, w, walk_fuel(s, w));
                match r {
                    Ok(()) => out == Outcome::Done(final(self).walk_of(*final(classifier), final(result).reported())),
                    Err(e) => out == Outcome::Failed(e, final(result).reported()),
                }
            }),
    {
        let ghost s = self.bytes@;
        let ghost aut = self.automaton;
        let ghost opts = self.options;
        let ghost wstart = self.walk_of(*classifier, result.reported());
        let ghost f0: nat = walk_fuel(s, wstart);
        let ghost mut fuel: nat = f0;
        proof {
            classifier.inner().lemma_cursor_bounded();
        }
        loop
            invariant_except_break
                walk(aut, opts, s, wstart, f0) == walk(aut, opts, s, self.walk_of(*classifier, result.reported()), fuel),
                fuel >= walk_measure(s, self.walk_of(*classifier, result.reported())) + 1,
            invariant
                self.wf(*classifier),
                result.result_inv(),
                self.bytes == old(self).bytes,
                s == self.bytes@,
                aut == self.automaton,
                aut == old(self).automaton,
                opts == self.options,
                opts == old(self).options,
                wstart == old(self).walk_of(*old(classifier), old(result).reported()),
                f0 == walk_fuel(s, wstart),
                all_within(result.reported(), self.bytes@.len() as int),
            ensures
                self.wf(*classifier),
                result.result_inv(),
                self.bytes == old(self).bytes,
                self.automaton == old(self).automaton,
                self.options == old(self).options,
                all_within(result.reported(), self.bytes@.len() as int),
                walk(aut, opts, s, wstart, f0) == Outcome::Done(self.walk_of(*classifier, result.reported())),
            decreases 4 * (self.bytes@.len() - classifier.cursor()) + (if self.next_event is Some { 2int } else { 0int })
                + self.depth@,
        {
            proof {
                classifier.inner().lemma_cursor_bounded();
            }
            let ghost wc = self.walk_of(*classifier, result.reported());
            let ghost f0s = self.frames();
            let event = match self.next_event {
                Some(e) => e,
                None => {
                    let ghost cb = *classifier;
                    let next = classifier.next();
                    proof {
                        lemma_next_from(s, cb.cursor(), cb.colons_on(), cb.commas_on(), next, classifier.cursor());
                    }
                    match next {
                        Some(e) => e,
                        None => {
                            proof {
                                assert(self.frames() == f0s);
                                assert(step(aut, opts, s, wc) == Outcome::Done(self.walk_of(*classifier, result.reported())));
                            }
                            break;
                        },
                    }
                },
            };
            self.next_event = None;
            assert(self.frames() == f0s);
            assert(event_at(self.bytes@, event_idx(event) as int) == Some(event) || event is Closing);
            let ghost w0 = self.walk_of(*classifier, result.reported());
            match event {
                StructuralEvent::Colon(idx) => {
                    let res = self.handle_colon(classifier, idx, result);
                    proof {
                        assert(step(aut, opts, s, wc) == outcome_of(res, self.walk_of(*classifier, result.reported())));
                    }
                    match res {
                        Ok(()) => {},
                        Err(e) => {
                            return Err(e);
                        },
                    }
                },
                StructuralEvent::Comma(idx) => {
                    self.handle_comma(classifier, idx, result);
                    proof {
                        assert(step(aut, opts, s, wc) == Outcome::Continue(self.walk_of(*classifier, result.reported())));
                    }
                },
                StructuralEvent::Opening(_, idx) => {
                    let res = self.handle_opening(classifier, idx, result);
                    proof {
                        assert(step(aut, opts, s, wc) == outcome_of(res, self.walk_of(*classifier, result.reported())));
                        lemma_opening_step_within(aut, opts, s, w0, idx as int);
                    }
                    match res {
                        Ok(()) => {},
                        Err(e) => {
                            return Err(e);
                        },
                    }
                },
                StructuralEvent::Closing(_, idx) => {
                    let res = self.handle_closing(classifier, idx);
                    proof {
                        assert(closing_step(aut, opts, s, w0, idx as int) == outcome_of(
                            res,
                            self.walk_of(*classifier, result.reported()),
                        ));
                    }
                    match res {
                        Ok(()) => {},
                        Err(e) => {
                            return Err(e);
                        },
                    }
                    if self.depth.is_zero() {
                        proof {
                            assert(step(aut, opts, s, wc) == Outcome::Done(self.walk_of(*classifier, result.reported())));
                        }
                        break;
                    }
                    proof {
                        assert(step(aut, opts, s, wc) == Outcome::Continue(self.walk_of(*classifier, result.reported())));
                    }
                },
            }
            proof {
                classifier.inner().lemma_cursor_bounded();
                assert(walk_measure(s, self.walk_of(*classifier, result.reported())) < walk_measure(s, wc));
                fuel = (fuel - 1) as nat;
            }
        }
        Ok(())
    }

    /// Run the query over the whole document.
    fn run<R: QueryResult>(&mut self, result: &mut R) -> (r: Result<(), EngineError>)
        requires
            old(self).automaton.wf(),
            old(self).automaton.valid_state(old(self).state),
            old(self).stack_below(old(self).depth@),
            old(self).next_event is None,
            old(self).bytes@.len() % 64 == 0,
            old(self).bytes@.len() <= isize::MAX,
            old(result).result_inv(),
            all_within(old(result).reported(), old(self).bytes@.len() as int),
        ensures
            final(result).result_inv(),
            all_within(final(result).reported(), old(self).bytes@.len() as int),
            ({
                let s = old(self).bytes@;
                let w = Walk {
                    depth: old(self).depth@,
                    state: old(self).state,
                    frames: old(self).frames(),
                    is_list: old(self).is_list,
                    next_event: None,
                    cursor: 0,
                    colons: false,
                    commas: false,
                    reports: old(result).reported(),
                };
                match walk(old(self).automaton, old(self).options, s, w, walk_fuel(s, w)) {
                    Outcome::Done(wd) => if wd.depth == 0 {
                        r is Ok && final(result).reported() == wd.reports
                    } else {
                        r == Err::<(), EngineError>(EngineError::MissingClosingCharacter())
                    },
                    Outcome::Failed(e, _) => r == Err::<(), EngineError>(e),
                    Outcome::Continue(_) => false,
                }
            }),
    {
        let structural_classifier = StructuralClassifier::new(self.bytes);
        let mut classifier = TailSkip::new(structural_classifier);
        match self.run_on_subtree(&mut classifier, result) {
            Ok(()) => {},
            Err(e) => {
                return Err(e);
            },
        }
        self.verify_subtree_closed()
    }

    fn verify_subtree_closed(&self) -> (r: Result<(), EngineError>)
        ensures
            self.depth@ == 0 ==> r is Ok,
            self.depth@ != 0 ==> r == Err::<(), EngineError>(EngineError::MissingClosingCharacter()),
    {
        if !self.depth.is_zero() {
            Err(EngineError::MissingClosingCharacter())
        } else {
            Ok(())
        }
    }
}

/// Every offset in `rep` is at most `n`.
pub open spec fn all_within(rep: Seq<usize>, n: int) -> bool {
    forall|k: int| 0 <= k < rep.len() ==> rep[k] <= n
}

proof fn lemma_all_within_concat(a: Seq<usize>, b: Seq<usize>, n: int)
    requires
        all_within(a, n),
        all_within(b, n),
    ensures
        all_within(a + b, n),
{
    assert forall|k: int| 0 <= k < (a + b).len() implies (a + b)[k] <= n by {
        if k >= a.len() {
            assert((a + b)[k] == b[k - a.len()]);
        }
    }
}

proof fn lemma_opening_step_within(aut: &Automaton, opts: EngineOptions, s: Seq<u8>, w: Walk, idx: int)
    requires
        all_within(w.reports, s.len() as int),
        0 <= idx < s.len(),
        0 <= w.cursor <= s.len(),
    ensures
        match opening_step(aut, opts, s, w, idx) {
            Outcome::Continue(w1) => all_within(w1.reports, s.len() as int),
            Outcome::Failed(_, r) => all_within(r, s.len() as int),
            Outcome::Done(w1) => all_within(w1.reports, s.len() as int),
        },
{
    let n = s.len() as int;
    let st = w.state;
    let d = w.depth;
    lemma_last_before_range(s, idx);
    if !opening_malformed(aut, st, d, s, idx) && !opening_skips(aut, st, d, s, idx, opts.tail_skip) {
        let new_state = opening_state(aut, st, d, s, idx);
        let list_accepts = s[idx] == OPENING_SQUARE && aut.accepting(aut.fallback_of(new_state));
        let nf = next_from(s, w.cursor, w.colons, true);
        lemma_first_event_from(s, w.cursor, w.colons, true);
        let next_event = if list_accepts { nf.0 } else { None };
        if let Some(StructuralEvent::Closing(_, c)) = next_event {
            lemma_first_non_ws_range(s, idx + 1, c as int);
        }
        let first = opening_reports(aut, st, d, s, idx);
        let rest = if list_accepts {
            list_reports(s, idx, next_event)
        } else {
            Seq::<usize>::empty()
        };
        assert(all_within(first, n));
        assert(all_within(rest, n));
        lemma_all_within_concat(w.reports, first, n);
        lemma_all_within_concat(w.reports + first, rest, n);
    }
}

/// Whether offset `i` holds the first bracket outside string literals.
pub open spec fn is_first_bracket(s: Seq<u8>, i: int) -> bool {
    &&& is_event_pos(s, i, false, false)
    &&& forall|j: int| 0 <= j < i ==> !is_event_pos(s, j, false, false)
}

/// The query `$`: the opening of the root container is reported, if the document
/// starts with one.
fn empty_query<R: QueryResult>(bytes: &[u8]) -> (r: R)
    requires
        bytes@.len() % 64 == 0,
        bytes@.len() <= isize::MAX,
    ensures
        r.result_inv(),
        r.reported().len() <= 1,
        r.reported().len() == 1 ==> is_first_bracket(bytes@, r.reported()[0] as int)
            && event_at(bytes@, r.reported()[0] as int) matches Some(StructuralEvent::Opening(_, _)),
        r.reported().len() == 0 ==> forall|i: int| #[trigger] is_first_bracket(bytes@, i)
            ==> !(event_at(bytes@, i) matches Some(StructuralEvent::Opening(_, _))),
{
    let mut block_event_source = StructuralClassifier::new(bytes);
    let mut result = R::new();
    let first = block_event_source.next();
    match first {
        Some(StructuralEvent::Opening(_, idx)) => {
            result.report(idx);
        },
        _ => {},
    }
    proof {
        match first {
            Some(e) => {
                assert forall|i: int| #[trigger] is_first_bracket(bytes@, i) implies i == event_idx(e) by {
                    if i < event_idx(e) {
                    } else if i > event_idx(e) {
                        assert(is_event_pos(bytes@, event_idx(e) as int, false, false));
                    }
                }
            },
            None => {},
        }
    }
    result
}

/// Main engine for a fixed query: a compiled automaton, run on any number of inputs.
pub struct MainEngine {
    automaton: Automaton,
    options: EngineOptions,
}

impl MainEngine {
    pub closed spec fn automaton_spec(&self) -> Automaton {
        self.automaton
    }

    pub open spec fn wf(&self) -> bool {
        self.automaton_spec().wf()
    }

    pub closed spec fn options_spec(&self) -> EngineOptions {
        self.options
    }

    /// An engine running the given automaton with every optimisation on.
    pub fn from_compiled_query(automaton: Automaton) -> (r: MainEngine)
        requires
            automaton.wf(),
        ensures
            r.wf(),
            r.automaton_spec() == automaton,
            r.options_spec().tail_skip,
            r.options_spec().unique_labels,
    {
        MainEngine { automaton, options: EngineOptions::all() }
    }

    /// An engine running the given automaton with the given optimisations.
    pub fn with_options(automaton: Automaton, options: EngineOptions) -> (r: MainEngine)
        requires
            automaton.wf(),
        ensures
            r.wf(),
            r.automaton_spec() == automaton,
            r.options_spec() == options,
    {
        MainEngine { automaton, options }
    }

    /// Run the query on an input, collecting what it reports in a fresh sink.
    pub fn run<R: QueryResult>(&self, input: &Input) -> (r: Result<R, EngineError>)
        requires
            self.wf(),
            input_contents(*input).len() % 64 == 0,
            input_contents(*input).len() <= isize::MAX,
        ensures
            r is Ok ==> r->Ok_0.result_inv(),
            r is Ok ==> all_within(r->Ok_0.reported(), input_contents(*input).len() as int),
            !self.automaton_spec().accepting(self.automaton_spec().initial()) ==> {
                let s = input_contents(*input);
                &&& !(document_walk(&self.automaton_spec(), self.options_spec(), s) is Continue)
                &&& match query_result(&self.automaton_spec(), self.options_spec(), s) {
                    Ok(rep) => r is Ok && r->Ok_0.reported() == rep,
                    Err(e) => r is Err && r->Err_0 == e,
                }
            },
            self.automaton_spec().accepting(self.automaton_spec().initial()) ==> {
                let s = input_contents(*input);
                let rep = r->Ok_0.reported();
                &&& r is Ok
                &&& rep.len() <= 1
                &&& rep.len() == 1 ==> is_first_bracket(s, rep[0] as int)
                    && (event_at(s, rep[0] as int) matches Some(StructuralEvent::Opening(_, _)))
                &&& rep.len() == 0 ==> forall|i: int| #[trigger] is_first_bracket(s, i)
                    ==> !(event_at(s, i) matches Some(StructuralEvent::Opening(_, _)))
            },
    {
        let bytes = input.as_bytes();
        if self.automaton.is_empty_query() {
            return Ok(empty_query(bytes));
        }
        let mut result = R::new();
        let mut executor = query_executor(&self.automaton, bytes, self.options);
        match executor.run(&mut result) {
            Ok(()) => Ok(result),
            Err(e) => Err(e),
        }
    }
}

} // verus!
