//! The executor's behaviour as a specification: a walk over the structural events of a
//! document, one event at a time, that says what a query reports and which error it
//! ends with.
use vstd::prelude::*;
use crate::classification::depth::{delta, is_matching_close};
use crate::classification::structural::{
    event_at, event_idx, is_event_pos, lemma_next_event_unique, next_event_spec, BracketType,
    StructuralEvent, OPENING_CURLY, OPENING_SQUARE,
};
use crate::engine::depth::MAX_DEPTH;
use crate::engine::main::{
    accepting_match, last_quote_before, list_reports, opening_malformed, opening_match,
    opening_reports, opening_skips, opening_state, preceding_colon, EngineOptions, StackFrame,
};
use crate::error::{DepthError, EngineError};
use crate::query::{Automaton, State};

verus! {

/// The first offset at or after `from` holding a reported event, or the document's length.
pub open spec fn first_event_from(s: Seq<u8>, from: int, colons: bool, commas: bool) -> int
    decreases s.len() - from,
{
    if from >= s.len() {
        s.len() as int
    } else if is_event_pos(s, from, colons, commas) {
        from
    } else {
        first_event_from(s, from + 1, colons, commas)
    }
}

/// The next event at or after `from`, and the offset just past it (the document's length
/// when there is none).
pub open spec fn next_from(s: Seq<u8>, from: int, colons: bool, commas: bool) -> (Option<StructuralEvent>, int) {
    let p = first_event_from(s, from, colons, commas);
    if p < s.len() {
        (event_at(s, p), p + 1)
    } else {
        (None, s.len() as int)
    }
}

pub proof fn lemma_first_event_from(s: Seq<u8>, from: int, colons: bool, commas: bool)
    requires
        0 <= from <= s.len(),
    ensures
        from <= first_event_from(s, from, colons, commas) <= s.len(),
        first_event_from(s, from, colons, commas) < s.len() ==> is_event_pos(
            s,
            first_event_from(s, from, colons, commas),
            colons,
            commas,
        ),
        forall|i: int| from <= i < first_event_from(s, from, colons, commas) ==> !is_event_pos(s, i, colons, commas),
    decreases s.len() - from,
{
    if from < s.len() && !is_event_pos(s, from, colons, commas) {
        lemma_first_event_from(s, from + 1, colons, commas);
    }
}

/// What a classifier's `next` returns is the next event by `next_from`.
pub proof fn lemma_next_from(
    s: Seq<u8>,
    from: int,
    colons: bool,
    commas: bool,
    r: Option<StructuralEvent>,
    to: int,
)
    requires
        0 <= from <= s.len(),
        next_event_spec(s, from, colons, commas, r, to),
    ensures
        next_from(s, from, colons, commas) == (r, to),
{
    lemma_first_event_from(s, from, colons, commas);
    let p = first_event_from(s, from, colons, commas);
    let nf = next_from(s, from, colons, commas);
    if p < s.len() {
        assert(event_idx(event_at(s, p).unwrap()) == p);
    }
    assert(next_event_spec(s, from, colons, commas, nf.0, nf.1));
    lemma_next_event_unique(s, from, colons, commas, r, to, nf.0, nf.1);
}

/// The first position at or after `p` where the depth counted from `from` reaches -1,
/// or the document's length.
pub open spec fn close_search(s: Seq<u8>, opening: u8, from: int, p: int) -> int
    decreases s.len() - p,
{
    if p >= s.len() {
        s.len() as int
    } else if delta(s, opening, from, p + 1) == -1 {
        p
    } else {
        close_search(s, opening, from, p + 1)
    }
}

/// The bracket closing the container of the kind `opening` opens, in which offset `from`
/// stands, or the document's length.
pub open spec fn matching_close(s: Seq<u8>, opening: u8, from: int) -> int {
    close_search(s, opening, from, from)
}

/// Where classification resumes after skipping from `from` to the matching close.
pub open spec fn skip_to(s: Seq<u8>, opening: u8, from: int) -> int {
    let k = matching_close(s, opening, from);
    if k < s.len() {
        k + 1
    } else {
        s.len() as int
    }
}

proof fn lemma_close_search(s: Seq<u8>, opening: u8, from: int, p: int, r: int)
    requires
        from <= p <= r <= s.len(),
        r < s.len() ==> is_matching_close(s, opening, from, r),
        r == s.len() ==> forall|q: int| from < q <= s.len() ==> delta(s, opening, from, q) >= 0,
    ensures
        close_search(s, opening, from, p) == r,
    decreases r - p,
{
    if p < r {
        assert(delta(s, opening, from, p + 1) >= 0);
        lemma_close_search(s, opening, from, p + 1, r);
    }
}

/// What `skip` returns is the matching close by `matching_close`.
pub proof fn lemma_matching_close(s: Seq<u8>, opening: u8, from: int, r: int)
    requires
        0 <= from <= s.len(),
        r < s.len() ==> is_matching_close(s, opening, from, r),
        r >= s.len() ==> r == s.len() && forall|q: int| from < q <= s.len() ==> delta(s, opening, from, q) >= 0,
    ensures
        matching_close(s, opening, from) == r,
{
    lemma_close_search(s, opening, from, from, r);
}

/// The executor at a point of its walk: where it stands, what it remembers, and what it
/// has reported.
pub struct Walk {
    pub depth: nat,
    pub state: State,
    pub frames: Seq<StackFrame>,
    pub is_list: bool,
    pub next_event: Option<StructuralEvent>,
    pub cursor: int,
    pub colons: bool,
    pub commas: bool,
    pub reports: Seq<usize>,
}

/// The result of walking one or more events.
pub enum Outcome {
    /// The walk goes on from this point.
    Continue(Walk),
    /// The walk ended here: the container it started in closed, or the input ended.
    Done(Walk),
    /// The walk stopped with an error, after making these reports.
    Failed(EngineError, Seq<usize>),
}

/// The bracket kind of a list or an object.
pub open spec fn bracket_of(is_list: bool) -> BracketType {
    if is_list {
        BracketType::Square
    } else {
        BracketType::Curly
    }
}

/// The opening byte of a list or an object.
pub open spec fn opening_of(is_list: bool) -> u8 {
    if is_list {
        OPENING_SQUARE
    } else {
        OPENING_CURLY
    }
}

/// A comma at `idx`.
pub open spec fn comma_step(aut: &Automaton, s: Seq<u8>, w: Walk, idx: int) -> Walk {
    let nf = next_from(s, w.cursor, w.colons, w.commas);
    let report = !(nf.0 matches Some(StructuralEvent::Opening(_, _))) && w.is_list && aut.accepting(
        aut.fallback_of(w.state),
    );
    Walk {
        next_event: nf.0,
        cursor: nf.1,
        reports: if report {
            w.reports.push((idx + 1) as usize)
        } else {
            w.reports
        },
        ..w
    }
}

/// A colon at `idx`.
pub open spec fn colon_step(aut: &Automaton, opts: EngineOptions, s: Seq<u8>, w: Walk, idx: int) -> Outcome {
    let nf = next_from(s, w.cursor, w.colons, w.commas);
    let w1 = Walk { next_event: nf.0, cursor: nf.1, ..w };
    let lq = last_quote_before(s, idx);
    if nf.0 matches Some(StructuralEvent::Opening(_, _)) {
        Outcome::Continue(w1)
    } else if lq < 0 && aut.transition_to_accepting(w.state) {
        Outcome::Failed(EngineError::MalformedLabelQuotes(idx as usize), w.reports)
    } else {
        let matched = lq >= 0 && accepting_match(aut, w.state, s, lq);
        let reports = if matched || aut.accepting(aut.fallback_of(w.state)) {
            w.reports.push(idx as usize)
        } else {
            w.reports
        };
        if opts.skips_unitary() && matched && nf.0 is Some && !(nf.0 matches Some(
            StructuralEvent::Closing(_, _),
        )) && aut.unitary(w.state) {
            let op = opening_of(w.is_list);
            Outcome::Continue(
                Walk {
                    next_event: Some(
                        StructuralEvent::Closing(bracket_of(w.is_list), matching_close(s, op, nf.1) as usize),
                    ),
                    cursor: skip_to(s, op, nf.1),
                    reports,
                    ..w1
                },
            )
        } else {
            Outcome::Continue(Walk { reports, ..w1 })
        }
    }
}

/// A closing bracket at `idx`.
pub open spec fn closing_step(aut: &Automaton, opts: EngineOptions, s: Seq<u8>, w: Walk, idx: int) -> Outcome {
    if w.depth == 0 {
        Outcome::Failed(EngineError::DepthBelowZero(idx as usize, DepthError::BelowZero), w.reports)
    } else {
        let d = (w.depth - 1) as nat;
        let f = w.frames;
        let pop = f.len() > 0 && d <= f.last().depth;
        let state = if pop {
            f.last().state
        } else {
            w.state
        };
        let is_list = if pop {
            f.last().is_list
        } else {
            w.is_list
        };
        let frames = if pop {
            f.drop_last()
        } else {
            f
        };
        if pop && opts.skips_unitary() && aut.unitary(state) {
            let op = opening_of(is_list);
            Outcome::Continue(
                Walk {
                    depth: d,
                    state,
                    is_list,
                    frames,
                    next_event: Some(
                        StructuralEvent::Closing(bracket_of(is_list), matching_close(s, op, w.cursor) as usize),
                    ),
                    cursor: skip_to(s, op, w.cursor),
                    ..w
                },
            )
        } else {
            Outcome::Continue(
                Walk {
                    depth: d,
                    state,
                    is_list,
                    frames,
                    commas: is_list && aut.accepting(aut.fallback_of(state)),
                    colons: !is_list && aut.transition_to_accepting(state),
                    ..w
                },
            )
        }
    }
}

/// An opening bracket at `idx`.
pub open spec fn opening_step(aut: &Automaton, opts: EngineOptions, s: Seq<u8>, w: Walk, idx: int) -> Outcome {
    let st = w.state;
    let d = w.depth;
    if opening_malformed(aut, st, d, s, idx) {
        Outcome::Failed(EngineError::MalformedLabelQuotes(preceding_colon(s, idx)->Some_0 as usize), w.reports)
    } else if opening_skips(aut, st, d, s, idx, opts.tail_skip) {
        Outcome::Continue(Walk { cursor: skip_to(s, s[idx], w.cursor), ..w })
    } else {
        let new_state = opening_state(aut, st, d, s, idx);
        let list = s[idx] == OPENING_SQUARE;
        let changed = (opening_match(aut, st, d, s, idx) >= 0 || d != 0) && (new_state != st || list != w.is_list);
        let frames = if changed {
            w.frames.push(StackFrame { depth: d as u8, state: st, is_list: w.is_list })
        } else {
            w.frames
        };
        let list_accepts = list && aut.accepting(aut.fallback_of(new_state));
        let nf = next_from(s, w.cursor, w.colons, true);
        let next_event = if list_accepts {
            nf.0
        } else {
            None
        };
        let reports = w.reports + opening_reports(aut, st, d, s, idx) + if list_accepts {
            list_reports(s, idx, next_event)
        } else {
            Seq::<usize>::empty()
        };
        if d >= MAX_DEPTH {
            Outcome::Failed(EngineError::DepthAboveLimit(idx as usize, DepthError::AboveLimit(MAX_DEPTH as usize)), reports)
        } else {
            Outcome::Continue(
                Walk {
                    depth: d + 1,
                    state: new_state,
                    frames,
                    is_list: list,
                    next_event,
                    cursor: if list_accepts {
                        nf.1
                    } else {
                        w.cursor
                    },
                    colons: !list && aut.transition_to_accepting(new_state),
                    commas: if list {
                        list_accepts
                    } else {
                        w.commas
                    },
                    reports,
                },
            )
        }
    }
}

/// One step: take the pending event, or the next one, and handle it. A closing that
/// brings the depth to zero ends the walk, as does the end of the input.
pub open spec fn step(aut: &Automaton, opts: EngineOptions, s: Seq<u8>, w: Walk) -> Outcome {
    let fetched = match w.next_event {
        Some(e) => (Some(e), w.cursor),
        None => next_from(s, w.cursor, w.colons, w.commas),
    };
    let w0 = Walk { next_event: None, cursor: fetched.1, ..w };
    match fetched.0 {
        None => Outcome::Done(w0),
        Some(StructuralEvent::Colon(i)) => colon_step(aut, opts, s, w0, i as int),
        Some(StructuralEvent::Comma(i)) => Outcome::Continue(comma_step(aut, s, w0, i as int)),
        Some(StructuralEvent::Opening(_, i)) => opening_step(aut, opts, s, w0, i as int),
        Some(StructuralEvent::Closing(_, i)) => match closing_step(aut, opts, s, w0, i as int) {
            Outcome::Continue(w1) => if w1.depth == 0 {
                Outcome::Done(w1)
            } else {
                Outcome::Continue(w1)
            },
            other => other,
        },
    }
}

/// Up to `fuel` steps from `w`; `Continue` when the fuel runs out first.
pub open spec fn walk(aut: &Automaton, opts: EngineOptions, s: Seq<u8>, w: Walk, fuel: nat) -> Outcome
    decreases fuel,
{
    if fuel == 0 {
        Outcome::Continue(w)
    } else {
        match step(aut, opts, s, w) {
            Outcome::Continue(w1) => walk(aut, opts, s, w1, (fuel - 1) as nat),
            other => other,
        }
    }
}

/// A bound on the steps left: each step moves the cursor, consumes the pending event,
/// or closes a container.
pub open spec fn walk_measure(s: Seq<u8>, w: Walk) -> int {
    4 * (s.len() - w.cursor) + (if w.next_event is Some {
        2int
    } else {
        0int
    }) + w.depth
}

/// Enough steps to finish a walk from `w`.
pub open spec fn walk_fuel(s: Seq<u8>, w: Walk) -> nat {
    (walk_measure(s, w) + 1) as nat
}

/// The executor before the first event.
pub open spec fn initial_walk(aut: &Automaton) -> Walk {
    Walk {
        depth: 0,
        state: aut.initial(),
        frames: Seq::empty(),
        is_list: false,
        next_event: None,
        cursor: 0,
        colons: false,
        commas: false,
        reports: Seq::empty(),
    }
}

/// The walk of the whole document from the start.
pub open spec fn document_walk(aut: &Automaton, opts: EngineOptions, s: Seq<u8>) -> Outcome {
    walk(aut, opts, s, initial_walk(aut), walk_fuel(s, initial_walk(aut)))
}

/// What running the query on `s` gives: the reports of a walk that ends with every
/// container closed, or the error it stopped with.
pub open spec fn query_result(aut: &Automaton, opts: EngineOptions, s: Seq<u8>) -> Result<Seq<usize>, EngineError> {
    match document_walk(aut, opts, s) {
        Outcome::Done(w) => if w.depth == 0 {
            Ok(w.reports)
        } else {
            Err(EngineError::MissingClosingCharacter())
        },
        Outcome::Failed(e, _) => Err(e),
        Outcome::Continue(_) => Err(EngineError::MissingClosingCharacter()),
    }
}

} // verus!
