//! Classification of structural characters: braces, brackets, colons and commas
//! outside string literals.
use vstd::prelude::*;
use crate::classification::quotes::{bit, within_quotes, QuoteClassifiedBlock, QuoteClassifiedIterator, SequentialQuoteClassifier, BLOCK_SIZE};
use crate::classification::{ResumeClassifierBlockState, ResumeClassifierState};

verus! {

pub const OPENING_CURLY: u8 = 0x7b;
pub const CLOSING_CURLY: u8 = 0x7d;
pub const OPENING_SQUARE: u8 = 0x5b;
pub const CLOSING_SQUARE: u8 = 0x5d;
pub const COLON: u8 = 0x3a;
pub const COMMA: u8 = 0x2c;

/// Kind of a bracket pair.
#[derive(Clone, Copy, Debug, PartialEq, Eq, Structural)]
pub enum BracketType {
    /// `[` and `]`.
    Square,
    /// `{` and `}`.
    Curly,
}

/// A structural character and its offset in the document.
#[derive(Clone, Copy, Debug, PartialEq, Eq, Structural)]
pub enum StructuralEvent {
    /// A closing bracket.
    Closing(BracketType, usize),
    /// A colon.
    Colon(usize),
    /// An opening bracket.
    Opening(BracketType, usize),
    /// A comma.
    Comma(usize),
}

/// Offset of an event.
pub open spec fn event_idx(e: StructuralEvent) -> usize {
    match e {
        StructuralEvent::Closing(_, i) => i,
        StructuralEvent::Colon(i) => i,
        StructuralEvent::Opening(_, i) => i,
        StructuralEvent::Comma(i) => i,
    }
}

/// The event that byte `b` at offset `i` stands for, if it is structural.
pub open spec fn event_of_byte(b: u8, i: usize) -> Option<StructuralEvent> {
    if b == OPENING_CURLY {
        Some(StructuralEvent::Opening(BracketType::Curly, i))
    } else if b == OPENING_SQUARE {
        Some(StructuralEvent::Opening(BracketType::Square, i))
    } else if b == CLOSING_CURLY {
        Some(StructuralEvent::Closing(BracketType::Curly, i))
    } else if b == CLOSING_SQUARE {
        Some(StructuralEvent::Closing(BracketType::Square, i))
    } else if b == COLON {
        Some(StructuralEvent::Colon(i))
    } else if b == COMMA {
        Some(StructuralEvent::Comma(i))
    } else {
        None
    }
}

/// The event at offset `i` of the document, ignoring string literals.
pub open spec fn event_at(s: Seq<u8>, i: int) -> Option<StructuralEvent> {
    if 0 <= i < s.len() {
        event_of_byte(s[i], i as usize)
    } else {
        None
    }
}

/// Whether events of the kind of `e` are reported under the given switches.
pub open spec fn kind_enabled(e: StructuralEvent, colons: bool, commas: bool) -> bool {
    match e {
        StructuralEvent::Colon(_) => colons,
        StructuralEvent::Comma(_) => commas,
        _ => true,
    }
}

/// Whether offset `i` holds a structural character outside string literals
/// that is reported under the given switches.
pub open spec fn is_event_pos(s: Seq<u8>, i: int, colons: bool, commas: bool) -> bool {
    &&& event_at(s, i).is_some()
    &&& !within_quotes(s, i)
    &&& kind_enabled(event_at(s, i).unwrap(), colons, commas)
}

/// `r` is the first event at or after offset `from` among the kinds reported, and
/// `to` is the offset just past it; without one, `to` is the end of the document.
pub open spec fn next_event_spec(
    s: Seq<u8>,
    from: int,
    colons: bool,
    commas: bool,
    r: Option<StructuralEvent>,
    to: int,
) -> bool {
    match r {
        Some(e) => {
            &&& from <= event_idx(e) < s.len()
            &&& is_event_pos(s, event_idx(e) as int, colons, commas)
            &&& event_at(s, event_idx(e) as int) == Some(e)
            &&& to == event_idx(e) + 1
            &&& forall|i: int| from <= i < event_idx(e) ==> !is_event_pos(s, i, colons, commas)
        },
        None => {
            &&& to == s.len()
            &&& forall|i: int| from <= i < s.len() ==> !is_event_pos(s, i, colons, commas)
        },
    }
}

/// Turning colons or commas on or off changes only which events are reported: an
/// offset reported under both settings reports the same event, and every structural
/// character outside strings is reported once all kinds are on.
pub proof fn lemma_masking_keeps_offsets(s: Seq<u8>, i: int, colons: bool, commas: bool)
    ensures
        is_event_pos(s, i, colons, commas) ==> is_event_pos(s, i, true, true),
        is_event_pos(s, i, true, true) <==> (event_at(s, i).is_some() && !within_quotes(s, i)),
        is_event_pos(s, i, colons, commas) <==> (is_event_pos(s, i, true, true) && kind_enabled(
            event_at(s, i).unwrap(),
            colons,
            commas,
        )),
{
}

/// The next event depends only on the document, the position and the switches: a
/// classifier resumed at an offset (after a skip, say) continues exactly as one that
/// classified every byte before it.
pub proof fn lemma_next_event_unique(
    s: Seq<u8>,
    from: int,
    colons: bool,
    commas: bool,
    r1: Option<StructuralEvent>,
    to1: int,
    r2: Option<StructuralEvent>,
    to2: int,
)
    requires
        next_event_spec(s, from, colons, commas, r1, to1),
        next_event_spec(s, from, colons, commas, r2, to2),
    ensures
        r1 == r2,
        to1 == to2,
{
    match (r1, r2) {
        (Some(e1), Some(e2)) => {
            if event_idx(e1) < event_idx(e2) {
                assert(is_event_pos(s, event_idx(e1) as int, colons, commas));
            } else if event_idx(e2) < event_idx(e1) {
                assert(is_event_pos(s, event_idx(e2) as int, colons, commas));
            }
        },
        (Some(e1), None) => {
            assert(is_event_pos(s, event_idx(e1) as int, colons, commas));
        },
        (None, Some(e2)) => {
            assert(is_event_pos(s, event_idx(e2) as int, colons, commas));
        },
        (None, None) => {},
    }
}

impl StructuralEvent {
    /// Offset of the event.
    pub fn idx(&self) -> (r: usize)
        ensures
            r == event_idx(*self),
    {
        match *self {
            StructuralEvent::Closing(_, i) => i,
            StructuralEvent::Colon(i) => i,
            StructuralEvent::Opening(_, i) => i,
            StructuralEvent::Comma(i) => i,
        }
    }

    /// Whether the event is an opening bracket.
    pub fn is_opening(&self) -> (r: bool)
        ensures
            r == (self is Opening),
    {
        match *self {
            StructuralEvent::Opening(_, _) => true,
            _ => false,
        }
    }

    /// Whether the event is a closing bracket.
    pub fn is_closing(&self) -> (r: bool)
        ensures
            r == (self is Closing),
    {
        match *self {
            StructuralEvent::Closing(_, _) => true,
            _ => false,
        }
    }
}

/// The event that a byte stands for, if it is structural.
pub fn classify_byte(b: u8, i: usize) -> (r: Option<StructuralEvent>)
    ensures
        r == event_of_byte(b, i),
{
    if b == OPENING_CURLY {
        Some(StructuralEvent::Opening(BracketType::Curly, i))
    } else if b == OPENING_SQUARE {
        Some(StructuralEvent::Opening(BracketType::Square, i))
    } else if b == CLOSING_CURLY {
        Some(StructuralEvent::Closing(BracketType::Curly, i))
    } else if b == CLOSING_SQUARE {
        Some(StructuralEvent::Closing(BracketType::Square, i))
    } else if b == COLON {
        Some(StructuralEvent::Colon(i))
    } else if b == COMMA {
        Some(StructuralEvent::Comma(i))
    } else {
        None
    }
}

/// Lazy classifier of structural characters over quote-classified blocks.
pub struct StructuralClassifier<'a> {
    bytes: &'a [u8],
    iter: SequentialQuoteClassifier<'a>,
    block: Option<QuoteClassifiedBlock>,
    idx: usize,
    colons: bool,
    commas: bool,
}

impl<'a> StructuralClassifier<'a> {
    /// The document being classified.
    pub closed spec fn input(&self) -> Seq<u8> {
        self.bytes@
    }

    /// Offset of the next byte to classify.
    pub closed spec fn cursor(&self) -> int {
        self.idx as int
    }

    /// Whether colon events are reported.
    pub closed spec fn colons_on(&self) -> bool {
        self.colons
    }

    /// Whether comma events are reported.
    pub closed spec fn commas_on(&self) -> bool {
        self.commas
    }

    pub closed spec fn wf(&self) -> bool {
        &&& self.iter.wf()
        &&& self.iter.synced()
        &&& self.iter.input() == self.bytes@
        &&& match self.block {
            Some(b) => {
                &&& b.offset + 64 == self.iter.pos()
                &&& b.offset <= self.idx <= b.offset + 64
                &&& b.classifies(self.bytes@)
            },
            None => self.idx == self.iter.pos(),
        }
    }

    /// The classifier never passes the end of the document.
    pub proof fn lemma_cursor_bounded(&self)
        requires
            self.wf(),
        ensures
            0 <= self.cursor() <= self.input().len(),
            self.input().len() <= isize::MAX,
            self.input().len() % 64 == 0,
    {
        self.iter.lemma_wf();
    }

    /// Length of the document.
    pub fn input_len(&self) -> (r: usize)
        ensures
            r == self.input().len(),
    {
        self.bytes.len()
    }

    /// Start classifying a padded document; colons and commas are not reported until
    /// turned on.
    pub fn new(bytes: &'a [u8]) -> (r: Self)
        requires
            bytes@.len() % 64 == 0,
            bytes@.len() <= isize::MAX,
        ensures
            r.wf(),
            r.input() == bytes@,
            r.cursor() == 0,
            !r.colons_on(),
            !r.commas_on(),
    {
        let iter = SequentialQuoteClassifier::new(bytes);
        StructuralClassifier { bytes, iter, block: None, idx: 0, colons: false, commas: false }
    }

    /// The next structural event at or after the cursor, among the kinds reported.
    pub fn next(&mut self) -> (r: Option<StructuralEvent>)
        requires
            old(self).wf(),
        ensures
            final(self).wf(),
            final(self).input() == old(self).input(),
            final(self).colons_on() == old(self).colons_on(),
            final(self).commas_on() == old(self).commas_on(),
            next_event_spec(
                old(self).input(),
                old(self).cursor(),
                old(self).colons_on(),
                old(self).commas_on(),
                r,
                final(self).cursor(),
            ),
    {
        let ghost s = self.bytes@;
        let ghost start = self.idx as int;
        let ghost c = self.colons;
        let ghost m = self.commas;
        loop
            invariant
                self.wf(),
                self.bytes@ == s,
                self.colons == c,
                self.commas == m,
                s == old(self).input(),
                c == old(self).colons_on(),
                m == old(self).commas_on(),
                start == old(self).cursor(),
                start <= self.idx,
                forall|i: int| start <= i < self.idx ==> !is_event_pos(s, i, c, m),
            decreases 2 * (s.len() - self.idx) + match self.block {
                Some(b) => if self.idx < b.offset + 64 { 0int } else { 1int },
                None => 1int,
            },
        {
            proof {
                self.iter.lemma_wf();
            }
            let need_block = match self.block {
                Some(b) => self.idx >= b.offset + BLOCK_SIZE,
                None => true,
            };
            if need_block {
                match self.iter.next() {
                    Some(b) => {
                        self.block = Some(b);
                    },
                    None => {
                        return None;
                    },
                }
            } else {
                let b = self.block.unwrap();
                let cur: usize = self.idx;
                let j: usize = cur - b.offset;
                let byte = self.bytes[cur];
                let in_quotes = (b.within_quotes_mask >> (j as u64)) & 1u64 == 1u64;
                assert(bit(b.within_quotes_mask, j as int) == within_quotes(s, b.offset + j));
                self.idx = cur + 1;
                if !in_quotes {
                    match classify_byte(byte, cur) {
                        Some(e) => {
                            let enabled = match e {
                                StructuralEvent::Colon(_) => self.colons,
                                StructuralEvent::Comma(_) => self.commas,
                                _ => true,
                            };
                            if enabled {
                                return Some(e);
                            }
                        },
                        None => {},
                    }
                }
            }
        }
    }

    /// Report colons from the byte after `idx` on; callers turn them on right
    /// after handling the event at `idx`, where the cursor stands.
    pub fn turn_colons_on(&mut self, idx: usize)
        ensures
            final(self).wf() == old(self).wf(),
            final(self).input() == old(self).input(),
            final(self).cursor() == old(self).cursor(),
            final(self).colons_on(),
            final(self).commas_on() == old(self).commas_on(),
    {
        self.colons = true;
    }

    /// Stop reporting colons.
    pub fn turn_colons_off(&mut self)
        ensures
            final(self).wf() == old(self).wf(),
            final(self).input() == old(self).input(),
            final(self).cursor() == old(self).cursor(),
            !final(self).colons_on(),
            final(self).commas_on() == old(self).commas_on(),
    {
        self.colons = false;
    }

    /// Report commas from the byte after `idx` on; callers turn them on right
    /// after handling the event at `idx`, where the cursor stands.
    pub fn turn_commas_on(&mut self, idx: usize)
        ensures
            final(self).wf() == old(self).wf(),
            final(self).input() == old(self).input(),
            final(self).cursor() == old(self).cursor(),
            final(self).commas_on(),
            final(self).colons_on() == old(self).colons_on(),
    {
        self.commas = true;
    }

    /// Stop reporting commas.
    pub fn turn_commas_off(&mut self)
        ensures
            final(self).wf() == old(self).wf(),
            final(self).input() == old(self).input(),
            final(self).cursor() == old(self).cursor(),
            !final(self).commas_on(),
            final(self).colons_on() == old(self).colons_on(),
    {
        self.commas = false;
    }

    /// Stop classification, keeping what is needed to resume it at the cursor.
    pub fn stop(self) -> (r: ResumeClassifierState<'a>)
        requires
            self.wf(),
        ensures
            r.wf(),
            r.iter.input() == self.input(),
            r.position() == self.cursor(),
            r.are_colons_on == self.colons_on(),
            r.are_commas_on == self.commas_on(),
    {
        let block = match self.block {
            Some(b) => Some(ResumeClassifierBlockState { block: b, idx: self.idx - b.offset }),
            None => None,
        };
        ResumeClassifierState {
            iter: self.iter,
            block,
            are_colons_on: self.colons,
            are_commas_on: self.commas,
        }
    }

    /// Resume classification where a classifier stopped.
    pub fn resume(state: ResumeClassifierState<'a>) -> (r: Self)
        requires
            state.wf(),
        ensures
            r.wf(),
            r.input() == state.iter.input(),
            r.cursor() == state.position(),
            r.colons_on() == state.are_colons_on,
            r.commas_on() == state.are_commas_on,
    {
        proof {
            state.iter.lemma_wf();
        }
        let bytes = state.iter.bytes();
        let (block, idx) = match state.block {
            Some(bs) => (Some(bs.block), bs.block.offset + bs.idx),
            None => (None, state.iter.get_offset()),
        };
        StructuralClassifier {
            bytes,
            iter: state.iter,
            block,
            idx,
            colons: state.are_colons_on,
            commas: state.are_commas_on,
        }
    }
}

} // verus!
