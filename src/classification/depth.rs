//! JSON depth calculations on quote-classified blocks.
//!
//! A depth classifier counts one kind of bracket pair, chosen by its opening byte,
//! ignoring brackets within string literals and the other kind of bracket. It is used
//! to skip quickly to the end of the container that is currently open.
use vstd::prelude::*;
use crate::classification::quotes::{bit, within_quotes, QuoteClassifiedBlock, SequentialQuoteClassifier, BLOCK_SIZE};
use crate::classification::structural::{OPENING_CURLY, OPENING_SQUARE, CLOSING_CURLY, CLOSING_SQUARE};
use crate::classification::{ResumeClassifierBlockState, ResumeClassifierState};

verus! {

/// The closing byte matching an opening byte.
pub open spec fn closing_of(opening: u8) -> u8 {
    if opening == OPENING_CURLY {
        CLOSING_CURLY
    } else {
        CLOSING_SQUARE
    }
}

/// Whether a byte opens a container.
pub open spec fn is_opening_byte(b: u8) -> bool {
    b == OPENING_CURLY || b == OPENING_SQUARE
}

/// Whether byte `i` closes a bracket of the counted kind, outside string literals.
pub open spec fn is_close_at(s: Seq<u8>, opening: u8, i: int) -> bool {
    !within_quotes(s, i) && s[i] == closing_of(opening)
}

/// How byte `i` changes the depth of the counted kind of bracket.
pub open spec fn depth_change(s: Seq<u8>, opening: u8, i: int) -> int {
    if within_quotes(s, i) {
        0
    } else if s[i] == opening {
        1
    } else if s[i] == closing_of(opening) {
        -1
    } else {
        0
    }
}

/// Openings minus closings of the counted kind in `s[lo..hi]`.
pub open spec fn delta(s: Seq<u8>, opening: u8, lo: int, hi: int) -> int
    decreases hi - lo,
{
    if hi <= lo {
        0
    } else {
        delta(s, opening, lo, hi - 1) + depth_change(s, opening, hi - 1)
    }
}

/// Number of closings of the counted kind in `s[lo..hi]`.
pub open spec fn closes(s: Seq<u8>, opening: u8, lo: int, hi: int) -> int
    decreases hi - lo,
{
    if hi <= lo {
        0
    } else {
        closes(s, opening, lo, hi - 1) + if is_close_at(s, opening, hi - 1) { 1int } else { 0int }
    }
}

/// Depth changes add up over adjacent ranges.
pub proof fn lemma_delta_split(s: Seq<u8>, opening: u8, lo: int, mid: int, hi: int)
    requires
        lo <= mid <= hi,
    ensures
        delta(s, opening, lo, hi) == delta(s, opening, lo, mid) + delta(s, opening, mid, hi),
    decreases hi - mid,
{
    if hi > mid {
        lemma_delta_split(s, opening, lo, mid, hi - 1);
    }
}

/// The depth falls by no more than the number of closings, and rises by no more
/// than the number of bytes.
pub proof fn lemma_delta_bounds(s: Seq<u8>, opening: u8, lo: int, hi: int)
    requires
        lo <= hi,
    ensures
        delta(s, opening, lo, hi) >= -closes(s, opening, lo, hi),
        delta(s, opening, lo, hi) <= hi - lo,
        delta(s, opening, lo, hi) >= lo - hi,
        0 <= closes(s, opening, lo, hi) <= hi - lo,
    decreases hi - lo,
{
    if hi > lo {
        lemma_delta_bounds(s, opening, lo, hi - 1);
    }
}

/// Without closings the depth only rises.
pub proof fn lemma_delta_no_close(s: Seq<u8>, opening: u8, lo: int, hi: int)
    requires
        lo <= hi,
        forall|q: int| lo <= q < hi ==> !is_close_at(s, opening, q),
    ensures
        delta(s, opening, lo, hi) >= 0,
    decreases hi - lo,
{
    if hi > lo {
        assert(!is_close_at(s, opening, hi - 1));
        lemma_delta_no_close(s, opening, lo, hi - 1);
    }
}

/// Whether `p` holds the closing bracket that matches a container open at `from`:
/// the first position at which the depth counted from `from` falls below zero.
pub open spec fn is_matching_close(s: Seq<u8>, opening: u8, from: int, p: int) -> bool {
    &&& from <= p < s.len()
    &&& delta(s, opening, from, p + 1) == -1
    &&& forall|q: int| from < q <= p ==> delta(s, opening, from, q) >= 0
}

/// Closings only accumulate as a range grows.
pub proof fn lemma_closes_monotone(s: Seq<u8>, opening: u8, lo: int, mid: int, hi: int)
    requires
        lo <= mid <= hi,
    ensures
        closes(s, opening, lo, mid) <= closes(s, opening, lo, hi),
    decreases hi - mid,
{
    if hi > mid {
        lemma_closes_monotone(s, opening, lo, mid, hi - 1);
    }
}

/// A block enriched with depth information.
pub trait DepthBlock: Sized {
    /// The depth at the current position.
    spec fn depth_spec(&self) -> int;

    /// The depth at the end of the block.
    spec fn end_depth_spec(&self) -> int;

    /// The block is consistent and the depth leaves room for what remains of it.
    spec fn inv(&self) -> bool;

    /// Whether `depth` can be added without leaving the range of `isize`.
    spec fn can_add(&self, depth: int) -> bool;

    /// Add depth carried over from earlier blocks.
    fn add_depth(&mut self, depth: isize)
        requires
            old(self).inv(),
            old(self).can_add(depth as int),
        ensures
            final(self).inv(),
            final(self).depth_spec() == old(self).depth_spec() + depth,
            final(self).end_depth_spec() == old(self).end_depth_spec() + depth,
    ;

    /// The depth at the current position.
    fn get_depth(&self) -> (r: isize)
        requires
            self.inv(),
        ensures
            r == self.depth_spec(),
    ;

    /// A lower bound on every depth reachable by advancing within the block.
    fn estimate_lowest_possible_depth(&self) -> (r: isize)
        requires
            self.inv(),
        ensures
            r <= self.depth_spec(),
            r <= self.end_depth_spec(),
    ;

    /// The depth at the end of the block.
    fn depth_at_end(&self) -> (r: isize)
        requires
            self.inv(),
        ensures
            r == self.end_depth_spec(),
    ;

    /// Advance past the next closing bracket of the counted kind; `false` when the
    /// end of the block is reached without one.
    fn advance_to_next_depth_decrease(&mut self) -> (r: bool)
        requires
            old(self).inv(),
        ensures
            final(self).inv(),
            final(self).end_depth_spec() == old(self).end_depth_spec(),
            !r ==> final(self).depth_spec() == old(self).end_depth_spec(),
    ;
}

/// Depth information for one quote-classified block.
pub struct DepthVector<'a> {
    bytes: &'a [u8],
    block: QuoteClassifiedBlock,
    opening: u8,
    idx: usize,
    depth: isize,
}

impl<'a> DepthVector<'a> {
    pub closed spec fn input(&self) -> Seq<u8> {
        self.bytes@
    }

    /// The opening byte whose bracket kind is counted.
    pub closed spec fn opening(&self) -> u8 {
        self.opening
    }

    /// Offset of the next byte to examine.
    pub closed spec fn pos(&self) -> int {
        self.idx as int
    }

    /// Offset just past the block.
    pub closed spec fn end(&self) -> int {
        self.block.offset + 64
    }

    /// Offset of the block's first byte.
    pub closed spec fn block_offset(&self) -> int {
        self.block.offset as int
    }

    /// The quote-classified block the vector was built on.
    pub closed spec fn block(&self) -> QuoteClassifiedBlock {
        self.block
    }

    pub closed spec fn wf(&self) -> bool {
        &&& self.block.classifies(self.bytes@)
        &&& self.bytes@.len() <= isize::MAX
        &&& is_opening_byte(self.opening)
        &&& self.block.offset <= self.idx <= self.block.offset + 64
        &&& self.depth + (self.block.offset + 64 - self.idx) <= isize::MAX
        &&& self.depth - (self.block.offset + 64 - self.idx) >= isize::MIN
    }

    /// Depth information for `block` from offset `idx` on, starting at depth zero.
    pub fn new(bytes: &'a [u8], block: QuoteClassifiedBlock, idx: usize, opening: u8) -> (r: Self)
        requires
            block.classifies(bytes@),
            bytes@.len() <= isize::MAX,
            is_opening_byte(opening),
            block.offset <= idx <= block.offset + 64,
        ensures
            r.inv(),
            r.input() == bytes@,
            r.block() == block,
            r.opening() == opening,
            r.pos() == idx,
            r.depth_spec() == 0,
    {
        DepthVector { bytes, block, opening, idx, depth: 0 }
    }

    /// Offset of the next byte to examine.
    pub fn get_idx(&self) -> (r: usize)
        ensures
            r == self.pos(),
    {
        self.idx
    }

    /// What well-formedness says of the position.
    pub proof fn lemma_inv(&self)
        requires
            self.inv(),
        ensures
            self.block().classifies(self.input()),
            self.block_offset() <= self.pos() <= self.end() <= self.input().len(),
            self.end() == self.block_offset() + 64,
            self.block_offset() == self.block().offset,
            self.input().len() <= isize::MAX,
            is_opening_byte(self.opening()),
            self.end_depth_spec() == self.depth_spec() + delta(self.input(), self.opening(), self.pos(), self.end()),
    {
    }

    /// Room for adding `d` to the depth.
    pub proof fn lemma_can_add(&self, d: int)
        requires
            self.inv(),
            self.depth_spec() + d + (self.end() - self.pos()) <= isize::MAX,
            self.depth_spec() + d - (self.end() - self.pos()) >= isize::MIN,
        ensures
            self.can_add(d),
    {
    }

    fn is_within_quotes(&self, p: usize) -> (r: bool)
        requires
            self.wf(),
            self.block.offset <= p < self.block.offset + 64,
        ensures
            r == within_quotes(self.bytes@, p as int),
    {
        let j: usize = p - self.block.offset;
        assert(bit(self.block.within_quotes_mask, j as int) == within_quotes(self.bytes@, self.block.offset + j));
        (self.block.within_quotes_mask >> (j as u64)) & 1u64 == 1u64
    }

    fn closing(&self) -> (r: u8)
        requires
            self.wf(),
        ensures
            r == closing_of(self.opening),
    {
        if self.opening == OPENING_CURLY {
            CLOSING_CURLY
        } else {
            CLOSING_SQUARE
        }
    }
}

impl<'a> DepthBlock for DepthVector<'a> {
    closed spec fn depth_spec(&self) -> int {
        self.depth as int
    }

    closed spec fn end_depth_spec(&self) -> int {
        self.depth + delta(self.bytes@, self.opening, self.idx as int, self.block.offset + 64)
    }

    closed spec fn inv(&self) -> bool {
        self.wf()
    }

    closed spec fn can_add(&self, depth: int) -> bool {
        &&& self.depth + depth + (self.block.offset + 64 - self.idx) <= isize::MAX
        &&& self.depth + depth - (self.block.offset + 64 - self.idx) >= isize::MIN
    }

    fn add_depth(&mut self, depth: isize)
        ensures
            final(self).input() == old(self).input(),
            final(self).opening() == old(self).opening(),
            final(self).block() == old(self).block(),
            final(self).pos() == old(self).pos(),
            final(self).end() == old(self).end(),
    {
        self.depth = self.depth + depth;
    }

    fn get_depth(&self) -> (r: isize) {
        self.depth
    }

    fn estimate_lowest_possible_depth(&self) -> (r: isize)
        ensures
            r == self.depth_spec() - closes(self.input(), self.opening(), self.pos(), self.end()),
            forall|q: int| self.pos() <= q <= self.end() ==>
                r <= self.depth_spec() + delta(self.input(), self.opening(), self.pos(), q),
    {
        let ghost s = self.bytes@;
        let ghost op = self.opening;
        let ghost lo = self.idx as int;
        let end: usize = self.block.offset + BLOCK_SIZE;
        let closing = self.closing();
        let mut p: usize = self.idx;
        let mut count: isize = 0;
        while p < end
            invariant
                self.wf(),
                lo <= p <= end,
                lo == self.idx,
                self.block.offset <= lo,
                end == self.block.offset + 64,
                count == closes(s, op, lo, p as int),
                count <= p - lo,
                s == self.bytes@,
                op == self.opening,
                closing == closing_of(op),
            decreases end - p,
        {
            proof {
                lemma_delta_bounds(s, op, lo, p as int);
            }
            let in_quotes = self.is_within_quotes(p);
            if !in_quotes && self.bytes[p] == closing {
                count = count + 1;
            }
            p = p + 1;
        }
        proof {
            assert forall|q: int| lo <= q <= end implies self.depth - count <= self.depth + delta(s, op, lo, q) by {
                lemma_delta_bounds(s, op, lo, q);
                lemma_closes_monotone(s, op, lo, q, end as int);
            }
            lemma_delta_bounds(s, op, lo, end as int);
        }
        self.depth - count
    }

    fn depth_at_end(&self) -> (r: isize) {
        let ghost s = self.bytes@;
        let ghost op = self.opening;
        let ghost lo = self.idx as int;
        let end: usize = self.block.offset + BLOCK_SIZE;
        let closing = self.closing();
        let mut p: usize = self.idx;
        let mut d: isize = self.depth;
        while p < end
            invariant
                self.wf(),
                lo <= p <= end,
                lo == self.idx,
                self.block.offset <= lo,
                end == self.block.offset + 64,
                d == self.depth + delta(s, op, lo, p as int),
                s == self.bytes@,
                op == self.opening,
                closing == closing_of(op),
            decreases end - p,
        {
            proof {
                lemma_delta_bounds(s, op, lo, p as int);
            }
            let in_quotes = self.is_within_quotes(p);
            if !in_quotes {
                let b = self.bytes[p];
                if b == self.opening {
                    d = d + 1;
                } else if b == closing {
                    d = d - 1;
                }
            }
            p = p + 1;
        }
        d
    }

    fn advance_to_next_depth_decrease(&mut self) -> (r: bool)
        ensures
            final(self).input() == old(self).input(),
            final(self).opening() == old(self).opening(),
            final(self).block() == old(self).block(),
            final(self).end() == old(self).end(),
            old(self).pos() <= final(self).pos() <= old(self).end(),
            final(self).depth_spec() == old(self).depth_spec() + delta(
                old(self).input(),
                old(self).opening(),
                old(self).pos(),
                final(self).pos(),
            ),
            r ==> final(self).pos() > old(self).pos() && is_close_at(
                old(self).input(),
                old(self).opening(),
                final(self).pos() - 1,
            ),
            r ==> forall|q: int| old(self).pos() <= q < final(self).pos() - 1 ==>
                !is_close_at(old(self).input(), old(self).opening(), q),
            !r ==> final(self).pos() == old(self).end(),
            !r ==> forall|q: int| old(self).pos() <= q < old(self).end() ==>
                !is_close_at(old(self).input(), old(self).opening(), q),
    {
        let ghost s = self.bytes@;
        let ghost op = self.opening;
        let ghost lo = self.idx as int;
        let ghost d0 = self.depth as int;
        let ghost blk = self.block;
        let end: usize = self.block.offset + BLOCK_SIZE;
        let closing = self.closing();
        while self.idx < end
            invariant
                self.wf(),
                lo <= self.idx <= end,
                end == self.block.offset + 64,
                self.depth == d0 + delta(s, op, lo, self.idx as int),
                s == self.bytes@,
                op == self.opening,
                blk == self.block,
                closing == closing_of(op),
                s == old(self).input(),
                op == old(self).opening(),
                blk == old(self).block(),
                lo == old(self).pos(),
                d0 == old(self).depth_spec(),
                forall|q: int| lo <= q < self.idx ==> !is_close_at(s, op, q),
            decreases end - self.idx,
        {
            let p: usize = self.idx;
            let in_quotes = self.is_within_quotes(p);
            self.idx = p + 1;
            if !in_quotes {
                let b = self.bytes[p];
                if b == self.opening {
                    self.depth = self.depth + 1;
                } else if b == closing {
                    self.depth = self.depth - 1;
                    proof {
                        lemma_delta_split(s, op, lo, p + 1, end as int);
                        lemma_delta_split(s, op, lo, p as int, end as int);
                    }
                    return true;
                }
            }
        }
        proof {
            lemma_delta_split(s, op, lo, lo, end as int);
        }
        false
    }
}

/// Depth classification over the blocks of a document.
pub trait DepthIterator<'a>: Sized {
    /// The type of blocks handed out.
    type Block: DepthBlock;

    /// The iterator is consistent with its document.
    spec fn iter_inv(&self) -> bool;

    /// Whether `block` is the last block handed out by this iterator.
    spec fn is_current(&self, block: Self::Block) -> bool;

    /// Resume classification where a classifier stopped, counting the bracket kind
    /// that `opening` opens.
    fn resume(state: ResumeClassifierState<'a>, opening: u8) -> (r: (Option<Self::Block>, Self))
        requires
            state.wf(),
            is_opening_byte(opening),
        ensures
            r.1.iter_inv(),
            r.0.is_some() ==> r.1.is_current(r.0.unwrap()),
    ;

    /// Stop classification; the state resumes it at the block's position, or after
    /// the last block handed out.
    fn stop(self, block: Option<Self::Block>) -> (r: ResumeClassifierState<'a>)
        requires
            self.iter_inv(),
            block.is_some() ==> self.is_current(block.unwrap()),
        ensures
            r.wf(),
    ;
}

/// The result of resuming a depth iterator: the first block and the rest of the iterator.
pub struct DepthIteratorResumeOutcome<'a, D: DepthIterator<'a>>(pub Option<D::Block>, pub D);

/// Resume depth classification where a classifier stopped, counting the bracket kind
/// that `opening` opens.
pub fn resume_depth_classification<'a>(state: ResumeClassifierState<'a>, opening: u8) -> (r:
    DepthIteratorResumeOutcome<'a, VectorIterator<'a>>)
    requires
        state.wf(),
        is_opening_byte(opening),
    ensures
        r.1.wf(),
        r.1.input() == state.iter.input(),
        r.1.opening() == opening,
        r.1.pos() == state.iter.pos(),
        match state.block {
            Some(bs) => {
                &&& r.0.is_some()
                &&& r.0.unwrap().inv()
                &&& r.0.unwrap().input() == state.iter.input()
                &&& r.0.unwrap().opening() == opening
                &&& r.0.unwrap().pos() == state.position()
                &&& r.0.unwrap().end() == state.iter.pos()
                &&& r.0.unwrap().depth_spec() == 0
            },
            None => r.0.is_none(),
        },
{
    let (first, iter) = VectorIterator::resume(state, opening);
    DepthIteratorResumeOutcome(first, iter)
}

/// Sequential depth classifier over quote-classified blocks.
pub struct VectorIterator<'a> {
    iter: SequentialQuoteClassifier<'a>,
    opening: u8,
    are_colons_on: bool,
    are_commas_on: bool,
}

impl<'a> VectorIterator<'a> {
    pub closed spec fn input(&self) -> Seq<u8> {
        self.iter.input()
    }

    pub closed spec fn opening(&self) -> u8 {
        self.opening
    }

    /// Offset just past the last block handed out.
    pub closed spec fn pos(&self) -> int {
        self.iter.pos()
    }

    pub closed spec fn colons(&self) -> bool {
        self.are_colons_on
    }

    pub closed spec fn commas(&self) -> bool {
        self.are_commas_on
    }

    pub closed spec fn wf(&self) -> bool {
        &&& self.iter.wf()
        &&& self.iter.synced()
        &&& is_opening_byte(self.opening)
    }

    pub proof fn lemma_wf(&self)
        requires
            self.wf(),
        ensures
            0 <= self.pos() <= self.input().len(),
            self.input().len() % 64 == 0,
            self.pos() % 64 == 0,
    {
        self.iter.lemma_wf();
    }

    /// The next block, with depth zero at its start.
    pub fn next(&mut self) -> (r: Option<DepthVector<'a>>)
        requires
            old(self).wf(),
        ensures
            final(self).wf(),
            final(self).input() == old(self).input(),
            final(self).opening() == old(self).opening(),
            final(self).colons() == old(self).colons(),
            final(self).commas() == old(self).commas(),
            old(self).pos() >= old(self).input().len() ==> r.is_none() && final(self).pos() == old(self).pos(),
            old(self).pos() < old(self).input().len() ==> {
                &&& r.is_some()
                &&& r.unwrap().inv()
                &&& r.unwrap().input() == old(self).input()
                &&& r.unwrap().opening() == old(self).opening()
                &&& r.unwrap().pos() == old(self).pos()
                &&& r.unwrap().block_offset() == old(self).pos()
                &&& r.unwrap().depth_spec() == 0
                &&& r.unwrap().end() == final(self).pos()
                &&& final(self).pos() == old(self).pos() + 64
            },
    {
        proof {
            self.iter.lemma_wf();
        }
        let bytes = self.iter.bytes();
        match self.iter.next() {
            Some(block) => Some(DepthVector::new(bytes, block, block.offset, self.opening)),
            None => None,
        }
    }
}

impl<'a> DepthIterator<'a> for VectorIterator<'a> {
    type Block = DepthVector<'a>;

    open spec fn iter_inv(&self) -> bool {
        self.wf()
    }

    open spec fn is_current(&self, v: DepthVector<'a>) -> bool {
        v.inv() && v.input() == self.input() && v.end() == self.pos()
    }

    fn resume(state: ResumeClassifierState<'a>, opening: u8) -> (r: (Option<DepthVector<'a>>, Self))
        ensures
            r.1.wf(),
            r.1.input() == state.iter.input(),
            r.1.opening() == opening,
            r.1.colons() == state.are_colons_on,
            r.1.commas() == state.are_commas_on,
            r.1.pos() == state.iter.pos(),
            match state.block {
                Some(bs) => {
                    &&& r.0.is_some()
                    &&& r.0.unwrap().inv()
                    &&& r.0.unwrap().input() == state.iter.input()
                    &&& r.0.unwrap().opening() == opening
                    &&& r.0.unwrap().pos() == state.position()
                    &&& r.0.unwrap().end() == state.iter.pos()
                    &&& r.0.unwrap().depth_spec() == 0
                },
                None => r.0.is_none(),
            },
    {
        proof {
            state.iter.lemma_wf();
        }
        let bytes = state.iter.bytes();
        let first = match state.block {
            Some(bs) => Some(DepthVector::new(bytes, bs.block, bs.block.offset + bs.idx, opening)),
            None => None,
        };
        let iter = VectorIterator {
            iter: state.iter,
            opening,
            are_colons_on: state.are_colons_on,
            are_commas_on: state.are_commas_on,
        };
        (first, iter)
    }

    fn stop(self, block: Option<DepthVector<'a>>) -> (r: ResumeClassifierState<'a>)
        ensures
            r.iter.input() == self.input(),
            r.are_colons_on == self.colons(),
            r.are_commas_on == self.commas(),
            r.position() == match block {
                Some(v) => v.pos(),
                None => self.pos(),
            },
    {
        let rb = match block {
            Some(v) => {
                proof {
                    v.lemma_inv();
                }
                let idx = v.get_idx();
                Some(ResumeClassifierBlockState { block: v.block, idx: idx - v.block.offset })
            },
            None => None,
        };
        ResumeClassifierState {
            iter: self.iter,
            block: rb,
            are_colons_on: self.are_colons_on,
            are_commas_on: self.are_commas_on,
        }
    }
}

} // verus!
