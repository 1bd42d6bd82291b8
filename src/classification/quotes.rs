//! Classification of bytes within JSON string literals.
//!
//! Each 64-byte block of input is paired with a mask whose lit bits mark the bytes
//! that lie within a string literal. Opening quotes are marked, closing quotes are not,
//! and escaped quotes count as bytes within the literal.
use vstd::prelude::*;

verus! {

/// Size of a classified block in bytes.
pub const BLOCK_SIZE: usize = 64;

/// The byte `"`.
pub const QUOTE: u8 = 0x22;

/// The byte `\`.
pub const BACKSLASH: u8 = 0x5c;

/// Quote scanning state: whether the scan is within a string literal,
/// and whether the previous byte was an unescaped backslash.
pub type QuoteState = (bool, bool);

/// One step of the quote scan over byte `b`.
pub open spec fn quote_step(st: QuoteState, b: u8) -> QuoteState {
    if st.1 {
        (st.0, false)
    } else if b == BACKSLASH {
        (st.0, true)
    } else if b == QUOTE {
        (!st.0, false)
    } else {
        (st.0, false)
    }
}

/// The state reached by scanning `s[lo..hi]` starting from `st`.
pub open spec fn scan_quotes(st: QuoteState, s: Seq<u8>, lo: int, hi: int) -> QuoteState
    decreases hi - lo,
{
    if hi <= lo {
        st
    } else {
        quote_step(scan_quotes(st, s, lo, hi - 1), s[hi - 1])
    }
}

/// The state reached by scanning the first `n` bytes of the document.
pub open spec fn quote_state(s: Seq<u8>, n: int) -> QuoteState {
    scan_quotes((false, false), s, 0, n)
}

/// Whether byte `i` of the document lies within a string literal
/// (its opening quote included, its closing quote excluded).
pub open spec fn within_quotes(s: Seq<u8>, i: int) -> bool {
    quote_state(s, i + 1).0
}

/// Bit `i` of the mask `m`, least significant first.
pub open spec fn bit(m: u64, i: int) -> bool {
    0 <= i < 64 && (m >> (i as u64)) & 1u64 == 1u64
}

/// Scanning in two parts gives the same state as scanning at once.
pub proof fn lemma_scan_split(st: QuoteState, s: Seq<u8>, lo: int, mid: int, hi: int)
    requires
        lo <= mid <= hi,
    ensures
        scan_quotes(st, s, lo, hi) == scan_quotes(scan_quotes(st, s, lo, mid), s, mid, hi),
    decreases hi - mid,
{
    if hi > mid {
        lemma_scan_split(st, s, lo, mid, hi - 1);
    }
}

proof fn lemma_bit_set_same(m: u64, j: u64)
    requires
        j < 64,
    ensures
        ((m | (1u64 << j)) >> j) & 1u64 == 1u64,
{
    assert(((m | (1u64 << j)) >> j) & 1u64 == 1u64) by (bit_vector)
        requires
            j < 64,
    ;
}

proof fn lemma_bit_set_other(m: u64, j: u64, k: u64)
    requires
        j < 64,
        k < 64,
        j != k,
    ensures
        ((m | (1u64 << j)) >> k) & 1u64 == (m >> k) & 1u64,
{
    assert(((m | (1u64 << j)) >> k) & 1u64 == (m >> k) & 1u64) by (bit_vector)
        requires
            j < 64,
            k < 64,
            j != k,
    ;
}

proof fn lemma_bit_zero(k: u64)
    requires
        k < 64,
    ensures
        (0u64 >> k) & 1u64 == 0u64,
{
    assert((0u64 >> k) & 1u64 == 0u64) by (bit_vector);
}

/// Input block paired with a mask of the bytes within string literals.
///
/// Bit `i` of `within_quotes_mask` (least significant first) describes the byte at
/// `offset + i`.
#[derive(Clone, Copy, Debug)]
pub struct QuoteClassifiedBlock {
    /// Offset of the block's first byte in the document.
    pub offset: usize,
    /// Mask marking bytes within a quoted sequence.
    pub within_quotes_mask: u64,
}

impl QuoteClassifiedBlock {
    /// Number of bytes in the classified block.
    pub fn len(&self) -> (r: usize)
        ensures
            r == BLOCK_SIZE,
    {
        BLOCK_SIZE
    }

    /// Whether the classified block is empty; blocks never are.
    pub fn is_empty(&self) -> (r: bool)
        ensures
            !r,
    {
        false
    }

    /// The mask describes the block at its offset in `s` exactly.
    pub open spec fn classifies(&self, s: Seq<u8>) -> bool {
        &&& self.offset + 64 <= s.len()
        &&& forall|j: int| 0 <= j < 64 ==> bit(self.within_quotes_mask, j) == within_quotes(s, self.offset + j)
    }
}

/// Classifiers of quoted sequences: finite sequences of quote-classified blocks.
pub trait QuoteClassifiedIterator: Sized {
    /// Offset of the first byte not yet classified.
    spec fn offset_spec(&self) -> int;

    /// Length of the document being classified.
    spec fn input_len(&self) -> int;

    /// The classifier is consistent with its document.
    spec fn iter_wf(&self) -> bool;

    /// Size of a classified block.
    fn block_size() -> (r: usize)
        ensures
            r == BLOCK_SIZE,
    ;

    /// Whether every block has been classified.
    fn is_empty(&self) -> (r: bool)
        requires
            self.iter_wf(),
        ensures
            r == (self.offset_spec() >= self.input_len()),
    ;

    /// Offset of the first byte not yet classified.
    fn get_offset(&self) -> (r: usize)
        ensures
            r == self.offset_spec(),
    ;

    /// Move `count` blocks forward, keeping the carried state.
    fn offset(&mut self, count: isize)
        requires
            old(self).iter_wf(),
            0 <= count,
            old(self).offset_spec() + count * 64 <= old(self).input_len(),
        ensures
            final(self).iter_wf(),
            final(self).input_len() == old(self).input_len(),
            final(self).offset_spec() == old(self).offset_spec() + count * 64,
    ;

    /// Flip the carried bit telling whether the scan is within a string literal; for
    /// resuming at a place where the carried state is known to be inverted.
    fn flip_quotes_bit(&mut self)
        ensures
            final(self).input_len() == old(self).input_len(),
            final(self).offset_spec() == old(self).offset_spec(),
            old(self).iter_wf() ==> final(self).iter_wf(),
    ;
}

/// Sequential classifier of quoted sequences over a padded document.
pub struct SequentialQuoteClassifier<'a> {
    bytes: &'a [u8],
    pos: usize,
    in_quotes: bool,
    escaped: bool,
}

impl<'a> SequentialQuoteClassifier<'a> {
    /// The document being classified.
    pub closed spec fn input(&self) -> Seq<u8> {
        self.bytes@
    }

    /// Offset of the first byte not yet classified.
    pub closed spec fn pos(&self) -> int {
        self.pos as int
    }

    /// The carried scan state at `pos`.
    pub closed spec fn carry(&self) -> QuoteState {
        (self.in_quotes, self.escaped)
    }

    pub closed spec fn wf(&self) -> bool {
        &&& self.bytes@.len() <= isize::MAX
        &&& self.bytes@.len() % 64 == 0
        &&& self.pos % 64 == 0
        &&& self.pos <= self.bytes@.len()
    }

    /// What well-formedness says of the position.
    pub proof fn lemma_wf(&self)
        requires
            self.wf(),
        ensures
            self.input().len() <= isize::MAX,
            self.input().len() % 64 == 0,
            self.pos() % 64 == 0,
            0 <= self.pos() <= self.input().len(),
    {
    }

    /// The carried state is the one a scan from the start of the document reaches.
    pub open spec fn synced(&self) -> bool {
        self.carry() == quote_state(self.input(), self.pos())
    }

    /// Start classifying a document whose length is a multiple of the block size.
    pub fn new(bytes: &'a [u8]) -> (r: Self)
        requires
            bytes@.len() % 64 == 0,
            bytes@.len() <= isize::MAX,
        ensures
            r.wf(),
            r.synced(),
            r.input() == bytes@,
            r.pos() == 0,
    {
        SequentialQuoteClassifier { bytes, pos: 0, in_quotes: false, escaped: false }
    }

    /// The document being classified.
    pub fn bytes(&self) -> (r: &'a [u8])
        ensures
            r@ == self.input(),
    {
        self.bytes
    }

    /// Classify the next block.
    pub fn next(&mut self) -> (r: Option<QuoteClassifiedBlock>)
        requires
            old(self).wf(),
        ensures
            final(self).wf(),
            final(self).input() == old(self).input(),
            old(self).pos() >= old(self).input().len() ==> r.is_none() && *final(self) == *old(self),
            old(self).pos() < old(self).input().len() ==> {
                &&& r.is_some()
                &&& r.unwrap().offset == old(self).pos()
                &&& final(self).pos() == old(self).pos() + 64
                &&& final(self).pos() <= final(self).input().len()
                &&& final(self).carry() == scan_quotes(
                    old(self).carry(),
                    old(self).input(),
                    old(self).pos(),
                    old(self).pos() + 64,
                )
                &&& forall|j: int|
                    0 <= j < 64 ==> bit(r.unwrap().within_quotes_mask, j) == scan_quotes(
                        old(self).carry(),
                        old(self).input(),
                        old(self).pos(),
                        old(self).pos() + j + 1,
                    ).0
            },
            old(self).synced() ==> final(self).synced(),
            old(self).synced() && r.is_some() ==> r.unwrap().classifies(final(self).input()),
    {
        if self.pos >= self.bytes.len() {
            return None;
        }
        let ghost s = self.bytes@;
        let ghost p = self.pos as int;
        let ghost c0 = (self.in_quotes, self.escaped);
        let len: usize = self.bytes.len();
        assert(p + 64 <= len);
        let start: usize = self.pos;
        let mut mask: u64 = 0;
        proof {
            assert forall|k: int| 0 <= k < 64 implies !bit(0u64, k) by {
                lemma_bit_zero(k as u64);
            }
        }
        let mut j: usize = 0;
        let mut in_quotes = self.in_quotes;
        let mut escaped = self.escaped;
        while j < BLOCK_SIZE
            invariant
                j <= 64,
                start == p,
                p + 64 <= s.len(),
                s.len() == len,
                s == self.bytes@,
                (in_quotes, escaped) == scan_quotes(c0, s, p, p + j),
                forall|k: int| 0 <= k < j ==> bit(mask, k) == scan_quotes(c0, s, p, p + k + 1).0,
                forall|k: int| j <= k < 64 ==> !bit(mask, k),
            decreases 64 - j,
        {
            let b = self.bytes[start + j];
            if escaped {
                escaped = false;
            } else if b == BACKSLASH {
                escaped = true;
            } else if b == QUOTE {
                in_quotes = !in_quotes;
            }
            let ghost old_mask = mask;
            if in_quotes {
                mask = mask | (1u64 << (j as u64));
                proof {
                    lemma_bit_set_same(old_mask, j as u64);
                    assert forall|k: int| 0 <= k < 64 && k != j implies bit(mask, k) == bit(old_mask, k) by {
                        lemma_bit_set_other(old_mask, j as u64, k as u64);
                    }
                }
            }
            j += 1;
        }
        self.pos = self.pos + BLOCK_SIZE;
        self.in_quotes = in_quotes;
        self.escaped = escaped;
        proof {
            if c0 == quote_state(s, p) {
                assert forall|j: int| 0 <= j < 64 implies bit(mask, j) == within_quotes(s, p + j) by {
                    lemma_scan_split((false, false), s, 0, p, p + j + 1);
                }
                lemma_scan_split((false, false), s, 0, p, p + 64);
            }
        }
        Some(QuoteClassifiedBlock { offset: start, within_quotes_mask: mask })
    }
}

impl<'a> QuoteClassifiedIterator for SequentialQuoteClassifier<'a> {
    open spec fn offset_spec(&self) -> int {
        self.pos()
    }

    open spec fn input_len(&self) -> int {
        self.input().len() as int
    }

    open spec fn iter_wf(&self) -> bool {
        self.wf()
    }

    /// Size of a classified block.
    fn block_size() -> (r: usize) {
        BLOCK_SIZE
    }

    /// Whether every block has been classified.
    fn is_empty(&self) -> (r: bool) {
        self.pos >= self.bytes.len()
    }

    /// Offset of the first byte not yet classified.
    fn get_offset(&self) -> (r: usize) {
        self.pos
    }

    /// Move `count` blocks forward, keeping the carried state.
    fn offset(&mut self, count: isize)
        ensures
            final(self).input() == old(self).input(),
            final(self).carry() == old(self).carry(),
    {
        let mut i: isize = 0;
        while i < count
            invariant
                self.wf(),
                0 <= i <= count,
                self.input() == old(self).input(),
                self.pos() == old(self).pos() + i * 64,
                old(self).pos() + count * 64 <= old(self).input().len(),
                self.carry() == old(self).carry(),
            decreases count - i,
        {
            let ghost p0 = old(self).pos();
            let ghost n = old(self).input().len() as int;
            let ghost cur = self.pos();
            let ghost ii = i as int;
            let ghost cc = count as int;
            assert(cur + 64 <= n) by (nonlinear_arith)
                requires
                    cur == p0 + ii * 64,
                    p0 + cc * 64 <= n,
                    ii < cc,
            ;
            let _len = self.bytes.len();
            self.pos = self.pos + BLOCK_SIZE;
            i += 1;
        }
    }

    /// Flip the carried bit telling whether the scan is within a string literal.
    fn flip_quotes_bit(&mut self)
        ensures
            final(self).input() == old(self).input(),
            final(self).carry() == (!old(self).carry().0, old(self).carry().1),
    {
        self.in_quotes = !self.in_quotes;
    }
}

} // verus!
