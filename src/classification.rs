//! Classification of JSON bytes: quoted sequences, structural characters, and depth.
use vstd::prelude::*;
use crate::classification::quotes::{QuoteClassifiedBlock, QuoteClassifiedIterator, SequentialQuoteClassifier};

pub mod quotes;
pub mod structural;
pub mod depth;

verus! {

/// A block that classification stopped in, and the offset within it of the first byte
/// not yet classified.
#[derive(Clone, Copy, Debug)]
pub struct ResumeClassifierBlockState {
    /// The block classification stopped in.
    pub block: QuoteClassifiedBlock,
    /// Offset within the block of the next byte to classify.
    pub idx: usize,
}

/// Everything needed to resume classification at the place where a classifier stopped.
pub struct ResumeClassifierState<'a> {
    /// The quote classifier, positioned after `block`, if any.
    pub iter: SequentialQuoteClassifier<'a>,
    /// The partially consumed block.
    pub block: Option<ResumeClassifierBlockState>,
    /// Whether colon events are reported.
    pub are_colons_on: bool,
    /// Whether comma events are reported.
    pub are_commas_on: bool,
}

impl<'a> ResumeClassifierState<'a> {
    /// The quote classifier is in step with the document, and the partial block
    /// is the one just before its position.
    pub open spec fn wf(&self) -> bool {
        &&& self.iter.wf()
        &&& self.iter.synced()
        &&& match self.block {
            Some(bs) => {
                &&& bs.block.offset + 64 == self.iter.pos()
                &&& bs.idx <= 64
                &&& bs.block.classifies(self.iter.input())
            },
            None => true,
        }
    }

    /// Offset of the next byte to classify.
    pub open spec fn position(&self) -> int {
        match self.block {
            Some(bs) => bs.block.offset + bs.idx,
            None => self.iter.pos(),
        }
    }

    /// Offset of the next byte to classify.
    pub fn get_idx(&self) -> (r: usize)
        requires
            self.wf(),
        ensures
            r == self.position(),
    {
        proof {
            self.iter.lemma_wf();
        }
        match self.block {
            Some(bs) => bs.block.offset + bs.idx,
            None => self.iter.get_offset(),
        }
    }
}

} // verus!
