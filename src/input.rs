//! Owned, page-aligned, zero-padded input documents.
use vstd::prelude::*;
use aligners::alignment::Page;
use aligners::AlignedBytes;

verus! {

/// Size of the padding unit: two 32-byte SIMD blocks.
pub const PADDING_UNIT: usize = 64;

/// Input into a query engine: the document's bytes, page-aligned and
/// followed by zero bytes up to a multiple of [`PADDING_UNIT`] plus one more unit.
// Opaque to Verus: it cannot declare `AlignedBytes`, whose parameter is bound by aligners' `Alignment` trait.
#[verifier::external_body]
pub struct Input {
    bytes: AlignedBytes<Page>,
}

/// The bytes held by an input buffer.
pub uninterp spec fn input_contents(i: Input) -> Seq<u8>;

/// The document bytes followed by `pad` zero bytes.
pub open spec fn padded(src: Seq<u8>, pad: nat) -> Seq<u8> {
    src + Seq::new(pad, |i: int| 0u8)
}

/// Number of zero bytes appended to a document of length `n`.
pub open spec fn padding_len(n: nat) -> nat {
    ((if n % 64 == 0 { 0 } else { 64 - n % 64 }) + 64) as nat
}

/// Relies on `AlignedBytes::from`: allocates a page-aligned buffer holding a copy of the slice.
/// It allocates through a layout of the slice's size, which must not be zero.
#[verifier::external_body]
fn aligned_copy(bytes: &[u8]) -> (r: Input)
    requires
        bytes@.len() > 0,
    ensures
        input_contents(r) == bytes@,
{
    Input { bytes: AlignedBytes::<Page>::from(bytes) }
}

/// Relies on `AlignedBytes`'s `Deref` to a byte slice: it views the bytes held.
#[verifier::external_body]
fn aligned_view(i: &Input) -> (r: &[u8])
    ensures
        r@ == input_contents(*i),
{
    &i.bytes
}

impl Input {
    /// Copies the document into an aligned buffer, padding it with zero bytes to a
    /// multiple of [`PADDING_UNIT`] and then by one more unit.
    pub fn new(src: &[u8]) -> (r: Input)
        requires
            src@.len() <= isize::MAX - 128,
        ensures
            input_contents(r) == padded(src@, padding_len(src@.len())),
            input_contents(r).len() % 64 == 0,
            input_contents(r).len() >= src@.len() + 64,
    {
        let rem: usize = src.len() % PADDING_UNIT;
        let pad: usize = if rem == 0 { 0 } else { PADDING_UNIT - rem };
        let total: usize = pad + PADDING_UNIT;
        let mut contents: Vec<u8> = Vec::new();
        let mut i: usize = 0;
        while i < src.len()
            invariant
                i <= src@.len(),
                contents@ == src@.subrange(0, i as int),
            decreases src@.len() - i,
        {
            contents.push(src[i]);
            i += 1;
        }
        let mut j: usize = 0;
        while j < total
            invariant
                j <= total,
                total == padding_len(src@.len()),
                contents@ == padded(src@, j as nat),
            decreases total - j,
        {
            contents.push(0u8);
            j += 1;
            assert(contents@ =~= padded(src@, j as nat));
        }
        assert(src@.subrange(0, src@.len() as int) =~= src@);
        assert(contents@.len() >= 64);
        let r = aligned_copy(contents.as_slice());
        r
    }

    /// The padded document bytes.
    pub fn as_bytes(&self) -> (r: &[u8])
        ensures
            r@ == input_contents(*self),
    {
        aligned_view(self)
    }
}

} // verus!
