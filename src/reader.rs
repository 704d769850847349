use vstd::prelude::*;
use crate::lines::{NEWLINE, tail, content, lemma_content_len_is};
use crate::search::{rfind_byte, is_last_index};

verus! {

/// Size in bytes of each block handed to a parser.
pub const BLOCK_SIZE: usize = 50_000;

/// Size of the window at the end of a full block that must hold a newline;
/// also the most bytes carried over to the next block.
pub const REMAINDER_CAP: usize = 50;

/// How a block was completed.
#[derive(PartialEq, Eq, Structural, Clone, Copy, Debug)]
pub enum BlockEnd {
    /// The block is full and ends at a line break; the rest is carried over.
    Full,
    /// The input ended inside this block: it is the last one.
    Last,
}

/// A full block whose final window holds no newline.
#[derive(PartialEq, Eq, Structural, Clone, Copy, Debug)]
pub struct MissingNewline;

pub open spec fn zeros(n: nat) -> Seq<u8> {
    Seq::new(n, |i: int| 0u8)
}

pub open spec fn zero_free(s: Seq<u8>) -> bool {
    forall|i: int| 0 <= i < s.len() ==> s[i] != 0
}

/// The content of a block whose kept bytes, free of zero bytes, are followed
/// by zeros is those bytes.
pub proof fn lemma_content_of_padded(kept: Seq<u8>, n: nat)
    requires
        zero_free(kept),
    ensures
        content(kept + zeros(n)) == kept,
{
    let b = kept + zeros(n);
    lemma_content_len_is(b, kept.len() as int);
    assert(b.subrange(0, kept.len() as int) == kept);
}

/// The bytes of the previous block after its last line break, which start
/// the next block.
pub struct Remainder {
    bytes: Vec<u8>,
}

impl View for Remainder {
    type V = Seq<u8>;

    closed spec fn view(&self) -> Seq<u8> {
        self.bytes@
    }
}

impl Remainder {
    /// Nothing carried over.
    pub fn new() -> (r: Remainder)
        ensures
            r@ == Seq::<u8>::empty(),
    {
        Remainder { bytes: Vec::new() }
    }

    /// The number of bytes carried over.
    pub fn len(&self) -> (r: usize)
        ensures
            r == self@.len(),
    {
        self.bytes.len()
    }

    /// Copies the carried-over bytes to the front of a block and returns
    /// where reading goes on.
    pub fn begin_block(&self, block: &mut Vec<u8>) -> (start: usize)
        requires
            self@.len() <= old(block)@.len(),
        ensures
            start == self@.len(),
            final(block)@.len() == old(block)@.len(),
            final(block)@.subrange(0, start as int) == self@,
            final(block)@.subrange(start as int, final(block)@.len() as int)
                == old(block)@.subrange(start as int, old(block)@.len() as int),
    {
        let n: usize = self.bytes.len();
        let mut i: usize = 0;
        while i < n
            invariant
                n == self@.len(),
                i <= n,
                n <= block@.len(),
                block@.len() == old(block)@.len(),
                forall|j: int| 0 <= j < i ==> block@[j] == self@[j],
                forall|j: int| i <= j < block@.len() ==> block@[j] == old(block)@[j],
            decreases n - i,
        {
            block[i] = self.bytes[i];
            i += 1;
        }
        assert(block@.subrange(0, n as int) =~= self@);
        assert(block@.subrange(n as int, block@.len() as int) =~= old(block)@.subrange(n as int, old(block)@.len() as int));
        n
    }

    /// Completes a block whose first `filled` bytes hold data. When the input
    /// ended (`filled` is short of a full block) the rest of the block is
    /// zeroed and the block is the last. Otherwise the block is cut after the
    /// last newline of its final window: the bytes after it are carried over
    /// and zeroed in the block. A full block with no newline in its final
    /// window is refused.
    pub fn finish_block(&mut self, block: &mut Vec<u8>, filled: usize) -> (r: Result<BlockEnd, MissingNewline>)
        requires
            old(block)@.len() == BLOCK_SIZE,
            filled <= BLOCK_SIZE,
        ensures
            final(block)@.len() == BLOCK_SIZE,
            ({
                let data = old(block)@.subrange(0, filled as int);
                let window = data.subrange(BLOCK_SIZE - REMAINDER_CAP, BLOCK_SIZE as int);
                match r {
                    Ok(BlockEnd::Last) => {
                        &&& filled < BLOCK_SIZE
                        &&& final(block)@ == data + zeros((BLOCK_SIZE - filled) as nat)
                        &&& zero_free(data) ==> content(final(block)@) == data
                        &&& final(self)@ == old(self)@
                    },
                    Ok(BlockEnd::Full) => {
                        &&& filled == BLOCK_SIZE
                        &&& exists|nl: int| #[trigger] is_last_index(window, NEWLINE, nl) && {
                            let cut = BLOCK_SIZE - REMAINDER_CAP + nl + 1;
                            &&& final(block)@ == data.subrange(0, cut) + zeros((BLOCK_SIZE - cut) as nat)
                            &&& zero_free(data) ==> content(final(block)@) == data.subrange(0, cut)
                            &&& tail(data.subrange(0, cut)).len() == 0
                            &&& final(self)@ == data.subrange(cut, BLOCK_SIZE as int)
                        }
                    },
                    Err(_) => {
                        &&& filled == BLOCK_SIZE
                        &&& forall|j: int| 0 <= j < window.len() ==> window[j] != NEWLINE
                        &&& final(self)@ == old(self)@
                    },
                }
            }),
    {
        let ghost data = block@.subrange(0, filled as int);
        if filled < BLOCK_SIZE {
            zero_from(block, filled);
            assert(block@ =~= data + zeros((BLOCK_SIZE - filled) as nat));
            proof {
                if zero_free(data) {
                    lemma_content_of_padded(data, (BLOCK_SIZE - filled) as nat);
                }
            }
            return Ok(BlockEnd::Last);
        }
        assert(data =~= block@);
        let found = rfind_byte(NEWLINE, &block.as_slice()[BLOCK_SIZE - REMAINDER_CAP..BLOCK_SIZE]);
        let ghost window = data.subrange(BLOCK_SIZE - REMAINDER_CAP, BLOCK_SIZE as int);
        match found {
            None => Err(MissingNewline),
            Some(nl) => {
                assert(is_last_index(window, NEWLINE, nl as int));
                let cut: usize = BLOCK_SIZE - REMAINDER_CAP + nl + 1;
                let mut carried: Vec<u8> = Vec::new();
                let mut i: usize = cut;
                while i < BLOCK_SIZE
                    invariant
                        cut <= i <= BLOCK_SIZE,
                        block@ == data,
                        data.len() == BLOCK_SIZE,
                        carried@ == data.subrange(cut as int, i as int),
                    decreases BLOCK_SIZE - i,
                {
                    carried.push(block[i]);
                    assert(carried@ =~= data.subrange(cut as int, i + 1));
                    i += 1;
                }
                self.bytes = carried;
                zero_from(block, cut);
                let ghost kept = data.subrange(0, cut as int);
                assert(block@ =~= kept + zeros((BLOCK_SIZE - cut) as nat));
                proof {
                    assert(kept.last() == NEWLINE);
                    if zero_free(data) {
                        assert(zero_free(kept));
                        lemma_content_of_padded(kept, (BLOCK_SIZE - cut) as nat);
                    }
                }
                Ok(BlockEnd::Full)
            },
        }
    }
}

/// Zeroes a block from `from` to its end.
fn zero_from(block: &mut Vec<u8>, from: usize)
    requires
        from <= old(block)@.len(),
    ensures
        final(block)@.len() == old(block)@.len(),
        forall|j: int| 0 <= j < from ==> final(block)@[j] == old(block)@[j],
        forall|j: int| from <= j < final(block)@.len() ==> final(block)@[j] == 0,
{
    let n: usize = block.len();
    let mut i: usize = from;
    while i < n
        invariant
            from <= i <= n,
            n == block@.len(),
            block@.len() == old(block)@.len(),
            forall|j: int| 0 <= j < from ==> block@[j] == old(block)@[j],
            forall|j: int| from <= j < i ==> block@[j] == 0,
        decreases n - i,
    {
        block[i] = 0;
        i += 1;
    }
}

} // verus!
