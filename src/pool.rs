use vstd::prelude::*;
use crate::reader::{BLOCK_SIZE, zeros};

verus! {

/// Number of blocks in each parser's ring.
pub const N_BLOCKS: usize = 3;

/// Who may touch a block: the reader (`Empty`), the parser (`Filled`), or
/// nobody any more, because one side has finished (`Abandoned`).
#[derive(PartialEq, Eq, Structural, Clone, Copy, Debug)]
pub enum BlockState {
    Empty,
    Filled,
    Abandoned,
}

/// A side found a block abandoned by the other side.
#[derive(PartialEq, Eq, Structural, Clone, Copy, Debug)]
pub enum PoolError {
    /// The parser of the ring finished before the reader.
    ParserGone,
    /// The reader finished while a parser still probed its ring.
    ReaderGone,
}

/// A fixed-size byte block with its state tag.
pub struct BufferBlock {
    pub state: BlockState,
    pub buf: Vec<u8>,
}

impl BufferBlock {
    /// A zeroed block, ready to be filled.
    pub fn new() -> (r: BufferBlock)
        ensures
            r.state == BlockState::Empty,
            r.buf@ == zeros(BLOCK_SIZE as nat),
    {
        let buf: Vec<u8> = vec![0u8; BLOCK_SIZE];
        assert(buf@ =~= zeros(BLOCK_SIZE as nat));
        BufferBlock { state: BlockState::Empty, buf }
    }

    /// Whether the reader may fill the block now.
    pub fn try_fill(&self) -> (r: Result<bool, PoolError>)
        ensures
            r == match self.state {
                BlockState::Empty => Ok::<bool, PoolError>(true),
                BlockState::Filled => Ok(false),
                BlockState::Abandoned => Err(PoolError::ParserGone),
            },
    {
        match self.state {
            BlockState::Empty => Ok(true),
            BlockState::Filled => Ok(false),
            BlockState::Abandoned => Err(PoolError::ParserGone),
        }
    }

    /// Whether the parser may parse the block now.
    pub fn try_parse(&self) -> (r: Result<bool, PoolError>)
        ensures
            r == match self.state {
                BlockState::Filled => Ok::<bool, PoolError>(true),
                BlockState::Empty => Ok(false),
                BlockState::Abandoned => Err(PoolError::ReaderGone),
            },
    {
        match self.state {
            BlockState::Filled => Ok(true),
            BlockState::Empty => Ok(false),
            BlockState::Abandoned => Err(PoolError::ReaderGone),
        }
    }

    /// The reader hands the filled block to the parser.
    pub fn mark_filled(&mut self)
        requires
            old(self).state == BlockState::Empty,
        ensures
            final(self).state == BlockState::Filled,
            final(self).buf == old(self).buf,
    {
        self.state = BlockState::Filled;
    }

    /// The parser hands the parsed block back to the reader.
    pub fn mark_parsed(&mut self)
        requires
            old(self).state == BlockState::Filled,
        ensures
            final(self).state == BlockState::Empty,
            final(self).buf == old(self).buf,
    {
        self.state = BlockState::Empty;
    }

    /// A side that finishes stamps the block; the state is final.
    pub fn abandon(&mut self)
        ensures
            final(self).state == BlockState::Abandoned,
            final(self).buf == old(self).buf,
    {
        self.state = BlockState::Abandoned;
    }
}

/// One ring of blocks per parser.
pub struct Buffers {
    rings: Vec<Vec<BufferBlock>>,
}

impl Buffers {
    /// The rings, as blocks.
    pub closed spec fn rings(&self) -> Seq<Seq<BufferBlock>> {
        self.rings@.map_values(|r: Vec<BufferBlock>| r@)
    }

    /// `parse_threads` rings of `N_BLOCKS` empty, zeroed blocks.
    pub fn new(parse_threads: usize) -> (r: Buffers)
        ensures
            r.rings().len() == parse_threads,
            forall|i: int| 0 <= i < parse_threads ==> (#[trigger] r.rings()[i]).len() == N_BLOCKS,
            forall|i: int, j: int| 0 <= i < parse_threads && 0 <= j < N_BLOCKS ==>
                (#[trigger] r.rings()[i][j]).state == BlockState::Empty
                && r.rings()[i][j].buf@ == zeros(BLOCK_SIZE as nat),
    {
        let mut rings: Vec<Vec<BufferBlock>> = Vec::new();
        let mut t: usize = 0;
        while t < parse_threads
            invariant
                t <= parse_threads,
                rings@.len() == t,
                forall|i: int| 0 <= i < t ==> (#[trigger] rings@[i])@.len() == N_BLOCKS,
                forall|i: int, j: int| 0 <= i < t && 0 <= j < N_BLOCKS ==>
                    (#[trigger] rings@[i]@[j]).state == BlockState::Empty
                    && rings@[i]@[j].buf@ == zeros(BLOCK_SIZE as nat),
            decreases parse_threads - t,
        {
            let mut ring: Vec<BufferBlock> = Vec::new();
            let mut b: usize = 0;
            while b < N_BLOCKS
                invariant
                    b <= N_BLOCKS,
                    ring@.len() == b,
                    forall|j: int| 0 <= j < b ==> (#[trigger] ring@[j]).state == BlockState::Empty
                        && ring@[j].buf@ == zeros(BLOCK_SIZE as nat),
                decreases N_BLOCKS - b,
            {
                ring.push(BufferBlock::new());
                b += 1;
            }
            rings.push(ring);
            t += 1;
        }
        Buffers { rings }
    }

    /// The ring of parser `nth`.
    pub fn get(&self, nth: usize) -> (r: &Vec<BufferBlock>)
        requires
            nth < self.rings().len(),
        ensures
            r@ == self.rings()[nth as int],
    {
        &self.rings[nth]
    }

    /// Hands the rings out, one per parser.
    pub fn into_rings(self) -> (r: Vec<Vec<BufferBlock>>)
        ensures
            r@.map_values(|v: Vec<BufferBlock>| v@) == self.rings(),
    {
        self.rings
    }
}

} // verus!
