//! The contents of the disk file, as the buffer pool reads and writes them
//! block by block. The program around the library fills it from the file and
//! writes the blocks recorded as written back to the file.

use crate::types::BLOCKSIZ;
use vstd::prelude::*;

verus! {

/// Why a block could not be read or written.
#[derive(Debug, Clone, Copy, PartialEq, Eq)]
pub enum DiskError {
    /// The block lies (partly) beyond the end of the disk.
    UnexpectedEof,
    /// The page id is negative.
    InvalidPage,
    /// The block's end lies beyond the memory the store can address.
    BeyondAddressSpace,
}

/// Whether block `pid` lies wholly within `bytes`.
pub open spec fn block_readable(bytes: Seq<u8>, pid: int) -> bool {
    0 <= pid && (pid + 1) * 512 <= bytes.len()
}

/// The bytes of block `pid`.
pub open spec fn block_of(bytes: Seq<u8>, pid: int) -> Seq<u8> {
    bytes.subrange(pid * 512, pid * 512 + 512)
}

/// The disk after writing `page` to block `pid`: the disk grows with zero
/// bytes up to the block's end where it is shorter.
pub open spec fn after_write(bytes: Seq<u8>, pid: int, page: Seq<u8>) -> Seq<u8> {
    let n = if bytes.len() < (pid + 1) * 512 {
        (pid + 1) * 512
    } else {
        bytes.len() as int
    };
    Seq::new(
        n as nat,
        |i: int|
            if pid * 512 <= i < pid * 512 + 512 {
                page[i - pid * 512]
            } else if i < bytes.len() {
                bytes[i]
            } else {
                0u8
            },
    )
}

/// The disk contents and the log of blocks written since the log was last taken.
pub struct BlockStore {
    data: Vec<u8>,
    written: Vec<i32>,
}

impl BlockStore {
    /// The disk bytes.
    pub closed spec fn view(&self) -> Seq<u8> {
        self.data@
    }

    /// Block ids written since the log was last taken, in order.
    pub closed spec fn written_log(&self) -> Seq<i32> {
        self.written@
    }

    /// A store holding `data`, with an empty log.
    pub fn new(data: Vec<u8>) -> (s: BlockStore)
        ensures
            s@ == data@,
            s.written_log() == Seq::<i32>::empty(),
    {
        BlockStore { data, written: Vec::new() }
    }

    /// The disk bytes.
    pub fn bytes(&self) -> (b: &Vec<u8>)
        ensures
            b@ == self@,
    {
        &self.data
    }

    /// Hands out and clears the log of written blocks.
    pub fn take_written(&mut self) -> (log: Vec<i32>)
        ensures
            log@ == old(self).written_log(),
            final(self)@ == old(self)@,
            final(self).written_log() == Seq::<i32>::empty(),
    {
        let mut log: Vec<i32> = Vec::new();
        std::mem::swap(&mut log, &mut self.written);
        log
    }

    /// Reads block `page_id` into `buf`.
    pub fn read_block(&self, page_id: i32, buf: &mut [u8; BLOCKSIZ]) -> (r: Result<(), DiskError>)
        ensures
            r is Ok <==> block_readable(self@, page_id as int),
            page_id < 0 ==> r == Err::<(), DiskError>(DiskError::InvalidPage),
            page_id >= 0 && !block_readable(self@, page_id as int) ==> r == Err::<(), DiskError>(
                DiskError::UnexpectedEof,
            ),
            r is Ok ==> final(buf)@ == block_of(self@, page_id as int),
            r is Err ==> *final(buf) == *old(buf),
    {
        if page_id < 0 {
            return Err(DiskError::InvalidPage);
        }
        let len = self.data.len();
        if len / 512 <= page_id as usize {
            return Err(DiskError::UnexpectedEof);
        }
        proof {
            assert(page_id * 512 < len) by (nonlinear_arith)
                requires
                    0 <= page_id,
                    len / 512 > page_id,
            ;
        }
        let off: usize = page_id as usize * 512;
        let mut i: usize = 0;
        while i < 512
            invariant
                0 <= page_id,
                off == page_id * 512,
                off + 512 <= self.data@.len(),
                i <= 512,
                forall|j: int| 0 <= j < i ==> buf@[j] == self.data@[off + j],
            decreases 512 - i,
        {
            buf[i] = self.data[off + i];
            i = i + 1;
        }
        assert(buf@ =~= block_of(self@, page_id as int));
        Ok(())
    }

    /// Writes `page` to block `page_id`, growing the disk with zeros up to the
    /// block's end where needed, and logs the block.
    pub fn write_block(&mut self, page_id: i32, page: &[u8; BLOCKSIZ]) -> (r: Result<(), DiskError>)
        ensures
            page_id < 0 ==> r == Err::<(), DiskError>(DiskError::InvalidPage) && *final(self) == *old(self),
            page_id >= 0 && (page_id + 1) * 512 > usize::MAX ==> r == Err::<(), DiskError>(
                DiskError::BeyondAddressSpace,
            ) && *final(self) == *old(self),
            page_id >= 0 && (page_id + 1) * 512 <= usize::MAX ==> r is Ok && final(self)@ == after_write(
                old(self)@,
                page_id as int,
                page@,
            ) && final(self).written_log() == old(self).written_log().push(page_id),
    {
        if page_id < 0 {
            return Err(DiskError::InvalidPage);
        }
        let end: u64 = (page_id as u64 + 1) * 512;
        if end > usize::MAX as u64 {
            return Err(DiskError::BeyondAddressSpace);
        }
        let off: usize = page_id as usize * 512;
        let ghost old_data = self.data@;
        while self.data.len() < off + 512
            invariant
                off == page_id * 512,
                off + 512 <= usize::MAX,
                self.written@ == old(self).written@,
                old_data == old(self).data@,
                old_data.len() <= self.data@.len(),
                self.data@.len() <= if old_data.len() < off + 512 { off + 512 } else { old_data.len() as int },
                forall|j: int| 0 <= j < old_data.len() ==> self.data@[j] == old_data[j],
                forall|j: int| old_data.len() <= j < self.data@.len() ==> self.data@[j] == 0u8,
            decreases off + 512 - self.data@.len(),
        {
            self.data.push(0u8);
        }
        let mut i: usize = 0;
        while i < 512
            invariant
                off == page_id * 512,
                self.written@ == old(self).written@,
                old_data == old(self).data@,
                off + 512 <= self.data@.len(),
                self.data@.len() == if old_data.len() < off + 512 { off + 512 } else { old_data.len() as int },
                i <= 512,
                forall|j: int|
                    0 <= j < self.data@.len() ==> self.data@[j] == if off <= j < off + i {
                        page@[j - off]
                    } else if j < old_data.len() {
                        old_data[j]
                    } else {
                        0u8
                    },
            decreases 512 - i,
        {
            self.data.set(off + i, page[i]);
            i = i + 1;
        }
        assert(self.data@ =~= after_write(old_data, page_id as int, page@));
        self.written.push(page_id);
        Ok(())
    }
}


/// Reading a block gives back what the last write to it wrote, and a write
/// leaves every other readable block as it was.
pub proof fn lemma_read_after_write(bytes: Seq<u8>, pid: int, page: Seq<u8>, other: int)
    requires
        pid >= 0,
        page.len() == 512,
    ensures
        block_readable(after_write(bytes, pid, page), pid),
        block_of(after_write(bytes, pid, page), pid) == page,
        other != pid && block_readable(bytes, other) ==> block_readable(after_write(bytes, pid, page), other)
            && block_of(after_write(bytes, pid, page), other) == block_of(bytes, other),
{
    let w = after_write(bytes, pid, page);
    assert(block_of(w, pid) =~= page);
    if other != pid && block_readable(bytes, other) {
        assert forall|i: int| 0 <= i < 512 implies #[trigger] block_of(w, other)[i] == block_of(bytes, other)[i] by {
            if pid < other {
                assert(pid * 512 + 512 <= other * 512) by (nonlinear_arith)
                    requires pid < other;
            } else {
                assert(other * 512 + 512 <= pid * 512) by (nonlinear_arith)
                    requires other < pid;
            }
        }
        assert(block_of(w, other) =~= block_of(bytes, other));
    }
}

/// Writing a block never shortens the disk.
pub proof fn lemma_after_write_len(bytes: Seq<u8>, pid: int, page: Seq<u8>)
    ensures
        after_write(bytes, pid, page).len() >= bytes.len(),
        forall|q: int| #[trigger] block_readable(bytes, q) ==> block_readable(after_write(bytes, pid, page), q),
{
}

} // verus!
