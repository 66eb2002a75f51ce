//! Files opened through DuckDB's file system: where reading stands.
use vstd::prelude::*;

verus! {

/// Where a seek counts from.
#[derive(Debug, Clone, Copy, PartialEq, Eq, Structural)]
pub enum SeekOrigin {
    Start(u64),
    End(i64),
    Current(i64),
}

/// A file opened for reading: its handle, its size and its stream
/// position, which reads and seeks move.
pub struct FileHandle {
    pub ptr: usize,
    pub size: u64,
    pub pos: u64,
}

/// The position that a seek aims at, which may lie before the start of the
/// file or beyond what a `u64` counts.
pub open spec fn seek_target(size: u64, pos: u64, origin: SeekOrigin) -> int {
    match origin {
        SeekOrigin::Start(p) => p as int,
        SeekOrigin::End(off) => size + off,
        SeekOrigin::Current(off) => pos + off,
    }
}

/// Whether a seek can go to its target.
pub open spec fn seek_valid(target: int) -> bool {
    0 <= target <= u64::MAX
}

/// A seek's target is where the file then stands: seeking zero bytes from
/// the current position afterwards goes nowhere and gives the target back.
pub proof fn lemma_seek_then_current(size: u64, pos: u64, origin: SeekOrigin)
    requires
        seek_valid(seek_target(size, pos, origin)),
    ensures
        ({
            let q = seek_target(size, pos, origin) as u64;
            &&& seek_valid(seek_target(size, q, SeekOrigin::Current(0)))
            &&& seek_target(size, q, SeekOrigin::Current(0)) == q
        }),
{
}

impl FileHandle {
    /// A file at `ptr` of `size` bytes, read from its start.
    pub fn new(ptr: usize, size: u64) -> (f: FileHandle)
        ensures
            f.ptr == ptr,
            f.size == size,
            f.pos == 0,
    {
        FileHandle { ptr, size, pos: 0 }
    }

    /// Takes the result of a read: a negative count is an error, else the
    /// position moves on by the count.
    pub fn advance(&mut self, read: i64) -> (r: Result<usize, ()>)
        ensures
            final(self).ptr == old(self).ptr,
            final(self).size == old(self).size,
            read < 0 ==> r is Err && final(self).pos == old(self).pos,
            read >= 0 ==> r == Ok::<usize, ()>(read as usize) && final(self).pos == old(self).pos.wrapping_add(read as u64),
    {
        if read < 0 {
            Err(())
        } else {
            self.pos = self.pos.wrapping_add(read as u64);
            Ok(read as usize)
        }
    }

    /// Seeks: the position moves to the target and the target is
    /// returned; a target before the start of the file, or beyond what a
    /// `u64` counts, is an error and leaves the position as it is.
    pub fn seek(&mut self, origin: SeekOrigin) -> (r: Result<u64, ()>)
        ensures
            final(self).ptr == old(self).ptr,
            final(self).size == old(self).size,
            seek_valid(seek_target(old(self).size, old(self).pos, origin)) ==> r == Ok::<u64, ()>(
                seek_target(old(self).size, old(self).pos, origin) as u64,
            ) && final(self).pos == seek_target(old(self).size, old(self).pos, origin),
            !seek_valid(seek_target(old(self).size, old(self).pos, origin)) ==> r is Err
                && final(self).pos == old(self).pos,
    {
        let target: i128 = match origin {
            SeekOrigin::Start(p) => p as i128,
            SeekOrigin::End(off) => self.size as i128 + off as i128,
            SeekOrigin::Current(off) => self.pos as i128 + off as i128,
        };
        if target < 0 || target > u64::MAX as i128 {
            Err(())
        } else {
            self.pos = target as u64;
            Ok(target as u64)
        }
    }
}

} // verus!
