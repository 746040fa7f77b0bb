//! File sizes on Unix systems.

use vstd::prelude::*;
use vstd::arithmetic::div_mod::{lemma_fundamental_div_mod, lemma_fundamental_div_mod_converse};
use crate::metadata::{FileTime, InodeAndDevice};

verus! {

/// A file system can allocate this many blocks more for a file than it needs.
pub const PRE_ALLOCATION_BLOCKS: u64 = 65536;

/// What the system reports of a file.
#[derive(Clone, Copy, Debug, PartialEq, Eq)]
pub struct Stat {
    /// The length of the file in bytes.
    pub len: u64,
    /// The inode of the file.
    pub ino: u64,
    /// The device that the file is on.
    pub dev: u64,
    /// When the file was last written.
    pub mtime: i64,
    /// When the file was last read.
    pub atime: i64,
    /// When the status of the file last changed.
    pub ctime: i64,
    /// The block size of the file system for input and output.
    pub blksize: u64,
    /// How many blocks of [`get_block_size`] bytes are allocated to the file.
    pub blocks: u64,
}

/// What a file of `len` bytes occupies: the bytes of as many whole blocks as it takes.
pub open spec fn target_size(len: int, blksize: int) -> int {
    (len + blksize - 1) / blksize * blksize
}

/// The size that the system reports as allocated.
pub open spec fn reported_size(stat: Stat) -> int {
    stat.blocks * 512
}

/// The most that is believed of the reported size.
pub open spec fn max_size(stat: Stat) -> int {
    target_size(stat.len as int, stat.blksize as int) + stat.blksize * PRE_ALLOCATION_BLOCKS
}

/// What the file is taken to occupy: the reported size, unless it is more than is believed. On
/// NTFS mounts, the reported block count can be unexpectedly large.
pub open spec fn allocated_size(stat: Stat) -> int {
    if reported_size(stat) > max_size(stat) {
        target_size(stat.len as int, stat.blksize as int)
    } else {
        reported_size(stat)
    }
}

/// The file system has a block size, and the sizes that are to be compared can be written.
pub open spec fn sizes_fit(stat: Stat) -> bool {
    &&& stat.blksize > 0
    &&& reported_size(stat) <= u64::MAX
    &&& max_size(stat) <= u64::MAX
}

/// The size that is told of a file.
pub open spec fn told_size(stat: Stat, use_apparent_size: bool) -> int {
    if use_apparent_size {
        stat.len as int
    } else {
        allocated_size(stat)
    }
}

/// The target size is the least multiple of the block size that holds the file.
pub proof fn lemma_target_size(len: int, blksize: int)
    requires
        len >= 0,
        blksize > 0,
    ensures
        target_size(len, blksize) % blksize == 0,
        len <= target_size(len, blksize) < len + blksize,
        forall|size: int|
            #![trigger size % blksize]
            size >= len && size % blksize == 0 ==> target_size(len, blksize) <= size,
{
    let q = (len + blksize - 1) / blksize;
    let t = q * blksize;
    lemma_fundamental_div_mod(len + blksize - 1, blksize);
    assert(blksize * q == t) by (nonlinear_arith)
        requires
            t == q * blksize,
    ;
    lemma_fundamental_div_mod_converse(t, blksize, q, 0);
    assert forall|size: int|
        #![trigger size % blksize]
        size >= len && size % blksize == 0 implies t <= size by {
        lemma_fundamental_div_mod(size, blksize);
        let k = size / blksize;
        if size < t {
            assert(k < q) by (nonlinear_arith)
                requires
                    blksize * k < blksize * q,
                    blksize > 0,
            ;
            assert(blksize * k <= blksize * q - blksize) by (nonlinear_arith)
                requires
                    k <= q - 1,
                    blksize > 0,
            ;
        }
    }
}

/// What a file is taken to occupy is never above what is believed of it, and is what the
/// system reports wherever that is believed.
pub proof fn lemma_allocated_size(stat: Stat)
    requires
        stat.blksize > 0,
    ensures
        allocated_size(stat) <= max_size(stat),
        reported_size(stat) <= max_size(stat) ==> allocated_size(stat) == reported_size(stat),
        reported_size(stat) > max_size(stat) ==> allocated_size(stat) == target_size(
            stat.len as int,
            stat.blksize as int,
        ),
        allocated_size(stat) <= reported_size(stat),
{
    assert(stat.blksize * PRE_ALLOCATION_BLOCKS >= 0);
}

/// What is told of a file, said of the multiple of its block size that just holds it: its length,
/// or the 512 bytes of each block that the system reports, unless these are over 65536 blocks
/// more than it needs, where it is what it needs. That can be told of every file whose sizes fit
/// a number of 64 bits, and of no other.
pub proof fn lemma_told_size(stat: Stat, needed: int)
    requires
        stat.blksize > 0,
        needed % (stat.blksize as int) == 0,
        stat.len <= needed < stat.len + stat.blksize,
    ensures
        told_size(stat, true) == stat.len,
        stat.blocks * 512 <= needed + stat.blksize * 65536 ==> told_size(stat, false)
            == stat.blocks * 512,
        stat.blocks * 512 > needed + stat.blksize * 65536 ==> told_size(stat, false) == needed,
        sizes_fit(stat) <==> stat.blocks * 512 <= 0xffff_ffff_ffff_ffff && needed + stat.blksize
            * 65536 <= 0xffff_ffff_ffff_ffff,
{
    let (len, size) = (stat.len as int, stat.blksize as int);
    let target = target_size(len, size);
    lemma_target_size(len, size);
    assert(needed == target) by {
        lemma_fundamental_div_mod(needed, size);
        lemma_fundamental_div_mod(target, size);
        let (k, q) = (needed / size, target / size);
        assert(size * k - size * q == size * (k - q)) by (nonlinear_arith);
        if k != q {
            assert(k - q >= 1 ==> size * (k - q) >= size) by (nonlinear_arith)
                requires
                    size > 0,
            ;
            assert(k - q <= -1 ==> size * (k - q) <= -size) by (nonlinear_arith)
                requires
                    size > 0,
            ;
        }
    }
}

/// Without a block size, what a file occupies cannot be told.
pub proof fn lemma_no_block_size(stat: Stat)
    requires
        stat.blksize == 0,
    ensures
        told_size(stat, true) == stat.len,
        !sizes_fit(stat),
{
}

/// The size that is told depends on the length, the block size and the blocks of a file alone,
/// and the apparent size on its length alone.
pub proof fn lemma_told_size_of_two(a: Stat, b: Stat)
    requires
        a.len == b.len,
    ensures
        told_size(a, true) == told_size(b, true),
        a.blksize == b.blksize && a.blocks == b.blocks ==> told_size(a, false) == told_size(
            b,
            false,
        ),
{
}

/// The bytes in a block, as the system counts the blocks that are allocated to a file.
pub fn get_block_size() -> (size: u64)
    ensures
        size == 512,
{
    512
}

/// How many blocks of `size` bytes it takes to hold `len` bytes.
fn blocks_for(len: u64, size: u64) -> (count: u64)
    requires
        size > 0,
    ensures
        count == (len + size - 1) / size as int,
{
    let whole = len / size;
    let over = len % size;
    let ghost (l, s, w, o) = (len as int, size as int, whole as int, over as int);
    proof {
        lemma_fundamental_div_mod(l, s);
        if o > 0 {
            assert(s * (w + 1) == s * w + s) by (nonlinear_arith);
            lemma_fundamental_div_mod_converse(l + s - 1, s, w + 1, o - 1);
            assert(w < l) by (nonlinear_arith)
                requires
                    l == s * w + o,
                    o > 0,
                    s > 0,
                    w >= 0,
            ;
        } else {
            lemma_fundamental_div_mod_converse(l + s - 1, s, w, s - 1);
        }
    }
    if over > 0 {
        whole + 1
    } else {
        whole
    }
}

/// The sizes of the file can be told in blocks.
pub fn can_measure(stat: &Stat) -> (can: bool)
    ensures
        can == sizes_fit(*stat),
{
    if stat.blksize == 0 {
        return false;
    }
    let count = blocks_for(stat.len, stat.blksize);
    proof {
        lemma_target_size(stat.len as int, stat.blksize as int);
        assert(stat.blksize * PRE_ALLOCATION_BLOCKS <= u64::MAX * 65536) by (nonlinear_arith)
            requires
                stat.blksize <= u64::MAX,
                PRE_ALLOCATION_BLOCKS == 65536,
        ;
        assert(0 <= stat.blksize * PRE_ALLOCATION_BLOCKS);
    }
    let target: u128 = count as u128 * stat.blksize as u128;
    let most: u128 = target + stat.blksize as u128 * PRE_ALLOCATION_BLOCKS as u128;
    let block_size = get_block_size();
    assert(0 <= stat.blocks * block_size <= u64::MAX * 512) by (nonlinear_arith)
        requires
            0 <= stat.blocks <= u64::MAX,
            block_size == 512,
    ;
    let reported: u128 = stat.blocks as u128 * block_size as u128;
    reported <= u64::MAX as u128 && most <= u64::MAX as u128
}

/// The size, the identity and the times of a file, from what the system reports of it: nothing
/// where it reports nothing. The size is the length of the file if `use_apparent_size`, or else
/// what the file is taken to occupy.
pub fn get_metadata(stat: Option<Stat>, use_apparent_size: bool) -> (told: Option<
    (u64, Option<InodeAndDevice>, FileTime),
>)
    requires
        stat is Some && !use_apparent_size ==> sizes_fit(stat->0),
    ensures
        told is Some <==> stat is Some,
        stat matches Some(md) ==> {
            &&& told matches Some((size, id, times))
            &&& size == told_size(md, use_apparent_size)
            &&& id == Some((md.ino, md.dev))
            &&& times == (md.mtime, md.atime, md.ctime)
        },
{
    match stat {
        Some(md) => {
            let file_size = md.len;
            if use_apparent_size {
                Some((file_size, Some((md.ino, md.dev)), (md.mtime, md.atime, md.ctime)))
            } else {
                let blksize = md.blksize;
                let count = blocks_for(file_size, blksize);
                let target_size = count * blksize;
                let reported_size = md.blocks * get_block_size();
                let pre_allocation_buffer = blksize * PRE_ALLOCATION_BLOCKS;
                let max_size = target_size + pre_allocation_buffer;
                let allocated_size = if reported_size > max_size {
                    target_size
                } else {
                    reported_size
                };
                Some((allocated_size, Some((md.ino, md.dev)), (md.mtime, md.atime, md.ctime)))
            }
        },
        None => None,
    }
}

} // verus!
