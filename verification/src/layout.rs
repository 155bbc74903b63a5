//! Block-layout arithmetic: alignment, block sizing, and size classes.

use vstd::prelude::*;

verus! {

/// Alignment of every payload pointer handed out.
pub const ALIGN: usize = 16;

/// Bytes of bookkeeping at the head of every block.
pub const HEADER_SIZE: usize = 16;

/// Smallest block: a header plus the smallest useful payload.
pub const MIN_BLOCK: usize = 32;

/// Granularity of the region source.
pub const PAGE: usize = 4096;

/// Smallest region requested from the region source, to amortize growth.
pub const MIN_REGION: usize = 65536;

/// Number of segregated size classes in the free-list index.
pub const NUM_CLASSES: usize = 8;

/// `n` rounded up to the next multiple of `m`.
pub open spec fn round_up(n: int, m: int) -> int
    recommends
        m > 0,
{
    ((n + m - 1) / m) * m
}

pub proof fn lemma_round_up(n: int, m: int)
    requires
        m > 0,
        n >= 0,
    ensures
        n <= round_up(n, m) < n + m,
        round_up(n, m) % m == 0,
{
    let q = (n + m - 1) / m;
    let r = (n + m - 1) % m;
    vstd::arithmetic::div_mod::lemma_fundamental_div_mod(n + m - 1, m);
    assert(q * m == n + m - 1 - r);
    vstd::arithmetic::div_mod::lemma_mod_multiples_basic(q, m);
}

/// Total block size (header included) that serves a payload request of
/// `size` bytes: the payload span is rounded up to the alignment.
pub open spec fn block_size_spec(size: int) -> int {
    HEADER_SIZE + round_up(size, ALIGN as int)
}

/// Computes `block_size_spec(size)`, reporting overflow as `None`.
pub fn block_size_for(size: usize) -> (r: Option<usize>)
    requires
        size >= 1,
    ensures
        match r {
            Some(n) => {
                &&& n == block_size_spec(size as int)
                &&& n % ALIGN == 0
                &&& MIN_BLOCK <= n
                &&& size <= n
            },
            None => block_size_spec(size as int) > usize::MAX,
        },
{
    proof {
        lemma_round_up(size as int, ALIGN as int);
    }
    if size > usize::MAX - 31 {
        None
    } else {
        let n: usize = HEADER_SIZE + ((size + 15) / 16) * 16;
        proof {
            assert(round_up(size as int, ALIGN as int) % 16 == 0);
            assert((HEADER_SIZE + round_up(size as int, ALIGN as int)) % 16 == 0) by {
                vstd::arithmetic::div_mod::lemma_add_mod_noop(
                    HEADER_SIZE as int,
                    round_up(size as int, ALIGN as int),
                    16,
                );
            };
        }
        Some(n)
    }
}

/// Length of the region requested from the region source to serve a block
/// of `need` bytes: at least the minimum region, rounded up to whole pages.
pub open spec fn region_len_spec(need: int) -> int {
    if need <= MIN_REGION {
        MIN_REGION as int
    } else {
        round_up(need, PAGE as int)
    }
}

/// Computes `region_len_spec(need)`, reporting overflow as `None`.
pub fn region_len_for(need: usize) -> (r: Option<usize>)
    ensures
        match r {
            Some(n) => {
                &&& n == region_len_spec(need as int)
                &&& n % PAGE == 0
                &&& need <= n
                &&& MIN_REGION <= n
            },
            None => region_len_spec(need as int) > usize::MAX,
        },
{
    if need <= MIN_REGION {
        Some(MIN_REGION)
    } else if need > usize::MAX - 4095 {
        proof {
            lemma_round_up(need as int, PAGE as int);
        }
        None
    } else {
        let n: usize = ((need + 4095) / 4096) * 4096;
        proof {
            lemma_round_up(need as int, PAGE as int);
        }
        Some(n)
    }
}

/// The size class holding free blocks of the given total size.
pub open spec fn class_of_spec(size: int) -> int {
    if size < 64 {
        0
    } else if size < 128 {
        1
    } else if size < 256 {
        2
    } else if size < 512 {
        3
    } else if size < 1024 {
        4
    } else if size < 2048 {
        5
    } else if size < 4096 {
        6
    } else {
        7
    }
}

pub proof fn lemma_class_monotone(a: int, b: int)
    requires
        a <= b,
    ensures
        class_of_spec(a) <= class_of_spec(b),
{
}

/// Computes the size class of a block size.
pub fn class_of(size: usize) -> (k: usize)
    ensures
        k == class_of_spec(size as int),
        k < NUM_CLASSES,
{
    if size < 64 {
        0
    } else if size < 128 {
        1
    } else if size < 256 {
        2
    } else if size < 512 {
        3
    } else if size < 1024 {
        4
    } else if size < 2048 {
        5
    } else if size < 4096 {
        6
    } else {
        7
    }
}

} // verus!
