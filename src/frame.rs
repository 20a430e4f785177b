//! Per-page metadata of the buddy allocator, and the index arithmetic of
//! buddies.
use vstd::prelude::*;
use vstd::arithmetic::power2::{pow2, lemma_pow2_unfold, lemma_pow2_pos};
use vstd::arithmetic::div_mod::{
    lemma_fundamental_div_mod,
    lemma_fundamental_div_mod_converse_div,
    lemma_fundamental_div_mod_converse_mod,
};
use vstd::bits::{lemma_usize_shl_is_mul, lemma_usize_shr_is_div, lemma_usize_pow2_no_overflow};

verus! {

/// Levels are kept below this bound, so `1 << level` fits a `usize` on every
/// target.
pub const MAX_HEIGHT: usize = 32;

/// The index of the block that pairs with block `i` of size `2^l` to form a
/// block of size `2^(l+1)`: the indices differ exactly in bit `l`.
pub open spec fn buddy_index(i: int, l: nat) -> int {
    if (i / pow2(l) as int) % 2 == 0 {
        i + pow2(l)
    } else {
        i - pow2(l)
    }
}

/// `i` is the start of a block of `2^l` pages.
pub open spec fn aligned(i: int, l: nat) -> bool {
    i % pow2(l) as int == 0
}

/// `1 << l` is `2^l`.
pub proof fn lemma_shl_pow2(l: usize)
    requires
        l < MAX_HEIGHT - 1,
    ensures
        (1usize << l) == pow2(l as nat),
        pow2(l as nat) <= 0x4000_0000,
{
    lemma_usize_pow2_no_overflow(l as nat);
    lemma_usize_shl_is_mul(1, l);
    vstd::arithmetic::power2::lemma2_to64();
    if l < 30 {
        vstd::arithmetic::power2::lemma_pow2_strictly_increases(l as nat, 30);
    }
}

/// Flipping bit `l` of `x` moves to the buddy of `x` at level `l`.
pub proof fn lemma_xor_is_buddy(x: usize, l: usize)
    requires
        l < MAX_HEIGHT - 1,
    ensures
        x ^ (1usize << l) == buddy_index(x as int, l as nat),
{
    lemma_shl_pow2(l);
    let b = 1usize << l;
    assert((x & b == 0 ==> x ^ b == x + b) && (x & b != 0 ==> x ^ b == x - b)) by (bit_vector)
        requires
            b == 1usize << l,
            l < 31,
    ;
    assert((x & (1usize << l) == 0) == (((x >> l) & 1) == 0)) by (bit_vector)
        requires
            l < 31,
    ;
    lemma_usize_shr_is_div(x, l);
    let y = x >> l;
    assert((y & 1 == 0) == (y % 2 == 0)) by (bit_vector);
}

/// The buddies of an aligned block: the lower of the two is aligned to the
/// next level, and the buddy is aligned too.
pub proof fn lemma_buddy_aligned(i: int, l: nat)
    requires
        i >= 0,
        aligned(i, l),
    ensures
        aligned(buddy_index(i, l), l),
        buddy_index(i, l) >= 0,
        buddy_index(buddy_index(i, l), l) == i,
        (i / pow2(l) as int) % 2 == 0 ==> aligned(i, l + 1),
        (i / pow2(l) as int) % 2 != 0 ==> aligned(i - pow2(l), l + 1),
{
    let p = pow2(l) as int;
    lemma_pow2_pos(l);
    lemma_pow2_unfold(l + 1);
    assert(pow2(l + 1) == 2 * p);
    lemma_fundamental_div_mod(i, p);
    let q = i / p;
    assert(i == q * p) by (nonlinear_arith)
        requires
            i == p * q + 0,
    ;
    assert(q >= 0) by (nonlinear_arith)
        requires
            i == q * p,
            p > 0,
            i >= 0,
    ;
    let m = q / 2;
    lemma_fundamental_div_mod(q, 2);
    if q % 2 == 0 {
        assert(i + p == (q + 1) * p) by (nonlinear_arith)
            requires
                i == q * p,
        ;
        lemma_fundamental_div_mod_converse_mod(i + p, p, q + 1, 0);
        lemma_fundamental_div_mod_converse_div(i + p, p, q + 1, 0);
        assert(i == m * (2 * p)) by (nonlinear_arith)
            requires
                i == q * p,
                q == 2 * m,
        ;
        lemma_fundamental_div_mod_converse_mod(i, 2 * p, m, 0);
    } else {
        assert(i - p == (q - 1) * p) by (nonlinear_arith)
            requires
                i == q * p,
        ;
        assert(q >= 1);
        assert(i - p >= 0) by (nonlinear_arith)
            requires
                i - p == (q - 1) * p,
                q >= 1,
                p > 0,
        ;
        lemma_fundamental_div_mod_converse_mod(i - p, p, q - 1, 0);
        lemma_fundamental_div_mod_converse_div(i - p, p, q - 1, 0);
        assert(i - p == m * (2 * p)) by (nonlinear_arith)
            requires
                i - p == (q - 1) * p,
                q == 2 * m + 1,
        ;
        lemma_fundamental_div_mod_converse_mod(i - p, 2 * p, m, 0);
    }
}

/// A block aligned at level `l > 0` is the lower half of its two halves.
pub proof fn lemma_split_aligned(i: int, l: nat)
    requires
        i >= 0,
        l > 0,
        aligned(i, l),
    ensures
        aligned(i, (l - 1) as nat),
        (i / pow2((l - 1) as nat) as int) % 2 == 0,
        pow2(l) == 2 * pow2((l - 1) as nat),
        buddy_index(i, (l - 1) as nat) == i + pow2((l - 1) as nat),
{
    let h = pow2((l - 1) as nat) as int;
    lemma_pow2_pos((l - 1) as nat);
    lemma_pow2_unfold(l);
    lemma_fundamental_div_mod(i, 2 * h);
    let m = i / (2 * h);
    assert(i == (2 * m) * h) by (nonlinear_arith)
        requires
            i == (2 * h) * m + 0,
    ;
    lemma_fundamental_div_mod_converse_mod(i, h, 2 * m, 0);
    lemma_fundamental_div_mod_converse_div(i, h, 2 * m, 0);
}

/// The bookkeeping record of one page: its fixed index, the level of the
/// block it heads, and whether that block is free.
#[derive(Clone, Copy)]
pub struct Frame {
    pub num: usize,
    pub level: usize,
    pub free: bool,
}

impl Frame {
    /// A free level-0 record for page `num`.
    pub fn new(num: usize) -> (r: Frame)
        ensures
            r.num == num,
            r.level == 0,
            r.free,
    {
        Frame { num, level: 0, free: true }
    }

    pub fn num(&self) -> (r: usize)
        ensures
            r == self.num,
    {
        self.num
    }

    pub fn level(&self) -> (r: usize)
        ensures
            r == self.level,
    {
        self.level
    }

    pub fn set_level(&mut self, level: usize)
        ensures
            *final(self) == (Frame { level, ..*old(self) }),
    {
        self.level = level;
    }

    pub fn is_free(&self) -> (r: bool)
        ensures
            r == self.free,
    {
        self.free
    }

    pub fn is_occupied(&self) -> (r: bool)
        ensures
            r == !self.free,
    {
        !self.free
    }

    pub fn set_free(&mut self)
        ensures
            *final(self) == (Frame { free: true, ..*old(self) }),
    {
        self.free = true;
    }

    pub fn set_occupied(&mut self)
        ensures
            *final(self) == (Frame { free: false, ..*old(self) }),
    {
        self.free = false;
    }

    /// The index of this page's partner at level `level`: `num` with bit
    /// `level` flipped.
    pub fn buddy_on_level(&self, level: usize) -> (r: usize)
        requires
            level < MAX_HEIGHT - 1,
        ensures
            r == self.num ^ (1usize << level),
            r == buddy_index(self.num as int, level as nat),
    {
        proof {
            lemma_xor_is_buddy(self.num, level);
        }
        self.num ^ (1usize << level)
    }

    /// The partner of this block at its own level.
    pub fn get_buddy(&self) -> (r: usize)
        requires
            self.level < MAX_HEIGHT - 1,
        ensures
            r == buddy_index(self.num as int, self.level as nat),
    {
        self.buddy_on_level(self.level)
    }

    /// Whether `other` can merge with this block: it is free and of the same
    /// level (a same-position block of another level is a stale partner).
    pub fn ready(&self, other: &Frame) -> (r: bool)
        ensures
            r == (other.free && other.level == self.level),
    {
        other.free && other.level == self.level
    }
}

} // verus!
