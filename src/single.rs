//! The buddy allocator over one memory region.
use vstd::prelude::*;
use vstd::arithmetic::power2::{pow2, lemma_pow2_pos, lemma_pow2_unfold};
use crate::frame::{Frame, MAX_HEIGHT, buddy_index, aligned, lemma_buddy_aligned, lemma_split_aligned, lemma_shl_pow2};
use crate::inplace_list::{InplaceList, Node};
use crate::memory_map::MemoryMapEntry;

verus! {

/// The size of one page, in bytes.
pub const PAGE_SIZE: usize = 4096;

/// Regions smaller than this, once aligned, are not managed.
pub const MIN_SIZE: usize = PAGE_SIZE * 10;

/// The alignment of the allocator's header at the start of a region.
pub const PADDING: usize = 8;

pub open spec fn round_down(x: int, a: int) -> int {
    x - x % a
}

pub open spec fn round_up(x: int, a: int) -> int {
    round_down(x + a - 1, a)
}

/// The number of levels for `cnt` pages: `floor(log2(cnt)) + 1`, kept below
/// `MAX_HEIGHT`.
pub open spec fn height_for(h: nat, cnt: nat) -> bool {
    ||| h == MAX_HEIGHT - 1 && pow2((MAX_HEIGHT - 2) as nat) <= cnt
    ||| 1 <= h < MAX_HEIGHT - 1 && pow2((h - 1) as nat) <= cnt < pow2(h)
}

/// The first byte usable for the allocator's header in region `e`.
pub open spec fn region_begin(e: MemoryMapEntry) -> int {
    round_up(e.start as int, PADDING as int)
}

/// The end of the last whole page of region `e`.
pub open spec fn region_end(e: MemoryMapEntry) -> int {
    round_down(e.end as int, PAGE_SIZE as int)
}

/// How many pages region `e` manages: each takes a page and a node, after
/// room for the header.
pub open spec fn region_pages(e: MemoryMapEntry) -> int {
    (region_end(e) - region_begin(e) - size_of::<Single>()) / (PAGE_SIZE + size_of::<
        Node<Frame>,
    >()) as int
}

/// Region `e` is available, large enough, and leaves room for at least one page.
pub open spec fn region_fits(e: MemoryMapEntry) -> bool {
    &&& e.available
    &&& region_begin(e) + MIN_SIZE <= region_end(e)
    &&& size_of::<Single>() <= region_end(e) - region_begin(e)
    &&& PAGE_SIZE + size_of::<Node<Frame>>() <= usize::MAX
    &&& region_pages(e) >= 1
}

/// The allocator's header and one node each take at most a page: true of
/// every target this crate builds for, and checked by a test.
pub open spec fn layout_small() -> bool {
    size_of::<Single>() <= PAGE_SIZE && size_of::<Node<Frame>>() <= PAGE_SIZE
}

/// With a small layout, a region fits exactly when it is available and, once
/// rounded, at least `MIN_SIZE` long; it then holds at least three pages.
pub proof fn lemma_region_fits(e: MemoryMapEntry)
    requires
        layout_small(),
    ensures
        region_fits(e) <==> (e.available && region_begin(e) + MIN_SIZE <= region_end(e)),
        region_fits(e) ==> region_pages(e) >= 3,
{
    if e.available && region_begin(e) + MIN_SIZE <= region_end(e) {
        let x = region_end(e) - region_begin(e) - size_of::<Single>();
        let d = (PAGE_SIZE + size_of::<Node<Frame>>()) as int;
        vstd::arithmetic::div_mod::lemma_fundamental_div_mod(x, d);
        let q = x / d;
        assert(q >= 3) by (nonlinear_arith)
            requires
                x == d * q + x % d,
                0 <= x % d < d,
                4096 <= d <= 8192,
                x >= 9 * 4096,
        ;
    }
}

/// Σ over `l < n` of `2^l * counts[l]`: the pages held by blocks counted per level.
pub open spec fn weighted_sum(counts: Seq<int>, n: nat) -> int
    decreases n,
{
    if n == 0 {
        0
    } else {
        weighted_sum(counts, (n - 1) as nat) + pow2((n - 1) as nat) * counts[n - 1]
    }
}

proof fn lemma_weighted_update(counts: Seq<int>, n: nat, l: int, v: int)
    requires
        0 <= l < n <= counts.len(),
    ensures
        weighted_sum(counts.update(l, v), n) == weighted_sum(counts, n) + pow2(l as nat) * (v
            - counts[l]),
    decreases n,
{
    let c2 = counts.update(l, v);
    if l == n - 1 {
        lemma_weighted_same(counts, c2, (n - 1) as nat);
        assert(pow2(l as nat) * v == pow2(l as nat) * counts[l] + pow2(l as nat) * (v - counts[l]))
            by (nonlinear_arith);
    } else {
        lemma_weighted_update(counts, (n - 1) as nat, l, v);
    }
}

proof fn lemma_weighted_same(a: Seq<int>, b: Seq<int>, n: nat)
    requires
        n <= a.len(),
        n <= b.len(),
        forall|k: int| 0 <= k < n ==> a[k] == b[k],
    ensures
        weighted_sum(a, n) == weighted_sum(b, n),
    decreases n,
{
    if n > 0 {
        lemma_weighted_same(a, b, (n - 1) as nat);
    }
}

proof fn lemma_weighted_first(counts: Seq<int>, n: nat)
    requires
        1 <= n <= counts.len(),
        forall|k: int| 1 <= k < n ==> counts[k] == 0,
    ensures
        weighted_sum(counts, n) == counts[0],
    decreases n,
{
    if n > 1 {
        lemma_weighted_first(counts, (n - 1) as nat);
        assert(counts[n - 1] == 0);
        assert(pow2((n - 1) as nat) * counts[n - 1] == 0);
    } else {
        assert(weighted_sum(counts, 0) == 0);
        vstd::arithmetic::power2::lemma2_to64();
        assert(pow2(0) == 1);
        assert(weighted_sum(counts, 1) == weighted_sum(counts, 0) + pow2(0) * counts[0]);
    }
}

proof fn lemma_count_none(s: Seq<bool>, n: nat)
    requires
        n <= s.len(),
        forall|k: int| 0 <= k < n ==> !s[k],
    ensures
        count_true(s, n) == 0,
    decreases n,
{
    if n > 0 {
        lemma_count_none(s, (n - 1) as nat);
    }
}

proof fn lemma_weighted_zero(counts: Seq<int>, n: nat)
    requires
        n <= counts.len(),
        forall|k: int| 0 <= k < n ==> counts[k] >= 0,
    ensures
        weighted_sum(counts, n) >= 0,
        weighted_sum(counts, n) == 0 ==> forall|k: int| 0 <= k < n ==> counts[k] == 0,
    decreases n,
{
    if n > 0 {
        lemma_weighted_zero(counts, (n - 1) as nat);
        lemma_pow2_pos((n - 1) as nat);
        assert(pow2((n - 1) as nat) * counts[n - 1] >= 0) by (nonlinear_arith)
            requires
                pow2((n - 1) as nat) > 0,
                counts[n - 1] >= 0,
        ;
        if weighted_sum(counts, n) == 0 {
            assert(pow2((n - 1) as nat) * counts[n - 1] == 0);
            assert(counts[n - 1] == 0) by (nonlinear_arith)
                requires
                    pow2((n - 1) as nat) > 0,
                    pow2((n - 1) as nat) * counts[n - 1] == 0,
            ;
        }
    }
}

/// The number of `true` entries among the first `n` of `s`.
pub open spec fn count_true(s: Seq<bool>, n: nat) -> nat
    decreases n,
{
    if n == 0 {
        0
    } else {
        count_true(s, (n - 1) as nat) + if s[n - 1] {
            1nat
        } else {
            0nat
        }
    }
}

proof fn lemma_count_same(a: Seq<bool>, b: Seq<bool>, n: nat)
    requires
        n <= a.len(),
        n <= b.len(),
        forall|k: int| 0 <= k < n ==> a[k] == b[k],
    ensures
        count_true(a, n) == count_true(b, n),
    decreases n,
{
    if n > 0 {
        lemma_count_same(a, b, (n - 1) as nat);
    }
}

/// Entries `lo..hi` are true in `a` and false in `b`; the rest agree.
proof fn lemma_count_flip(a: Seq<bool>, b: Seq<bool>, n: nat, lo: int, hi: int)
    requires
        0 <= lo <= hi <= n <= a.len(),
        n <= b.len(),
        forall|k: int| 0 <= k < n && (k < lo || k >= hi) ==> a[k] == b[k],
        forall|k: int| lo <= k < hi ==> a[k] && !b[k],
    ensures
        count_true(a, n) == count_true(b, n) + (hi - lo),
    decreases n,
{
    if n > 0 {
        let m = (n - 1) as int;
        if m >= hi {
            lemma_count_flip(a, b, m as nat, lo, hi);
        } else if lo <= m {
            lemma_count_flip(a, b, m as nat, lo, m);
        } else {
            lemma_count_flip(a, b, m as nat, m, m);
        }
    }
}

/// A buddy allocator over `page_count()` pages starting at address `base()`.
///
/// Page `i` is described by `nodes[i]`. A block of `2^L` pages starting at
/// page `h` is represented by node `h` at level `L`; the other nodes of the
/// block are absorbed and never listed. Free blocks of level `L` are threaded
/// through `lists[L]`.
pub struct Single {
    lists: Vec<InplaceList<Frame>>,
    height: usize,
    nodes: Vec<Node<Frame>>,
    first_page: usize,
    /// For each page, the node heading the block that holds it.
    owner: Ghost<Seq<int>>,
}

impl Single {
    pub closed spec fn page_count(&self) -> nat {
        self.nodes@.len()
    }

    pub closed spec fn spec_height(&self) -> nat {
        self.height as nat
    }

    pub closed spec fn base(&self) -> int {
        self.first_page as int
    }

    pub closed spec fn frame(&self, i: int) -> Frame {
        self.nodes@[i].object
    }

    /// The free blocks of level `l`, most recently inserted first.
    pub closed spec fn free_list(&self, l: int) -> Seq<usize> {
        self.lists@[l]@
    }

    /// For each page, whether it lies in a block that was handed out.
    pub closed spec fn in_use(&self) -> Seq<bool> {
        Seq::new(self.nodes@.len(), |p: int| !self.nodes@[self.owner@[p]].object.free)
    }

    /// The pages handed out and not yet returned.
    pub open spec fn used_pages(&self) -> nat {
        count_true(self.in_use(), self.page_count())
    }

    /// Node `i` heads a block that was handed out and not yet returned.
    pub closed spec fn is_allocated(&self, i: int) -> bool {
        0 <= i < self.nodes@.len() && self.owner@[i] == i && !self.nodes@[i].object.free
    }

    /// The level (log2 of the size in pages) of the block headed by node `i`.
    pub open spec fn block_level(&self, i: int) -> nat {
        self.frame(i).level as nat
    }

    /// Free blocks per level.
    pub open spec fn free_counts(&self) -> Seq<int> {
        Seq::new(self.spec_height(), |l: int| self.free_list(l).len() as int)
    }

    /// The number of pages held by free blocks.
    pub open spec fn free_pages(&self) -> int {
        weighted_sum(self.free_counts(), self.spec_height())
    }

    /// The address of the first page of block `i`.
    pub open spec fn address_of(&self, i: int) -> int {
        self.base() + i * PAGE_SIZE
    }

    /// Every list is linked over the node array and holds nodes of its own level.
    closed spec fn lists_ok(&self) -> bool {
        &&& self.lists@.len() == self.height
        &&& forall|m: int| 0 <= m < self.height ==> (#[trigger] self.lists@[m]).wf(self.nodes@)
        &&& forall|m: int, k: int|
            0 <= m < self.height && 0 <= k < self.lists@[m]@.len() ==> (#[trigger] self.nodes@[self.lists@[m]@[k] as int]).object.level == m
    }

    /// The allocator's invariant.
    pub closed spec fn wf(&self) -> bool {
        let cnt = self.nodes@.len();
        &&& 1 <= self.height < MAX_HEIGHT
        &&& self.lists_ok()
        &&& self.first_page + cnt * PAGE_SIZE <= usize::MAX
        &&& self.owner@.len() == cnt
        &&& forall|i: int|
            0 <= i < cnt ==> (#[trigger] self.nodes@[i]).object.num == i && self.nodes@[i].object.level
                < self.height
        &&& forall|m: int, k: int|
            0 <= m < self.height && 0 <= k < self.lists@[m]@.len() ==> (#[trigger] self.nodes@[self.lists@[m]@[k] as int]).object.free
        &&& forall|i: int|
            0 <= i < cnt && (#[trigger] self.nodes@[i]).object.free ==> self.lists@[self.nodes@[i].object.level as int]@.contains(i as usize)
                && self.owner@[i] == i
        &&& forall|h: int|
            0 <= h < cnt && #[trigger] self.owner@[h] == h ==> aligned(h, self.nodes@[h].object.level as nat)
                && h + pow2(self.nodes@[h].object.level as nat) <= cnt
        &&& forall|h: int, p: int|
            #![trigger self.owner@[h], self.owner@[p]]
            0 <= h < cnt && self.owner@[h] == h && h <= p < h + pow2(self.nodes@[h].object.level as nat)
                ==> self.owner@[p] == h
        &&& forall|p: int|
            0 <= p < cnt ==> 0 <= #[trigger] self.owner@[p] <= p && self.owner@[self.owner@[p]] == self.owner@[p]
                && p < self.owner@[p] + pow2(self.nodes@[self.owner@[p]].object.level as nat)
        &&& self.free_pages() + self.used_pages() == cnt
    }

    /// The node heading the block that holds page `p`.
    pub closed spec fn head_of(&self, p: int) -> int {
        self.owner@[p]
    }

    /// The free block headed by `node` has a free buddy of its own level, and
    /// the level above exists: the two can merge.
    pub open spec fn mergeable(&self, node: int) -> bool {
        let l = self.block_level(node);
        let b = buddy_index(node, l);
        &&& 0 <= b < self.page_count()
        &&& self.frame(b).free
        &&& self.block_level(b) == l
        &&& l + 1 < self.spec_height()
    }

    /// Coalescing is maximal, except possibly for the pair that `x` belongs to.
    pub open spec fn coalesced_except(&self, x: int) -> bool {
        forall|h: int|
            0 <= h < self.page_count() && #[trigger] self.frame(h).free && h != x && buddy_index(
                h,
                self.block_level(h),
            ) != x ==> !self.mergeable(h)
    }

    /// No free block can merge with its buddy: coalescing is maximal.
    pub open spec fn coalesced(&self) -> bool {
        forall|i: int| 0 <= i < self.page_count() && #[trigger] self.frame(i).free ==> !self.mergeable(i)
    }

    /// Every mergeable free block has level `lvl` or more.
    closed spec fn settled(&self, lvl: int) -> bool {
        forall|h: int|
            0 <= h < self.page_count() && #[trigger] self.frame(h).free && self.mergeable(h)
                ==> self.block_level(h) >= lvl
    }

    /// Every mergeable pair at level `lvl` lies at or after page `from`.
    closed spec fn swept(&self, lvl: int, from: int) -> bool {
        forall|h: int|
            0 <= h < self.page_count() && #[trigger] self.frame(h).free && self.mergeable(h)
                && self.block_level(h) == lvl ==> h >= from && buddy_index(h, lvl as nat) >= from
    }

    /// What one visit of the sweep at node `i` does: nothing, unless `i` is a
    /// free block that can merge, in which case the merged block is the only
    /// change.
    spec fn visited(s0: Single, s1: Single, i: int) -> bool {
        &&& !s0.frame(i).free ==> s1 == s0
        &&& s0.frame(i).free && !s0.mergeable(i) ==> s1 == s0
        &&& s0.frame(i).free && s0.mergeable(i) ==> {
            let l = s0.block_level(i);
            let b = buddy_index(i, l);
            let m = if b < i { b } else { i };
            &&& forall|j: int| 0 <= j < s0.page_count() && m <= j < m + pow2(l + 1) ==> #[trigger] s1.head_of(j) == m
            &&& forall|j: int|
                0 <= j < s0.page_count() && !(m <= j < m + pow2(l + 1))
                    ==> #[trigger] s1.frame(j) == s0.frame(j) && s1.head_of(j) == s0.head_of(j)
            &&& s1.block_level(m) == l + 1
        }
    }

    /// One visit of the coalescing sweep at position `i` settles the pairs
    /// at level `lvl` that start before `i + step`.
    #[verifier::spinoff_prover]
    proof fn lemma_sweep_step(s0: Single, s1: Single, lvl: nat, i: int, step: int)
        requires
            s0.wf(),
            s1.wf(),
            s0.page_count() == s1.page_count(),
            s0.spec_height() == s1.spec_height(),
            lvl < s0.spec_height(),
            step == pow2(lvl + 1),
            0 <= i < s0.page_count(),
            i % step == 0,
            s0.settled(lvl as int),
            s0.swept(lvl as int, i),
            Single::visited(s0, s1, i),
        ensures
            s1.settled(lvl as int),
            s1.swept(lvl as int, if s0.page_count() - i > step { i + step } else { s0.page_count() as int }),
    {
        let cnt = s0.page_count() as int;
        let next = if cnt - i > step { i + step } else { cnt };
        lemma_pow2_unfold(lvl + 1);
        lemma_pow2_pos(lvl);
        assert forall|h: int|
            0 <= h < cnt && #[trigger] s1.frame(h).free && s1.mergeable(h) implies s1.block_level(h) >= lvl
            && (s1.block_level(h) == lvl ==> h >= next && buddy_index(h, lvl) >= next) by {
            let k = s1.block_level(h);
            let b = buddy_index(h, k);
            s1.lemma_node_facts(h, 0);
            s1.lemma_node_facts(b, 0);
            lemma_buddy_aligned(h, k);
            if s0.frame(i).free && s0.mergeable(i) {
                let l = s0.block_level(i);
                let bi = buddy_index(i, l);
                let m = if bi < i { bi } else { i };
                assert(l >= lvl);
                if m <= h < m + pow2(l + 1) {
                    // the only free page of the merged block is its head
                    assert(s1.head_of(h) == m);
                    assert(k == l + 1);
                } else if m <= b < m + pow2(l + 1) {
                    assert(s1.head_of(b) == m);
                    assert(k == l + 1);
                } else {
                assert(s1.frame(h) == s0.frame(h));
                assert(s1.frame(b) == s0.frame(b));
                assert(s0.mergeable(h));
                if k == lvl {
                    let lo = if b < h { b } else { h };
                    if lo < next {
                        Single::lemma_pair_start(h, lvl, i, step);
                        assert(lo == i);
                        s0.lemma_node_facts(i, 0);
                        lemma_split_aligned(i, lvl + 1);
                        assert(l == lvl);
                    }
                }
                }
            } else {
                assert(s1 == s0);
                if k == lvl {
                    let lo = if b < h { b } else { h };
                    if lo < next {
                        Single::lemma_pair_start(h, lvl, i, step);
                        assert(lo == i);
                        if h != i {
                            s0.lemma_mergeable_mutual(h);
                        }
                    }
                }
            }
        }
    }

    /// The two blocks of a pair at level `l` start at `lo` and `lo + 2^l`,
    /// with `lo` aligned to `2^(l+1)`; when `lo` lies in `[i, i + 2^(l+1))`
    /// for an aligned `i`, it is `i`.
    proof fn lemma_pair_start(h: int, l: nat, i: int, step: int)
        requires
            h >= 0,
            aligned(h, l),
            step == pow2(l + 1),
            i >= 0,
            i % step == 0,
            h >= i,
            buddy_index(h, l) >= i,
            (if buddy_index(h, l) < h { buddy_index(h, l) } else { h }) < i + step,
        ensures
            (if buddy_index(h, l) < h { buddy_index(h, l) } else { h }) == i,
    {
        lemma_buddy_aligned(h, l);
        lemma_pow2_pos(l + 1);
        let lo = if buddy_index(h, l) < h { buddy_index(h, l) } else { h };
        assert(lo % step == 0);
        vstd::arithmetic::div_mod::lemma_fundamental_div_mod(lo, step);
        vstd::arithmetic::div_mod::lemma_fundamental_div_mod(i, step);
        let a = lo / step;
        let c = i / step;
        assert(a == c) by (nonlinear_arith)
            requires
                lo == step * a,
                i == step * c,
                i <= lo < i + step,
                step > 0,
        ;
    }

    /// Mergeability is mutual: a mergeable block's buddy can merge back with it.
    proof fn lemma_mergeable_mutual(&self, h: int)
        requires
            self.wf(),
            0 <= h < self.page_count(),
            self.frame(h).free,
            self.mergeable(h),
        ensures
            self.mergeable(buddy_index(h, self.block_level(h))),
            buddy_index(buddy_index(h, self.block_level(h)), self.block_level(h)) == h,
    {
        assert(self.nodes@[h].object.free);
        assert(self.owner@[h] == h);
        lemma_buddy_aligned(h, self.block_level(h));
    }

    /// `self` and `other` have the same outstanding blocks, of the same levels.
    pub open spec fn same_allocations(&self, other: &Single) -> bool {
        forall|i: int|
            #![trigger self.is_allocated(i)]
            #![trigger other.is_allocated(i)]
            self.is_allocated(i) == other.is_allocated(i) && (self.is_allocated(i)
                ==> self.block_level(i) == other.block_level(i))
    }

    /// Inserts node `i` at the head of list `l`, keeping the other lists.
    fn list_insert(&mut self, l: usize, i: usize)
        requires
            old(self).lists_ok(),
            l < old(self).height,
            i < old(self).nodes@.len(),
            old(self).nodes@[i as int].object.level == l,
            !old(self).lists@[l as int]@.contains(i),
        ensures
            final(self).lists_ok(),
            final(self).lists@[l as int]@ == seq![i] + old(self).lists@[l as int]@,
            forall|m: int| 0 <= m < old(self).height && m != l ==> #[trigger] final(self).lists@[m]@ == old(self).lists@[m]@,
            final(self).nodes@.len() == old(self).nodes@.len(),
            forall|j: int| 0 <= j < old(self).nodes@.len() ==> (#[trigger] final(self).nodes@[j]).object == old(self).nodes@[j].object,
            final(self).height == old(self).height,
            final(self).first_page == old(self).first_page,
            final(self).owner == old(self).owner,
    {
        let ghost old_nodes = self.nodes@;
        let mut lst = self.lists[l];
        lst.insert(&mut self.nodes, i);
        self.lists.set(l, lst);
        proof {
            assert forall|m: int| 0 <= m < self.height && m != l implies (#[trigger] self.lists@[m]).wf(self.nodes@) by {
                let o = old(self).lists@[m];
                assert forall|j: int| 0 <= j < old_nodes.len() && o@.contains(j as usize) implies (#[trigger] self.nodes@[j]).next == old_nodes[j].next
                    && self.nodes@[j].prev == old_nodes[j].prev by {
                    let k = choose|k: int| 0 <= k < o@.len() && o@[k] == j as usize;
                    assert(old_nodes[o@[k] as int].object.level == m);
                    if old(self).lists@[l as int]@.contains(j as usize) {
                        let k2 = choose|k2: int| 0 <= k2 < old(self).lists@[l as int]@.len() && old(self).lists@[l as int]@[k2] == j as usize;
                        assert(old_nodes[old(self).lists@[l as int]@[k2] as int].object.level == l);
                    }
                }
                o.lemma_frame(old_nodes, self.nodes@);
            }
            assert forall|m: int, k: int|
                0 <= m < self.height && 0 <= k < self.lists@[m]@.len() implies (#[trigger] self.nodes@[self.lists@[m]@[k] as int]).object.level == m by {
                if m == l && k > 0 {
                    assert(self.lists@[m]@[k] == old(self).lists@[m]@[k - 1]);
                }
            }
        }
    }

    /// Removes node `i` from list `l`, keeping the other lists.
    fn list_remove(&mut self, l: usize, i: usize)
        requires
            old(self).lists_ok(),
            l < old(self).height,
            old(self).lists@[l as int]@.contains(i),
        ensures
            final(self).lists_ok(),
            final(self).lists@[l as int]@ == old(self).lists@[l as int]@.remove(old(self).lists@[l as int]@.index_of(i)),
            final(self).lists@[l as int]@.len() == old(self).lists@[l as int]@.len() - 1,
            forall|j: usize| #[trigger] final(self).lists@[l as int]@.contains(j) <==> (old(self).lists@[l as int]@.contains(j) && j != i),
            forall|m: int| 0 <= m < old(self).height && m != l ==> #[trigger] final(self).lists@[m]@ == old(self).lists@[m]@,
            final(self).nodes@.len() == old(self).nodes@.len(),
            forall|j: int| 0 <= j < old(self).nodes@.len() ==> (#[trigger] final(self).nodes@[j]).object == old(self).nodes@[j].object,
            final(self).height == old(self).height,
            final(self).first_page == old(self).first_page,
            final(self).owner == old(self).owner,
    {
        let ghost old_nodes = self.nodes@;
        let mut lst = self.lists[l];
        lst.remove(&mut self.nodes, i);
        self.lists.set(l, lst);
        proof {
            assert forall|m: int| 0 <= m < self.height && m != l implies (#[trigger] self.lists@[m]).wf(self.nodes@) by {
                let o = old(self).lists@[m];
                assert forall|j: int| 0 <= j < old_nodes.len() && o@.contains(j as usize) implies (#[trigger] self.nodes@[j]).next == old_nodes[j].next
                    && self.nodes@[j].prev == old_nodes[j].prev by {
                    let k = choose|k: int| 0 <= k < o@.len() && o@[k] == j as usize;
                    assert(old_nodes[o@[k] as int].object.level == m);
                    if old(self).lists@[l as int]@.contains(j as usize) {
                        let k2 = choose|k2: int| 0 <= k2 < old(self).lists@[l as int]@.len() && old(self).lists@[l as int]@[k2] == j as usize;
                        assert(old_nodes[old(self).lists@[l as int]@[k2] as int].object.level == l);
                    }
                }
                o.lemma_frame(old_nodes, self.nodes@);
            }
            assert forall|m: int, k: int|
                0 <= m < self.height && 0 <= k < self.lists@[m]@.len() implies (#[trigger] self.nodes@[self.lists@[m]@[k] as int]).object.level == m by {
                if m == l {
                    assert(self.lists@[m]@.contains(self.lists@[m]@[k]));
                    let k2 = choose|k2: int| 0 <= k2 < old(self).lists@[m]@.len() && old(self).lists@[m]@[k2] == self.lists@[m]@[k];
                }
            }
        }
    }

    /// Merges the free block headed by `node` with its buddy, if the buddy is
    /// a free block of the same level and the merged level exists. Returns the
    /// node heading the merged block.
    #[verifier::spinoff_prover]
    #[verifier::rlimit(60)]
    fn go_up_once(&mut self, node: usize) -> (r: Option<usize>)
        requires
            old(self).wf(),
            node < old(self).page_count(),
            old(self).frame(node as int).free,
        ensures
            final(self).wf(),
            final(self).page_count() == old(self).page_count(),
            final(self).spec_height() == old(self).spec_height(),
            final(self).base() == old(self).base(),
            final(self).used_pages() == old(self).used_pages(),
            final(self).same_allocations(old(self)),
            r is None <==> !old(self).mergeable(node as int),
            ({
                let l = old(self).block_level(node as int);
                let b = buddy_index(node as int, l);
                match r {
                    None => *final(self) == *old(self),
                    Some(m) => {
                        &&& m as int == if b < node { b } else { node as int }
                        &&& final(self).block_level(m as int) == l + 1
                        &&& final(self).frame(m as int).free
                        &&& !final(self).frame(if b < node { node as int } else { b }).free
                        &&& m < final(self).page_count()
                        &&& final(self).free_list(l as int).len() == old(self).free_list(l as int).len() - 2
                        &&& forall|j: usize|
                            #[trigger] final(self).free_list(l as int).contains(j) <==> (old(self).free_list(
                                l as int,
                            ).contains(j) && j != node && j != b)
                        &&& final(self).free_list(l + 1int) == seq![m] + old(self).free_list(l + 1int)
                        &&& forall|k: int|
                            0 <= k < old(self).spec_height() && k != l && k != l + 1
                                ==> #[trigger] final(self).free_list(k) == old(self).free_list(k)
                        &&& forall|j: int|
                            0 <= j < old(self).page_count() && m <= j < m + pow2(l + 1)
                                ==> #[trigger] final(self).head_of(j) == m
                        &&& forall|j: int|
                            0 <= j < old(self).page_count() && j != node && j != b
                                ==> #[trigger] final(self).frame(j) == old(self).frame(j)
                        &&& forall|j: int|
                            0 <= j < old(self).page_count() && !(m <= j < m + pow2(l + 1))
                                ==> #[trigger] final(self).frame(j) == old(self).frame(j)
                                && final(self).head_of(j) == old(self).head_of(j)
                    },
                }
            }),
    {
        let level = self.nodes[node].object.level();
        let buddy = self.nodes[node].object.get_buddy();
        if buddy >= self.nodes.len() || !self.nodes[node].object.ready(&self.nodes[buddy].object) {
            return None;
        }
        if level + 1 >= self.height {
            return None;
        }
        let ghost old_self = *self;
        let ghost cnt = self.nodes@.len() as int;
        let ghost half = pow2(level as nat) as int;
        proof {
            lemma_pow2_pos(level as nat);
            lemma_pow2_unfold((level + 1) as nat);
            lemma_buddy_aligned(node as int, level as nat);
            assert(old(self).mergeable(node as int));
            assert(self.nodes@[node as int].object.free);
            assert(self.nodes@[buddy as int].object.free);
        }
        let major = if node < buddy { node } else { buddy };
        let minor = if node < buddy { buddy } else { node };
        proof {
            assert(minor == major + half);
            assert(aligned(major as int, (level + 1) as nat));
            assert(self.owner@[major as int] == major);
            assert(self.owner@[minor as int] == minor);
            assert(minor + half <= cnt);
        }
        self.list_remove(level, major);
        self.list_remove(level, minor);
        let ghost n1 = self.nodes@;
        self.nodes[minor].object.set_occupied();
        self.nodes[major].object.set_level(level + 1);
        proof {
            assert forall|m: int| 0 <= m < self.height implies (#[trigger] self.lists@[m]).wf(self.nodes@) by {
                self.lists@[m].lemma_frame(n1, self.nodes@);
            }
            assert forall|m: int, k: int|
                0 <= m < self.height && 0 <= k < self.lists@[m]@.len() implies (#[trigger] self.nodes@[self.lists@[m]@[k] as int]).object.level == m by {
                let j = self.lists@[m]@[k];
                assert(n1[j as int].object.level == m);
                if m == level {
                    assert(self.lists@[m]@.contains(j));
                }
            }
            let up = self.lists@[level + 1]@;
            assert(!up.contains(major)) by {
                if up.contains(major) {
                    let k = choose|k: int| 0 <= k < up.len() && up[k] == major;
                    assert(n1[up[k] as int].object.level == level + 1);
                }
            }
        }
        self.list_insert(level + 1, major);
        let ghost new_owner = Seq::new(
            cnt as nat,
            |p: int|
                if major <= p < major + 2 * half {
                    major as int
                } else {
                    old_self.owner@[p]
                },
        );
        self.owner = Ghost(new_owner);
        proof {
            let o = old_self;
            // pages of the merged block belonged to one of its halves
            assert forall|p: int| major <= p < major + 2 * half implies #[trigger] o.owner@[p]
                == major || o.owner@[p] == minor by {
                if p < minor {
                    assert(o.owner@[major as int] == major);
                } else {
                    assert(o.owner@[minor as int] == minor);
                }
            }
            assert forall|i: int| 0 <= i < cnt implies (#[trigger] self.nodes@[i]).object.num == i
                && self.nodes@[i].object.level < self.height by {
                assert(o.nodes@[i].object.num == i);
            }
            assert forall|m: int, k: int|
                0 <= m < self.height && 0 <= k < self.lists@[m]@.len() implies (#[trigger] self.nodes@[self.lists@[m]@[k] as int]).object.free by {
                let j = self.lists@[m]@[k];
                if m == level + 1 && k == 0 {
                } else {
                    if m == level + 1 {
                        assert(j == o.lists@[m]@[k - 1]);
                        assert(o.nodes@[j as int].object.level == m);
                    } else if m == level {
                        assert(self.lists@[m]@.contains(j));
                        assert(o.lists@[m]@.contains(j));
                        let k2 = choose|k2: int| 0 <= k2 < o.lists@[m]@.len() && o.lists@[m]@[k2] == j;
                        assert(o.nodes@[o.lists@[m]@[k2] as int].object.free);
                    } else {
                        assert(o.lists@[m]@[k] == j);
                        assert(o.nodes@[o.lists@[m]@[k] as int].object.level == m);
                    }
                }
            }
            assert forall|i: int|
                0 <= i < cnt && (#[trigger] self.nodes@[i]).object.free implies self.lists@[self.nodes@[i].object.level as int]@.contains(i as usize)
                    && self.owner@[i] == i by {
                if i == major {
                    assert(self.lists@[level + 1]@[0] == major);
                } else {
                    assert(o.nodes@[i].object.free);
                    assert(o.owner@[i] == i);
                    if major <= i < major + 2 * half {
                        assert(o.owner@[i] == major || o.owner@[i] == minor);
                    }
                    let li = o.nodes@[i].object.level as int;
                    if li == level {
                        assert(self.lists@[li]@.contains(i as usize));
                    } else if li == level + 1 {
                        let k = choose|k: int| 0 <= k < o.lists@[li]@.len() && o.lists@[li]@[k] == i as usize;
                        assert(self.lists@[li]@[k + 1] == i as usize);
                    } else {
                        assert(self.lists@[li]@ == o.lists@[li]@);
                    }
                }
            }
            assert forall|h: int| 0 <= h < cnt && #[trigger] self.owner@[h] == h implies aligned(h, self.nodes@[h].object.level as nat)
                && h + pow2(self.nodes@[h].object.level as nat) <= cnt by {
                if major <= h < major + 2 * half {
                    assert(h == major);
                } else {
                    assert(o.owner@[h] == h);
                }
            }
            assert forall|h: int, p: int|
                #![trigger self.owner@[h], self.owner@[p]]
                0 <= h < cnt && self.owner@[h] == h && h <= p < h + pow2(self.nodes@[h].object.level as nat)
                    implies self.owner@[p] == h by {
                if major <= h < major + 2 * half {
                    assert(h == major);
                } else {
                    assert(o.owner@[h] == h);
                    assert(o.owner@[p] == h);
                    if major <= p < major + 2 * half {
                        assert(o.owner@[p] == major || o.owner@[p] == minor);
                        assert(o.owner@[major as int] == major);
                        assert(o.owner@[minor as int] == minor);
                    }
                }
            }
            // two blocks of `level` became one of `level + 1`
            let c0 = o.free_counts();
            let c1 = c0.update(level as int, c0[level as int] - 2);
            let c2 = c1.update(level + 1, c0[level + 1] + 1);
            lemma_weighted_update(c0, o.height as nat, level as int, c0[level as int] - 2);
            lemma_weighted_update(c1, o.height as nat, level + 1, c0[level + 1] + 1);
            assert(pow2((level + 1) as nat) == 2 * half);
            assert(c1[level + 1] == c0[level + 1]);
            assert(pow2(level as nat) * ((c0[level as int] - 2) - c0[level as int]) == -2 * half) by (nonlinear_arith)
                requires half == pow2(level as nat);
            assert(pow2((level + 1) as nat) * ((c0[level + 1] + 1) - c1[level + 1]) == 2 * half) by (nonlinear_arith)
                requires pow2((level + 1) as nat) == 2 * half, c1[level + 1] == c0[level + 1];
            assert(self.lists@[level as int]@.len() == o.lists@[level as int]@.len() - 2);
            assert(self.lists@[level + 1]@.len() == o.lists@[level + 1]@.len() + 1);
            assert(c2 =~= self.free_counts());
            assert(weighted_sum(c2, o.height as nat) == weighted_sum(c0, o.height as nat));
            assert(o.free_pages() == weighted_sum(c0, o.height as nat));
            assert forall|i: int| #[trigger] self.is_allocated(i) == o.is_allocated(i) && (self.is_allocated(i)
                ==> self.block_level(i) == o.block_level(i)) by {
                if 0 <= i < cnt && major <= i < major + 2 * half {
                    assert(o.owner@[i] == major || o.owner@[i] == minor);
                }
            }
            assert forall|p: int| 0 <= p < cnt implies 0 <= #[trigger] self.owner@[p] <= p
                && self.owner@[self.owner@[p]] == self.owner@[p] && p < self.owner@[p] + pow2(
                self.nodes@[self.owner@[p]].object.level as nat) by {
                if !(major <= p < major + 2 * half) {
                    let h = o.owner@[p];
                    assert(o.owner@[h] == h);
                    if major <= h < major + 2 * half {
                        assert(o.owner@[h] == major || o.owner@[h] == minor);
                    }
                }
            }
            assert(self.in_use() =~= o.in_use()) by {
                assert forall|p: int| 0 <= p < cnt implies self.in_use()[p] == o.in_use()[p] by {
                    if major <= p < major + 2 * half {
                        assert(o.owner@[p] == major || o.owner@[p] == minor);
                    } else {
                        let h = o.owner@[p];
                        assert(o.owner@[h] == h);
                        if major <= h < major + 2 * half {
                            assert(o.owner@[h] == major || o.owner@[h] == minor);
                        }
                    }
                }
            }
            assert(self.lists_ok());
            assert(self.free_pages() + self.used_pages() == cnt);
        }
        Some(major)
    }
    /// Splits the allocated block headed by `node` in two: `node` keeps the
    /// lower half, and the upper half becomes a free block of the level below.
    #[verifier::spinoff_prover]
    #[verifier::rlimit(60)]
    fn split_held(&mut self, node: usize)
        requires
            old(self).wf(),
            old(self).is_allocated(node as int),
            old(self).block_level(node as int) > 0,
        ensures
            old(self).coalesced() ==> final(self).coalesced(),
            final(self).wf(),
            final(self).page_count() == old(self).page_count(),
            final(self).spec_height() == old(self).spec_height(),
            final(self).base() == old(self).base(),
            ({
                let l = (old(self).block_level(node as int) - 1) as nat;
                &&& final(self).used_pages() == old(self).used_pages() - pow2(l)
                &&& final(self).is_allocated(node as int)
                &&& final(self).block_level(node as int) == l
                &&& final(self).free_list(l as int) == seq![(node + pow2(l)) as usize] + old(self).free_list(l as int)
                &&& forall|m: int| 0 <= m < old(self).spec_height() && m != l ==> #[trigger] final(self).free_list(m) == old(self).free_list(m)
                &&& node + pow2(l) < old(self).page_count()
                &&& buddy_index(node as int, l) == node + pow2(l)
                &&& final(self).frame(node + pow2(l)).free
                &&& final(self).block_level(node + pow2(l)) == l
                &&& forall|j: int|
                    0 <= j < old(self).page_count() && j != node && j != node + pow2(l)
                        ==> #[trigger] final(self).frame(j) == old(self).frame(j)
            }),
            forall|i: int|
                #![trigger final(self).is_allocated(i)]
                #![trigger old(self).is_allocated(i)]
                i != node ==> final(self).is_allocated(i) == old(self).is_allocated(i) && (old(self).is_allocated(i)
                    ==> final(self).block_level(i) == old(self).block_level(i)),
    {
        let level = self.nodes[node].object.level();
        let buddy = self.nodes[node].object.buddy_on_level(level - 1);
        let ghost old_self = *self;
        let ghost cnt = self.nodes@.len() as int;
        let ghost lo = (level - 1) as int;
        let ghost half = pow2(lo as nat) as int;
        proof {
            lemma_pow2_pos(lo as nat);
            lemma_split_aligned(node as int, level as nat);
            lemma_buddy_aligned(node as int, lo as nat);
            assert(buddy == node + half);
            assert(self.owner@[node as int] == node);
            assert(self.owner@[buddy as int] == node);
            assert(!self.nodes@[buddy as int].object.free);
        }
        let ghost n0 = self.nodes@;
        self.nodes[buddy].object.set_free();
        self.nodes[buddy].object.set_level(level - 1);
        self.nodes[node].object.set_level(level - 1);
        proof {
            assert forall|m: int| 0 <= m < self.height implies (#[trigger] self.lists@[m]).wf(self.nodes@) by {
                self.lists@[m].lemma_frame(n0, self.nodes@);
            }
            assert forall|m: int, k: int|
                0 <= m < self.height && 0 <= k < self.lists@[m]@.len() implies (#[trigger] self.nodes@[self.lists@[m]@[k] as int]).object.level == m by {
                let j = self.lists@[m]@[k];
                assert(n0[j as int].object.level == m);
                assert(n0[j as int].object.free);
            }
            let dn = self.lists@[lo]@;
            assert(!dn.contains(buddy)) by {
                if dn.contains(buddy) {
                    let k = choose|k: int| 0 <= k < dn.len() && dn[k] == buddy;
                    assert(n0[dn[k] as int].object.free);
                }
            }
        }
        self.list_insert(level - 1, buddy);
        let ghost new_owner = Seq::new(
            cnt as nat,
            |p: int|
                if buddy <= p < buddy + half {
                    buddy as int
                } else {
                    old_self.owner@[p]
                },
        );
        self.owner = Ghost(new_owner);
        proof {
            let o = old_self;
            assert forall|p: int| node <= p < node + 2 * half implies #[trigger] o.owner@[p] == node by {
                assert(o.owner@[node as int] == node);
            }
            assert forall|i: int| 0 <= i < cnt implies (#[trigger] self.nodes@[i]).object.num == i
                && self.nodes@[i].object.level < self.height by {
                assert(o.nodes@[i].object.num == i);
            }
            assert forall|m: int, k: int|
                0 <= m < self.height && 0 <= k < self.lists@[m]@.len() implies (#[trigger] self.nodes@[self.lists@[m]@[k] as int]).object.free by {
                let j = self.lists@[m]@[k];
                if m == lo && k == 0 {
                } else if m == lo {
                    assert(j == o.lists@[m]@[k - 1]);
                    assert(o.nodes@[o.lists@[m]@[k - 1] as int].object.free);
                } else {
                    assert(o.lists@[m]@[k] == j);
                    assert(o.nodes@[o.lists@[m]@[k] as int].object.free);
                }
            }
            assert forall|i: int|
                0 <= i < cnt && (#[trigger] self.nodes@[i]).object.free implies self.lists@[self.nodes@[i].object.level as int]@.contains(i as usize)
                    && self.owner@[i] == i by {
                if i == buddy {
                    assert(self.lists@[lo]@[0] == buddy);
                } else {
                    assert(o.nodes@[i].object.free);
                    assert(o.owner@[i] == i);
                    let li = o.nodes@[i].object.level as int;
                    if li == lo {
                        let k = choose|k: int| 0 <= k < o.lists@[li]@.len() && o.lists@[li]@[k] == i as usize;
                        assert(self.lists@[li]@[k + 1] == i as usize);
                    } else {
                        assert(self.lists@[li]@ == o.lists@[li]@);
                    }
                }
            }
            assert forall|h: int| 0 <= h < cnt && #[trigger] self.owner@[h] == h implies aligned(h, self.nodes@[h].object.level as nat)
                && h + pow2(self.nodes@[h].object.level as nat) <= cnt by {
                if buddy <= h < buddy + half {
                    assert(h == buddy);
                } else {
                    assert(o.owner@[h] == h);
                }
            }
            assert forall|h: int, p: int|
                #![trigger self.owner@[h], self.owner@[p]]
                0 <= h < cnt && self.owner@[h] == h && h <= p < h + pow2(self.nodes@[h].object.level as nat)
                    implies self.owner@[p] == h by {
                if buddy <= h < buddy + half {
                    assert(h == buddy);
                } else {
                    assert(o.owner@[h] == h);
                    assert(o.owner@[p] == h);
                    if buddy <= p < buddy + half {
                        assert(o.owner@[p] == node);
                    }
                }
            }
            let c0 = o.free_counts();
            let c1 = c0.update(lo, c0[lo] + 1);
            lemma_weighted_update(c0, o.height as nat, lo, c0[lo] + 1);
            assert(pow2(lo as nat) * ((c0[lo] + 1) - c0[lo]) == half) by (nonlinear_arith)
                requires half == pow2(lo as nat);
            assert(c1 =~= self.free_counts());
            assert forall|p: int| 0 <= p < cnt implies 0 <= #[trigger] self.owner@[p] <= p
                && self.owner@[self.owner@[p]] == self.owner@[p] && p < self.owner@[p] + pow2(
                self.nodes@[self.owner@[p]].object.level as nat) by {
                if !(buddy <= p < buddy + half) {
                    let h = o.owner@[p];
                    assert(o.owner@[h] == h);
                    if buddy <= h < buddy + half {
                        assert(o.owner@[h] == node);
                    }
                }
            }
            assert forall|p: int| 0 <= p < cnt && (p < buddy || p >= buddy + half) implies self.in_use()[p]
                == o.in_use()[p] by {
                let h = o.owner@[p];
                assert(o.owner@[h] == h);
                if buddy <= h < buddy + half {
                    assert(o.owner@[h] == node);
                }
            }
            assert forall|p: int| buddy <= p < buddy + half implies o.in_use()[p] && !self.in_use()[p] by {
                assert(o.owner@[p] == node);
            }
            lemma_count_flip(o.in_use(), self.in_use(), cnt as nat, buddy as int, buddy + half);
            assert forall|i: int|
                #![trigger self.is_allocated(i)]
                #![trigger o.is_allocated(i)]
                i != node implies self.is_allocated(i) == o.is_allocated(i) && (o.is_allocated(i)
                    ==> self.block_level(i) == o.block_level(i)) by {
                if 0 <= i < cnt && buddy <= i < buddy + half {
                    assert(o.owner@[i] == node);
                }
            }
            assert(self.lists_ok());
            if o.coalesced() {
                assert forall|h: int| 0 <= h < self.page_count() && #[trigger] self.frame(h).free
                    implies !self.mergeable(h) by {
                    let bb = buddy_index(h, self.block_level(h));
                    if h != buddy {
                        assert(self.frame(h) == o.frame(h));
                        if 0 <= bb < self.page_count() && bb != buddy && bb != node {
                            assert(self.frame(bb) == o.frame(bb));
                        }
                        if bb == buddy && self.block_level(h) == lo {
                            assert(self.owner@[h] == h);
                            lemma_buddy_aligned(h, lo as nat);
                        }
                    }
                }
            }
            assert(self.free_pages() + self.used_pages() == cnt);
        }
    }
    /// Hands out the free block at the head of list `lvl`.
    #[verifier::spinoff_prover]
    fn take_block(&mut self, lvl: usize, num: usize)
        requires
            old(self).wf(),
            lvl < old(self).spec_height(),
            old(self).free_list(lvl as int).contains(num),
        ensures
            old(self).coalesced_except(num as int) ==> final(self).coalesced(),
            forall|j: int| 0 <= j < old(self).page_count() && j != num ==> #[trigger] final(self).frame(j) == old(self).frame(j),
            final(self).free_list(lvl as int) == old(self).free_list(lvl as int).remove(old(self).free_list(lvl as int).index_of(num)),
            final(self).wf(),
            final(self).page_count() == old(self).page_count(),
            final(self).spec_height() == old(self).spec_height(),
            final(self).base() == old(self).base(),
            num < old(self).page_count(),
            !old(self).is_allocated(num as int),
            final(self).is_allocated(num as int),
            final(self).block_level(num as int) == lvl,
            aligned(num as int, lvl as nat),
            num + pow2(lvl as nat) <= old(self).page_count(),
            final(self).used_pages() == old(self).used_pages() + pow2(lvl as nat),
            num == old(self).free_list(lvl as int)[0] ==> final(self).free_list(lvl as int) == old(self).free_list(lvl as int).drop_first(),
            forall|m: int| 0 <= m < old(self).spec_height() && m != lvl ==> #[trigger] final(self).free_list(m) == old(self).free_list(m),
            forall|i: int|
                #![trigger final(self).is_allocated(i)]
                #![trigger old(self).is_allocated(i)]
                i != num ==> final(self).is_allocated(i) == old(self).is_allocated(i) && (old(self).is_allocated(i)
                    ==> final(self).block_level(i) == old(self).block_level(i)),
    {
        let ghost o = *self;
        let ghost cnt = self.nodes@.len() as int;
        let ghost size = pow2(lvl as nat) as int;
        proof {
            let ls = self.lists@[lvl as int]@;
            assert(self.lists@[lvl as int].wf(self.nodes@));
            if num == ls[0] {
                assert(ls.index_of(num) == 0) by {
                    assert(ls.contains(num));
                    let k = ls.index_of(num);
                    assert(ls[k] == ls[0]);
                }
                assert(ls.remove(0) =~= ls.drop_first());
            }
        }
        proof {
            lemma_pow2_pos(lvl as nat);
            assert(self.lists@[lvl as int]@.contains(num));
            assert(self.nodes@[num as int].object.free);
            assert(self.nodes@[num as int].object.level == lvl);
            assert(self.owner@[num as int] == num);
        }
        self.list_remove(lvl, num);
        let ghost n1 = self.nodes@;
        self.nodes[num].object.set_occupied();
        proof {
            assert forall|m: int| 0 <= m < self.height implies (#[trigger] self.lists@[m]).wf(self.nodes@) by {
                self.lists@[m].lemma_frame(n1, self.nodes@);
            }
            assert forall|m: int, k: int|
                0 <= m < self.height && 0 <= k < self.lists@[m]@.len() implies (#[trigger] self.nodes@[self.lists@[m]@[k] as int]).object.level == m
                && self.nodes@[self.lists@[m]@[k] as int].object.free by {
                let j = self.lists@[m]@[k];
                assert(n1[j as int].object.level == m);
                if m == lvl {
                    assert(self.lists@[m]@.contains(j));
                    let k2 = choose|k2: int| 0 <= k2 < o.lists@[m]@.len() && o.lists@[m]@[k2] == j;
                    assert(o.nodes@[o.lists@[m]@[k2] as int].object.free);
                } else {
                    assert(o.lists@[m]@[k] == j);
                    assert(o.nodes@[o.lists@[m]@[k] as int].object.free);
                }
            }
            assert forall|i: int|
                0 <= i < cnt && (#[trigger] self.nodes@[i]).object.free implies self.lists@[self.nodes@[i].object.level as int]@.contains(i as usize)
                    && self.owner@[i] == i by {
                assert(o.nodes@[i].object.free);
                let li = o.nodes@[i].object.level as int;
                if li == lvl {
                    assert(o.lists@[li]@.contains(i as usize));
                }
            }
            assert forall|i: int| 0 <= i < cnt implies (#[trigger] self.nodes@[i]).object.num == i
                && self.nodes@[i].object.level < self.height by {
                assert(o.nodes@[i].object.num == i);
            }
            assert forall|p: int| 0 <= p < cnt && (p < num || p >= num + size) implies self.in_use()[p]
                == o.in_use()[p] by {
                let h = o.owner@[p];
                assert(o.owner@[h] == h);
                if h == num {
                    assert(p < num + size);
                }
            }
            assert forall|p: int| num <= p < num + size implies self.in_use()[p] && !o.in_use()[p] by {
                assert(o.owner@[num as int] == num);
                assert(o.owner@[p] == num);
            }
            lemma_count_flip(self.in_use(), o.in_use(), cnt as nat, num as int, num + size);
            let c0 = o.free_counts();
            let c1 = c0.update(lvl as int, c0[lvl as int] - 1);
            lemma_weighted_update(c0, o.height as nat, lvl as int, c0[lvl as int] - 1);
            assert(pow2(lvl as nat) * ((c0[lvl as int] - 1) - c0[lvl as int]) == -size) by (nonlinear_arith)
                requires size == pow2(lvl as nat);
            assert(c1 =~= self.free_counts());
            assert(self.lists_ok());
            if o.coalesced_except(num as int) {
                assert forall|h: int| 0 <= h < self.page_count() && #[trigger] self.frame(h).free
                    implies !self.mergeable(h) by {
                    assert(self.frame(h) == o.frame(h));
                    assert(o.frame(h).free);
                    let bb = buddy_index(h, self.block_level(h));
                    if 0 <= bb < self.page_count() && bb != num {
                        assert(self.frame(bb) == o.frame(bb));
                    }
                }
            }
            assert(self.free_pages() + self.used_pages() == cnt);
        }
    }

    /// Returns the allocated block headed by `num` to its free list.
    #[verifier::spinoff_prover]
    fn release(&mut self, num: usize)
        requires
            old(self).wf(),
            old(self).is_allocated(num as int),
        ensures
            final(self).wf(),
            final(self).page_count() == old(self).page_count(),
            final(self).spec_height() == old(self).spec_height(),
            final(self).base() == old(self).base(),
            final(self).frame(num as int).free,
            final(self).free_list(old(self).block_level(num as int) as int) == seq![num] + old(self).free_list(old(self).block_level(num as int) as int),
            forall|m: int|
                0 <= m < old(self).spec_height() && m != old(self).block_level(num as int)
                    ==> #[trigger] final(self).free_list(m) == old(self).free_list(m),
            final(self).owner@ == old(self).owner@,
            forall|j: int| 0 <= j < old(self).page_count() && j != num ==> #[trigger] final(self).frame(j) == old(self).frame(j),
            final(self).block_level(num as int) == old(self).block_level(num as int),
            !final(self).is_allocated(num as int),
            final(self).used_pages() == old(self).used_pages() - pow2(old(self).block_level(num as int)),
            forall|i: int|
                #![trigger final(self).is_allocated(i)]
                #![trigger old(self).is_allocated(i)]
                i != num ==> final(self).is_allocated(i) == old(self).is_allocated(i) && (old(self).is_allocated(i)
                    ==> final(self).block_level(i) == old(self).block_level(i)),
    {
        let ghost o = *self;
        let ghost cnt = self.nodes@.len() as int;
        let level = self.nodes[num].object.level();
        let ghost size = pow2(level as nat) as int;
        let ghost n0 = self.nodes@;
        self.nodes[num].object.set_free();
        proof {
            lemma_pow2_pos(level as nat);
            assert forall|m: int| 0 <= m < self.height implies (#[trigger] self.lists@[m]).wf(self.nodes@) by {
                self.lists@[m].lemma_frame(n0, self.nodes@);
            }
            assert forall|m: int, k: int|
                0 <= m < self.height && 0 <= k < self.lists@[m]@.len() implies (#[trigger] self.nodes@[self.lists@[m]@[k] as int]).object.level == m
                && self.nodes@[self.lists@[m]@[k] as int].object.free by {
                let j = self.lists@[m]@[k];
                assert(n0[j as int].object.level == m);
                assert(n0[j as int].object.free);
            }
            let ls = self.lists@[level as int]@;
            assert(!ls.contains(num)) by {
                if ls.contains(num) {
                    let k = choose|k: int| 0 <= k < ls.len() && ls[k] == num;
                    assert(n0[ls[k] as int].object.free);
                }
            }
        }
        self.list_insert(level, num);
        proof {
            assert forall|m: int, k: int|
                0 <= m < self.height && 0 <= k < self.lists@[m]@.len() implies (#[trigger] self.nodes@[self.lists@[m]@[k] as int]).object.free by {
                let j = self.lists@[m]@[k];
                if m == level && k > 0 {
                    assert(j == o.lists@[m]@[k - 1]);
                    assert(o.nodes@[o.lists@[m]@[k - 1] as int].object.free);
                } else if m != level {
                    assert(o.lists@[m]@[k] == j);
                    assert(o.nodes@[o.lists@[m]@[k] as int].object.free);
                }
            }
            assert forall|i: int|
                0 <= i < cnt && (#[trigger] self.nodes@[i]).object.free implies self.lists@[self.nodes@[i].object.level as int]@.contains(i as usize)
                    && self.owner@[i] == i by {
                if i == num {
                    assert(self.lists@[level as int]@[0] == num);
                } else {
                    assert(o.nodes@[i].object.free);
                    let li = o.nodes@[i].object.level as int;
                    if li == level {
                        let k = choose|k: int| 0 <= k < o.lists@[li]@.len() && o.lists@[li]@[k] == i as usize;
                        assert(self.lists@[li]@[k + 1] == i as usize);
                    }
                }
            }
            assert forall|i: int| 0 <= i < cnt implies (#[trigger] self.nodes@[i]).object.num == i
                && self.nodes@[i].object.level < self.height by {
                assert(o.nodes@[i].object.num == i);
            }
            assert forall|p: int| 0 <= p < cnt && (p < num || p >= num + size) implies self.in_use()[p]
                == o.in_use()[p] by {
                let h = o.owner@[p];
                assert(o.owner@[h] == h);
                if h == num {
                    assert(p < num + size);
                }
            }
            assert forall|p: int| num <= p < num + size implies o.in_use()[p] && !self.in_use()[p] by {
                assert(o.owner@[num as int] == num);
                assert(o.owner@[p] == num);
            }
            lemma_count_flip(o.in_use(), self.in_use(), cnt as nat, num as int, num + size);
            let c0 = o.free_counts();
            let c1 = c0.update(level as int, c0[level as int] + 1);
            lemma_weighted_update(c0, o.height as nat, level as int, c0[level as int] + 1);
            assert(pow2(level as nat) * ((c0[level as int] + 1) - c0[level as int]) == size) by (nonlinear_arith)
                requires size == pow2(level as nat);
            assert(c1 =~= self.free_counts());
            assert(self.lists_ok());
            assert(self.free_pages() + self.used_pages() == cnt);
        }
    }
    /// Splits the free block headed by `node`, at level `L > 0`, in two: the
    /// block leaves `lists[L]`, and both halves, `node` and its upper buddy,
    /// enter `lists[L-1]` as free blocks, `node` first.
    fn go_down_once(&mut self, node: usize)
        requires
            old(self).wf(),
            node < old(self).page_count(),
            old(self).frame(node as int).free,
            old(self).block_level(node as int) > 0,
        ensures
            final(self).wf(),
            final(self).page_count() == old(self).page_count(),
            final(self).spec_height() == old(self).spec_height(),
            final(self).base() == old(self).base(),
            final(self).used_pages() == old(self).used_pages(),
            final(self).same_allocations(old(self)),
            old(self).coalesced_except(node as int) ==> final(self).coalesced_except(node as int),
            ({
                let l = old(self).block_level(node as int) as int;
                let lo = (l - 1) as nat;
                let u = node + pow2(lo);
                &&& u < old(self).page_count()
                &&& buddy_index(node as int, lo) == u
                &&& final(self).frame(node as int).free
                &&& final(self).block_level(node as int) == lo
                &&& final(self).frame(u).free
                &&& final(self).block_level(u) == lo
                &&& forall|j: int|
                    0 <= j < old(self).page_count() && j != node && j != u
                        ==> #[trigger] final(self).frame(j) == old(self).frame(j)
                &&& final(self).free_list(l) == old(self).free_list(l).remove(old(self).free_list(l).index_of(node))
                &&& final(self).free_list(lo as int) == seq![node, u as usize] + old(self).free_list(lo as int)
                &&& forall|m: int|
                    0 <= m < old(self).spec_height() && m != l && m != lo
                        ==> #[trigger] final(self).free_list(m) == old(self).free_list(m)
            }),
    {
        let level = self.nodes[node].object.level();
        let ghost o = *self;
        proof {
            self.lemma_node_facts(node as int, level as int);
            lemma_pow2_unfold(level as nat);
        }
        self.take_block(level, node);
        self.split_held(node);
        self.release(node);
        proof {
            let lo = (level - 1) as nat;
            let u = node + pow2(lo);
            assert forall|i: int| #[trigger] self.is_allocated(i) == o.is_allocated(i) && (self.is_allocated(i)
                ==> self.block_level(i) == o.block_level(i)) by {
                if i == node {
                    o.lemma_node_facts(node as int, level as int);
                }
            }
            if o.coalesced_except(node as int) {
                assert forall|h: int|
                    0 <= h < self.page_count() && #[trigger] self.frame(h).free && h != node && buddy_index(
                        h,
                        self.block_level(h),
                    ) != node implies !self.mergeable(h) by {
                    let bb = buddy_index(h, self.block_level(h));
                    if h == u {
                        assert(buddy_index(u, lo) == node) by {
                            lemma_buddy_aligned(node as int, lo);
                        }
                    } else {
                        assert(self.frame(h) == o.frame(h));
                        if bb == u && self.block_level(h) == lo {
                            self.lemma_node_facts(h, 0);
                            lemma_buddy_aligned(h, lo);
                            lemma_buddy_aligned(node as int, lo);
                        } else if 0 <= bb < self.page_count() && bb != u {
                            assert(self.frame(bb) == o.frame(bb));
                        }
                    }
                }
            }
        }
    }

    /// Splits the free block headed by `node` until it has level
    /// `req_level`; `node` stays free, heading its list, and each upper half
    /// is listed at its own level.
    fn down_to_level(&mut self, node: usize, req_level: usize)
        requires
            old(self).wf(),
            node < old(self).page_count(),
            old(self).frame(node as int).free,
            req_level <= old(self).block_level(node as int),
        ensures
            final(self).wf(),
            final(self).page_count() == old(self).page_count(),
            final(self).spec_height() == old(self).spec_height(),
            final(self).base() == old(self).base(),
            final(self).used_pages() == old(self).used_pages(),
            final(self).same_allocations(old(self)),
            old(self).coalesced_except(node as int) ==> final(self).coalesced_except(node as int),
            final(self).frame(node as int).free,
            final(self).block_level(node as int) == req_level,
            ({
                let l0 = old(self).block_level(node as int) as int;
                &&& req_level == l0 ==> *final(self) == *old(self)
                &&& req_level < l0 ==> {
                    &&& final(self).free_list(l0) == old(self).free_list(l0).remove(old(self).free_list(l0).index_of(node))
                    &&& forall|k: int|
                        req_level < k < l0 ==> #[trigger] final(self).free_list(k) == seq![(node + pow2(k as nat)) as usize]
                            + old(self).free_list(k)
                    &&& final(self).free_list(req_level as int) == seq![node, (node + pow2(req_level as nat)) as usize]
                        + old(self).free_list(req_level as int)
                    &&& forall|m: int|
                        0 <= m < old(self).spec_height() && !(req_level <= m <= l0)
                            ==> #[trigger] final(self).free_list(m) == old(self).free_list(m)
                }
            }),
    {
        let ghost o = *self;
        let ghost l0 = o.block_level(node as int) as int;
        proof {
            o.lemma_node_facts(node as int, 0);
        }
        while self.nodes[node].object.level() > req_level
            invariant
                self.wf(),
                self.page_count() == o.page_count(),
                self.spec_height() == o.spec_height(),
                self.base() == o.base(),
                self.used_pages() == o.used_pages(),
                self.same_allocations(&o),
                node < self.page_count(),
                l0 == o.block_level(node as int),
                l0 < o.spec_height(),
                self.frame(node as int).free,
                req_level <= self.block_level(node as int) <= l0,
                o.coalesced_except(node as int) ==> self.coalesced_except(node as int),
                self.block_level(node as int) == l0 ==> *self == o,
                self.block_level(node as int) < l0 ==> {
                    let c = self.block_level(node as int) as int;
                    &&& self.free_list(l0) == o.free_list(l0).remove(o.free_list(l0).index_of(node))
                    &&& forall|k: int|
                        c < k < l0 ==> #[trigger] self.free_list(k) == seq![(node + pow2(k as nat)) as usize]
                            + o.free_list(k)
                    &&& self.free_list(c) == seq![node, (node + pow2(c as nat)) as usize] + o.free_list(c)
                    &&& forall|m: int|
                        0 <= m < o.spec_height() && !(c <= m <= l0)
                            ==> #[trigger] self.free_list(m) == o.free_list(m)
                },
            decreases self.block_level(node as int),
        {
            let ghost before = *self;
            let ghost c = self.block_level(node as int) as int;
            proof {
                self.lemma_lists_facts(c);
                if c < l0 {
                    let ls = self.free_list(c);
                    assert(ls[0] == node);
                    assert(ls.contains(node));
                    let k = ls.index_of(node);
                    assert(ls[k] == ls[0]);
                    assert(k == 0);
                    assert(ls.remove(0) =~= ls.drop_first());
                }
            }
            self.go_down_once(node);
            proof {
                assert forall|i: int| #[trigger] self.is_allocated(i) == o.is_allocated(i) && (self.is_allocated(i)
                    ==> self.block_level(i) == o.block_level(i)) by {
                    assert(self.is_allocated(i) == before.is_allocated(i));
                }
                let c1 = c - 1;
                if c < l0 {
                    assert(self.free_list(c) =~= seq![(node + pow2(c as nat)) as usize] + o.free_list(c));
                }
                assert forall|k: int|
                    c1 < k < l0 implies #[trigger] self.free_list(k) == seq![(node + pow2(k as nat)) as usize]
                        + o.free_list(k) by {
                    if k > c {
                        assert(self.free_list(k) == before.free_list(k));
                    }
                }
                assert forall|m: int|
                    0 <= m < o.spec_height() && !(c1 <= m <= l0) implies #[trigger] self.free_list(m)
                        == o.free_list(m) by {
                    assert(self.free_list(m) == before.free_list(m));
                }
                assert(self.free_list(c1) == seq![node, (node + pow2(c1 as nat)) as usize] + o.free_list(c1)) by {
                    assert(before.free_list(c1) == o.free_list(c1));
                }
            }
        }
    }

    /// The address of the first page of node `node_num`.
    fn node_to_ptr(&self, node_num: usize) -> (r: usize)
        requires
            self.wf(),
            node_num < self.page_count(),
        ensures
            r == self.address_of(node_num as int),
    {
        proof {
            let cnt = self.nodes@.len() as int;
            assert(node_num * PAGE_SIZE <= cnt * PAGE_SIZE) by (nonlinear_arith)
                requires
                    node_num < cnt,
            ;
        }
        self.first_page + node_num * PAGE_SIZE
    }

    /// The node whose page starts at address `ptr`.
    fn ptr_to_node(&self, ptr: usize) -> (r: usize)
        requires
            ptr >= self.base(),
        ensures
            r == (ptr - self.base()) / PAGE_SIZE as int,
    {
        let diff = ptr - self.first_page;
        diff / PAGE_SIZE
    }

    /// Hands out a block of `2^req_level` pages and returns the address of its
    /// first page. Lists are searched from `req_level` up; the first free block
    /// found is split down to `req_level`, its upper halves going back to the
    /// free lists. Returns `None`, changing nothing, when no level from
    /// `req_level` up holds a free block.
    #[verifier::spinoff_prover]
    #[verifier::rlimit(80)]
    pub fn allocate(&mut self, req_level: usize) -> (r: Option<usize>)
        requires
            old(self).wf(),
        ensures
            old(self).coalesced() ==> final(self).coalesced(),
            final(self).wf(),
            final(self).page_count() == old(self).page_count(),
            final(self).spec_height() == old(self).spec_height(),
            final(self).base() == old(self).base(),
            r is None <==> forall|l: int|
                req_level <= l < old(self).spec_height() ==> #[trigger] old(self).free_list(l).len() == 0,
            r is None ==> *final(self) == *old(self),
            r matches Some(a) ==> {
                let i = (a - old(self).base()) / PAGE_SIZE as int;
                &&& 0 <= i < old(self).page_count()
                &&& a == old(self).address_of(i)
                &&& (a - old(self).base()) % (pow2(req_level as nat) * PAGE_SIZE) as int == 0
                &&& i + pow2(req_level as nat) <= old(self).page_count()
                &&& !old(self).is_allocated(i)
                &&& final(self).is_allocated(i)
                &&& final(self).block_level(i) == req_level
                &&& final(self).used_pages() == old(self).used_pages() + pow2(req_level as nat)
                &&& exists|lvl: int|
                    #![trigger old(self).free_list(lvl)]
                    {
                        &&& req_level <= lvl < old(self).spec_height()
                        &&& forall|l: int| req_level <= l < lvl ==> #[trigger] old(self).free_list(l).len() == 0
                        &&& old(self).free_list(lvl).len() > 0
                        &&& i == old(self).free_list(lvl)[0]
                        &&& final(self).free_list(lvl) == old(self).free_list(lvl).drop_first()
                        &&& forall|k: int|
                            req_level <= k < lvl ==> #[trigger] final(self).free_list(k) == seq![(i + pow2(k as nat)) as usize]
                        &&& forall|m: int|
                            0 <= m < old(self).spec_height() && (m < req_level || m > lvl)
                                ==> #[trigger] final(self).free_list(m) == old(self).free_list(m)
                    }
                &&& forall|j: int|
                    #![trigger final(self).is_allocated(j)]
                    #![trigger old(self).is_allocated(j)]
                    j != i ==> final(self).is_allocated(j) == old(self).is_allocated(j) && (old(
                        self,
                    ).is_allocated(j) ==> final(self).block_level(j) == old(self).block_level(j))
            },
    {
        let mut lvl = req_level;
        while lvl < self.height
            invariant
                self.wf(),
                *self == *old(self),
                req_level <= lvl,
                forall|l: int| req_level <= l < lvl ==> #[trigger] self.free_list(l).len() == 0,
            decreases self.height - lvl,
        {
            if let Some(num) = self.lists[lvl].first() {
                proof {
                    assert(self.lists@[lvl as int].wf(self.nodes@));
                    assert(self.free_list(lvl as int).len() > 0);
                }
                if self.nodes[num].object.is_free() {
                    let ghost o = *self;
                    proof {
                        self.lemma_lists_facts(lvl as int);
                        let ls = self.free_list(lvl as int);
                        assert(ls.contains(num));
                        let k = ls.index_of(num);
                        assert(ls[k] == ls[0]);
                        assert(ls.remove(0) =~= ls.drop_first());
                        assert(o.coalesced() ==> o.coalesced_except(num as int));
                    }
                    self.down_to_level(num, req_level);
                    let ghost mid = *self;
                    proof {
                        self.lemma_lists_facts(req_level as int);
                        self.lemma_node_facts(num as int, req_level as int);
                    }
                    self.take_block(req_level, num);
                    let a = self.node_to_ptr(num);
                    proof {
                        let size = pow2(req_level as nat) as int;
                        lemma_pow2_pos(req_level as nat);
                        lemma_pow2_pos(lvl as nat);
                        let q = num as int / size;
                        vstd::arithmetic::div_mod::lemma_fundamental_div_mod(num as int, size);
                        assert(!o.is_allocated(num as int)) by {
                            assert(mid.same_allocations(&o));
                        }
                        assert forall|j: int| j != num implies #[trigger] self.is_allocated(j) == o.is_allocated(j)
                            && (o.is_allocated(j) ==> self.block_level(j) == o.block_level(j)) by {
                            assert(mid.is_allocated(j) == o.is_allocated(j));
                        }
                        assert(num * PAGE_SIZE == q * (size * PAGE_SIZE)) by (nonlinear_arith)
                            requires
                                num == size * q + 0,
                        ;
                        vstd::arithmetic::div_mod::lemma_fundamental_div_mod_converse_mod(
                            num * PAGE_SIZE,
                            size * PAGE_SIZE,
                            q,
                            0,
                        );
                        vstd::arithmetic::div_mod::lemma_fundamental_div_mod_converse_div(
                            num * PAGE_SIZE,
                            PAGE_SIZE as int,
                            num as int,
                            0,
                        );
                        assert forall|k: int| req_level <= k < lvl implies #[trigger] self.free_list(k)
                            == seq![(num + pow2(k as nat)) as usize] by {
                            assert(o.free_list(k).len() == 0);
                            assert(o.free_list(k) =~= Seq::<usize>::empty());
                            assert(seq![(num + pow2(k as nat)) as usize] + Seq::<usize>::empty() =~= seq![(num + pow2(k as nat)) as usize]);
                            if k == req_level {
                                let t = seq![num, (num + pow2(k as nat)) as usize] + o.free_list(k);
                                assert(mid.free_list(k) == t);
                                assert(t.drop_first() =~= seq![(num + pow2(k as nat)) as usize]);
                            } else {
                                assert(self.free_list(k) == mid.free_list(k));
                            }
                        }
                        if req_level < lvl {
                            assert(self.free_list(lvl as int) == mid.free_list(lvl as int));
                        }
                        assert forall|m: int|
                            0 <= m < old(self).spec_height() && (m < req_level || m > lvl)
                                implies #[trigger] self.free_list(m) == old(self).free_list(m) by {
                            assert(self.free_list(m) == mid.free_list(m));
                        }
                        assert(old(self).free_list(lvl as int).len() > 0);
                    }
                    return Some(a);
                }
            }
            lvl += 1;
        }
        None
    }

    /// Takes back the block that starts at address `ptr`, then merges it with
    /// its buddy, level after level, while the buddy is a free block of the
    /// same level.
    pub fn deallocate(&mut self, ptr: usize)
        requires
            old(self).wf(),
            ptr >= old(self).base(),
            (ptr - old(self).base()) % PAGE_SIZE as int == 0,
            old(self).is_allocated((ptr - old(self).base()) / PAGE_SIZE as int),
        ensures
            final(self).wf(),
            final(self).page_count() == old(self).page_count(),
            final(self).spec_height() == old(self).spec_height(),
            final(self).base() == old(self).base(),
            ({
                let i = (ptr - old(self).base()) / PAGE_SIZE as int;
                let m = final(self).head_of(i);
                let l2 = final(self).block_level(m);
                &&& 0 <= m <= i < m + pow2(l2)
                &&& old(self).block_level(i) <= l2
                &&& final(self).frame(m).free
                &&& final(self).free_list(l2 as int).contains(m as usize)
                &&& !final(self).mergeable(m)
                &&& old(self).coalesced() ==> final(self).coalesced()
                &&& forall|j: int|
                    m <= j < m + pow2(l2) ==> #[trigger] final(self).head_of(j) == m && (j != m
                        ==> !final(self).frame(j).free)
                &&& forall|l: int, j: usize|
                    0 <= l < old(self).spec_height() && j < old(self).page_count()
                        ==> (#[trigger] final(self).free_list(l).contains(j) <==> ((j == m && l == l2) || (
                        old(self).free_list(l).contains(j) && !(m <= j < m + pow2(l2)))))
                &&& forall|j: int|
                    0 <= j < old(self).page_count() && !(m <= j < m + pow2(l2))
                        ==> #[trigger] final(self).frame(j) == old(self).frame(j) && final(self).head_of(j)
                        == old(self).head_of(j)
                &&& !final(self).is_allocated(i)
                &&& final(self).used_pages() == old(self).used_pages() - pow2(old(self).block_level(i))
                &&& forall|j: int|
                    #![trigger final(self).is_allocated(j)]
                    #![trigger old(self).is_allocated(j)]
                    j != i ==> final(self).is_allocated(j) == old(self).is_allocated(j) && (old(
                        self,
                    ).is_allocated(j) ==> final(self).block_level(j) == old(self).block_level(j))
            }),
    {
        let num = self.ptr_to_node(ptr);
        let ghost o = *self;
        proof {
            lemma_pow2_pos(self.nodes@[num as int].object.level as nat);
        }
        self.release(num);
        let ghost freed = *self;
        proof {
            assert forall|j: int| num <= j < num + pow2(self.block_level(num as int)) implies #[trigger] self.head_of(j)
                == num by {
                assert(o.owner@[num as int] == num);
                assert(o.owner@[j] == num);
            }
            if o.coalesced() {
                assert forall|h: int|
                    0 <= h < self.page_count() && #[trigger] self.frame(h).free && h != num
                        && buddy_index(h, self.block_level(h)) != num implies !self.mergeable(h) by {
                    assert(self.frame(h) == o.frame(h));
                    assert(o.frame(h).free);
                    let bb = buddy_index(h, self.block_level(h));
                    if 0 <= bb < self.page_count() {
                        assert(self.frame(bb) == o.frame(bb));
                    }
                }
            }
        }
        let mut cur = num;
        loop
            invariant
                self.wf(),
                self.page_count() == freed.page_count(),
                self.spec_height() == freed.spec_height(),
                self.base() == freed.base(),
                self.used_pages() == freed.used_pages(),
                self.same_allocations(&freed),
                freed.page_count() == o.page_count(),
                num < o.page_count(),
                cur < self.page_count(),
                self.frame(cur as int).free,
                self.head_of(num as int) == cur,
                cur <= num < cur + pow2(self.block_level(cur as int)),
                o.block_level(num as int) <= self.block_level(cur as int),
                forall|j: int|
                    cur <= j < cur + pow2(self.block_level(cur as int)) ==> #[trigger] self.head_of(j) == cur,
                forall|j: int|
                    0 <= j < o.page_count() && !(cur <= j < cur + pow2(self.block_level(cur as int)))
                        ==> #[trigger] self.frame(j) == o.frame(j) && self.head_of(j) == o.head_of(j),
                o.coalesced() ==> forall|h: int|
                    0 <= h < self.page_count() && #[trigger] self.frame(h).free && h != cur
                        && buddy_index(h, self.block_level(h)) != cur ==> !self.mergeable(h),
            ensures
                o.coalesced() ==> forall|h: int|
                    0 <= h < self.page_count() && #[trigger] self.frame(h).free && h != cur
                        && buddy_index(h, self.block_level(h)) != cur ==> !self.mergeable(h),
                self.wf(),
                self.page_count() == freed.page_count(),
                self.spec_height() == freed.spec_height(),
                self.base() == freed.base(),
                self.used_pages() == freed.used_pages(),
                self.same_allocations(&freed),
                cur < self.page_count(),
                self.frame(cur as int).free,
                self.head_of(num as int) == cur,
                cur <= num < cur + pow2(self.block_level(cur as int)),
                o.block_level(num as int) <= self.block_level(cur as int),
                !self.mergeable(cur as int),
                forall|j: int|
                    0 <= j < o.page_count() && !(cur <= j < cur + pow2(self.block_level(cur as int)))
                        ==> #[trigger] self.frame(j) == o.frame(j) && self.head_of(j) == o.head_of(j),
            decreases self.spec_height() - self.block_level(cur as int),
        {
            proof {
                assert(self.nodes@[cur as int].object.level < self.height);
            }
            let ghost before = *self;
            let ghost l = self.block_level(cur as int);
            match self.go_up_once(cur) {
                Some(next) => {
                    proof {
                        let b = buddy_index(cur as int, l);
                        let half = pow2(l) as int;
                        lemma_pow2_unfold(l + 1);
                        lemma_pow2_pos(l);
                        assert(before.owner@[cur as int] == cur);
                        lemma_buddy_aligned(cur as int, l);
                        assert(next + pow2(l + 1) >= cur + half);
                        assert(next <= cur);
                        assert forall|j: int|
                            next <= j < next + pow2(self.block_level(next as int)) implies #[trigger] self.head_of(j) == next by {
                            self.lemma_node_facts(next as int, 0);
                        }
                        assert forall|j: int|
                            0 <= j < o.page_count() && !(next <= j < next + pow2(self.block_level(next as int)))
                                implies #[trigger] self.frame(j) == o.frame(j) && self.head_of(j) == o.head_of(j) by {
                            assert(self.frame(j) == before.frame(j));
                        }
                        if o.coalesced() {
                            assert forall|h: int|
                                0 <= h < self.page_count() && #[trigger] self.frame(h).free && h != next
                                    && buddy_index(h, self.block_level(h)) != next implies !self.mergeable(h) by {
                                self.lemma_node_facts(h, 0);
                                if next <= h < next + pow2(l + 1) {
                                    assert(self.head_of(h) == next);
                                }
                                assert(self.frame(h) == before.frame(h));
                                let bb = buddy_index(h, self.block_level(h));
                                if 0 <= bb < self.page_count() && next <= bb < next + pow2(l + 1) {
                                    if self.frame(bb).free {
                                        self.lemma_node_facts(bb, 0);
                                        assert(self.head_of(bb) == next);
                                    }
                                } else if 0 <= bb < self.page_count() {
                                    assert(self.frame(bb) == before.frame(bb));
                                    assert(before.frame(h).free);
                                }
                            }
                        }
                    }
                    cur = next;
                },
                None => {
                    proof {
                        assert(*self == before);
                        assert forall|j: int|
                            0 <= j < o.page_count() && !(cur <= j < cur + pow2(self.block_level(cur as int)))
                                implies #[trigger] self.frame(j) == o.frame(j) && self.head_of(j) == o.head_of(j) by {
                            assert(before.frame(j) == o.frame(j));
                        }
                    }
                    break ;
                },
            }
        }
        proof {
            let l2 = self.block_level(cur as int);
            assert forall|j: int| cur <= j < cur + pow2(l2) implies #[trigger] self.head_of(j) == cur && (j != cur
                ==> !self.frame(j).free) by {
                self.lemma_node_facts(cur as int, 0);
                if j != cur && self.frame(j).free {
                    self.lemma_node_facts(j, 0);
                }
            }
            assert forall|l: int, j: usize|
                0 <= l < o.spec_height() && j < o.page_count() implies (#[trigger] self.free_list(l).contains(j) <==> ((j
                == cur && l == l2) || (o.free_list(l).contains(j) && !(cur <= j < cur + pow2(l2))))) by {
                self.lemma_node_facts(j as int, l);
                o.lemma_node_facts(j as int, l);
                self.lemma_node_facts(cur as int, 0);
                if !(cur <= j < cur + pow2(l2)) {
                    assert(self.frame(j as int) == o.frame(j as int));
                } else if j != cur {
                    assert(self.head_of(j as int) == cur);
                }
            }
            assert(self.lists@[self.nodes@[cur as int].object.level as int]@.contains(cur));
            if o.coalesced() {
                assert forall|h: int| 0 <= h < self.page_count() && #[trigger] self.frame(h).free
                    implies !self.mergeable(h) by {
                    if h != cur && buddy_index(h, self.block_level(h)) == cur && self.mergeable(h) {
                        self.lemma_mergeable_mutual(h);
                    }
                }
            }
        }
    }

    /// An allocator over the `cnt` pages that start at `first_page`: every
    /// page starts as a free level-0 block, then one sweep per level merges
    /// aligned free buddies.
    #[verifier::spinoff_prover]
    #[verifier::rlimit(80)]
    pub fn with_page_count(first_page: usize, cnt: usize) -> (r: Single)
        requires
            cnt >= 1,
            first_page + cnt * PAGE_SIZE <= usize::MAX,
        ensures
            r.wf(),
            r.page_count() == cnt,
            r.base() == first_page,
            height_for(r.spec_height(), cnt as nat),
            r.used_pages() == 0,
            r.free_pages() == cnt,
            r.coalesced(),
            forall|i: int| !#[trigger] r.is_allocated(i),
    {
        let mut height: usize = 1;
        proof {
            vstd::arithmetic::power2::lemma2_to64();
        }
        loop
            invariant
                1 <= height <= MAX_HEIGHT - 1,
                pow2((height - 1) as nat) <= cnt,
            ensures
                height_for(height as nat, cnt as nat),
            decreases MAX_HEIGHT - height,
        {
            if height >= MAX_HEIGHT - 1 {
                break ;
            }
            proof {
                lemma_shl_pow2(height);
            }
            if (1usize << height) > cnt {
                break ;
            }
            height += 1;
        }
        let mut lists: Vec<InplaceList<Frame>> = Vec::new();
        let mut l: usize = 0;
        while l < height
            invariant
                l <= height,
                lists@.len() == l,
                forall|m: int| 0 <= m < l ==> (#[trigger] lists@[m])@.len() == 0 && lists@[m].head() is None,
            decreases height - l,
        {
            lists.push(InplaceList::new());
            l += 1;
        }
        let mut nodes: Vec<Node<Frame>> = Vec::new();
        let mut i: usize = 0;
        while i < cnt
            invariant
                i <= cnt,
                nodes@.len() == i,
                forall|j: int| 0 <= j < i ==> (#[trigger] nodes@[j]).object == (Frame { num: j as usize, level: 0, free: true }),
            decreases cnt - i,
        {
            nodes.push(Node::new(Frame::new(i)));
            i += 1;
        }
        let mut first_list = lists[0];
        proof {
            assert(first_list.wf(nodes@));
        }
        let mut i: usize = 0;
        while i < cnt
            invariant
                i <= cnt,
                nodes@.len() == cnt,
                first_list.wf(nodes@),
                first_list@.len() == i,
                forall|j: usize| #[trigger] first_list@.contains(j) <==> j < i,
                forall|j: int| 0 <= j < cnt ==> (#[trigger] nodes@[j]).object == (Frame { num: j as usize, level: 0, free: true }),
            decreases cnt - i,
        {
            let ghost before = first_list@;
            first_list.insert(&mut nodes, i);
            proof {
                assert forall|j: usize| #[trigger] first_list@.contains(j) <==> j < i + 1 by {
                    if j < i + 1 {
                        if j == i {
                            assert(first_list@[0] == j);
                        } else {
                            assert(before.contains(j));
                            let k = choose|k: int| 0 <= k < before.len() && before[k] == j;
                            assert(first_list@[k + 1] == j);
                        }
                    }
                    if first_list@.contains(j) {
                        let k = choose|k: int| 0 <= k < first_list@.len() && first_list@[k] == j;
                        if k > 0 {
                            assert(before[k - 1] == j);
                            assert(before.contains(j));
                        }
                    }
                }
            }
            i += 1;
        }
        lists.set(0, first_list);
        let mut s = Single {
            lists,
            height,
            nodes,
            first_page,
            owner: Ghost(Seq::new(cnt as nat, |p: int| p)),
        };
        proof {
            vstd::arithmetic::power2::lemma2_to64();
            assert forall|m: int| 0 <= m < s.height implies (#[trigger] s.lists@[m]).wf(s.nodes@) by {
                if m > 0 {
                    assert(s.lists@[m]@.len() == 0);
                }
            }
            assert forall|m: int, k: int|
                0 <= m < s.height && 0 <= k < s.lists@[m]@.len() implies (#[trigger] s.nodes@[s.lists@[m]@[k] as int]).object.level == m
                && s.nodes@[s.lists@[m]@[k] as int].object.free by {
                if m > 0 {
                    assert(s.lists@[m]@.len() == 0);
                }
            }
            assert forall|i: int|
                0 <= i < cnt && (#[trigger] s.nodes@[i]).object.free implies s.lists@[s.nodes@[i].object.level as int]@.contains(i as usize)
                    && s.owner@[i] == i by {
                assert(s.lists@[0]@.contains(i as usize));
            }
            lemma_count_none(s.in_use(), cnt as nat);
            lemma_weighted_first(s.free_counts(), height as nat);
            assert(s.lists_ok());
            assert(s.wf());
        }
        let mut lvl: usize = 0;
        while lvl < height
            invariant
                s.wf(),
                s.page_count() == cnt,
                s.base() == first_page,
                s.spec_height() == height,
                height < MAX_HEIGHT,
                lvl <= height,
                s.used_pages() == 0,
                forall|i: int| !#[trigger] s.is_allocated(i),
                s.settled(lvl as int),
            decreases height - lvl,
        {
            let shift = lvl + 1;
            let step = 1usize << shift;
            proof {
                vstd::bits::lemma_usize_pow2_no_overflow(shift as nat);
                vstd::bits::lemma_usize_shl_is_mul(1, shift);
            }
            let mut i: usize = 0;
            while i < cnt
                invariant
                    s.wf(),
                    s.page_count() == cnt,
                    s.base() == first_page,
                    s.spec_height() == height,
                    s.used_pages() == 0,
                    lvl < height < MAX_HEIGHT,
                    step == pow2(lvl as nat + 1),
                    step > 0,
                    i <= cnt,
                    (i as int) % (step as int) == 0 || i == cnt,
                    forall|i: int| !#[trigger] s.is_allocated(i),
                    s.settled(lvl as int),
                    s.swept(lvl as int, i as int),
                decreases cnt - i,
            {
                let ghost before = s;
                if s.nodes[i].object.is_free() {
                    let r = s.go_up_once(i);
                    proof {
                        if before.mergeable(i as int) {
                            assert(r is Some);
                            let l = before.block_level(i as int);
                            let b = buddy_index(i as int, l);
                            let m = if b < i { b } else { i as int };
                            assert(r->0 == m);
                            assert(s.block_level(m) == l + 1);
                            assert forall|j: int| 0 <= j < before.page_count() && m <= j < m + pow2(l + 1)
                                implies #[trigger] s.head_of(j) == m by {
                                assert(s.head_of(j) == m);
                            }
                            assert forall|j: int|
                                0 <= j < before.page_count() && !(m <= j < m + pow2(l + 1))
                                    implies #[trigger] s.frame(j) == before.frame(j) && s.head_of(j) == before.head_of(j) by {
                                assert(s.frame(j) == before.frame(j));
                                assert(s.head_of(j) == before.head_of(j));
                            }
                            assert(Single::visited(before, s, i as int));
                        }
                        if !before.mergeable(i as int) {
                            assert(r is None);
                            assert(s == before);
                        }
                        assert(before.frame(i as int).free);
                        assert(Single::visited(before, s, i as int));
                    }
                } else {
                    proof {
                        assert(Single::visited(before, s, i as int));
                    }
                }
                let ghost after = s;
                let ghost i0 = i as int;
                if cnt - i > step {
                    proof {
                        vstd::arithmetic::div_mod::lemma_fundamental_div_mod(i as int, step as int);
                        let q = i as int / step as int;
                        assert(i + step == (q + 1) * step + 0) by (nonlinear_arith)
                            requires
                                i == step * q + 0,
                        ;
                        vstd::arithmetic::div_mod::lemma_fundamental_div_mod_converse_mod(
                            i + step,
                            step as int,
                            i as int / step as int + 1,
                            0,
                        );
                    }
                    i = i + step;
                } else {
                    i = cnt;
                }
                proof {
                    Single::lemma_sweep_step(before, after, lvl as nat, i0, step as int);
                }
            }
            proof {
                assert forall|h: int| 0 <= h < s.page_count() && #[trigger] s.frame(h).free && s.mergeable(h)
                    implies s.block_level(h) >= lvl + 1 by {
                    s.lemma_node_facts(h, 0);
                    lemma_buddy_aligned(h, s.block_level(h));
                }
            }
            lvl += 1;
        }
        proof {
            assert forall|h: int| 0 <= h < s.page_count() && #[trigger] s.frame(h).free implies !s.mergeable(h) by {}
        }
        s
    }

    /// The allocator for one region of the memory map, or `None` when the
    /// region is unavailable or too small. Room for the header and one node
    /// per page is kept at the start of the region; the pages are the last
    /// `cnt` whole pages of it.
    pub fn new(entry: &MemoryMapEntry) -> (r: Option<Single>)
        ensures
            r is Some <==> region_fits(*entry),
            layout_small() ==> (r is Some <==> (entry.available && region_begin(*entry) + MIN_SIZE
                <= region_end(*entry))),
            layout_small() && r is Some ==> r->0.page_count() >= 3,
            r matches Some(s) ==> {
                &&& s.wf()
                &&& s.page_count() == region_pages(*entry)
                &&& s.base() == region_end(*entry) - s.page_count() * PAGE_SIZE
                &&& s.base() >= region_begin(*entry) + size_of::<Single>() + s.page_count()
                    * size_of::<Node<Frame>>()
                &&& height_for(s.spec_height(), s.page_count())
                &&& s.coalesced()
                &&& s.free_pages() == s.page_count()
                &&& s.used_pages() == 0
                &&& forall|i: int| !#[trigger] s.is_allocated(i)
            },
    {
        proof {
            if layout_small() {
                lemma_region_fits(*entry);
            }
        }
        let start = entry.start();
        let end = entry.end() - entry.end() % PAGE_SIZE;
        if !entry.is_available() || start > end || end - start < MIN_SIZE {
            return None;
        }
        let begin = (start + (PADDING - 1)) / PADDING * PADDING;
        proof {
            vstd::arithmetic::div_mod::lemma_fundamental_div_mod(start + 7, 8);
        }
        if begin + MIN_SIZE > end {
            return None;
        }
        let header = core::mem::size_of::<Single>();
        let node_size = core::mem::size_of::<Node<Frame>>();
        if header > end - begin || node_size > usize::MAX - PAGE_SIZE {
            return None;
        }
        let cnt = (end - begin - header) / (PAGE_SIZE + node_size);
        if cnt < 1 {
            return None;
        }
        proof {
            let x = end - begin - header;
            let d = PAGE_SIZE + node_size;
            vstd::arithmetic::div_mod::lemma_fundamental_div_mod(x as int, d as int);
            assert(cnt * d <= x) by (nonlinear_arith)
                requires
                    x == d * cnt + x % d,
                    x % d >= 0,
            ;
            assert(cnt * d == cnt * PAGE_SIZE + cnt * node_size) by (nonlinear_arith)
                requires
                    d == PAGE_SIZE + node_size,
            ;
            assert(cnt * node_size >= 0) by (nonlinear_arith)
                requires
                    cnt >= 1,
                    node_size >= 0,
            ;
        }
        let first_page = end - PAGE_SIZE * cnt;
        Some(Single::with_page_count(first_page, cnt))
    }
    /// The number of levels in use.
    pub fn height(&self) -> (r: usize)
        ensures
            r == self.spec_height(),
    {
        self.height
    }

    /// The number of pages managed.
    pub fn pages(&self) -> (r: usize)
        ensures
            r == self.page_count(),
    {
        self.nodes.len()
    }

    /// The address of the first managed page.
    pub fn first_page(&self) -> (r: usize)
        ensures
            r == self.base(),
    {
        self.first_page
    }

    /// Whether node `num` is marked occupied (handed out, or absorbed into a
    /// larger block).
    pub fn is_occupied(&self, num: usize) -> (r: bool)
        requires
            num < self.page_count(),
        ensures
            r == !self.frame(num as int).free,
    {
        self.nodes[num].object.is_occupied()
    }

    /// The nodes heading the free blocks of level `level`, in list order.
    pub fn free_blocks(&self, level: usize) -> (r: Vec<usize>)
        requires
            self.wf(),
            level < self.spec_height(),
        ensures
            r@ == self.free_list(level as int),
    {
        let ghost s = self.lists@[level as int]@;
        proof {
            assert(self.lists@[level as int].wf(self.nodes@));
        }
        let mut out: Vec<usize> = Vec::new();
        let mut cur = self.lists[level].first();
        loop
            invariant
                self.wf(),
                level < self.height,
                s == self.lists@[level as int]@,
                out@.len() <= s.len(),
                out@ == s.subrange(0, out@.len() as int),
                cur == (if out@.len() < s.len() {
                    Some(s[out@.len() as int])
                } else {
                    None::<usize>
                }),
            ensures
                out@ == s,
            decreases s.len() - out@.len(),
        {
            match cur {
                Some(c) => {
                    proof {
                        assert(self.lists@[level as int].wf(self.nodes@));
                        assert(self.nodes@[s[out@.len() as int] as int].next == crate::inplace_list::next_link(s, out@.len() as int));
                    }
                    out.push(c);
                    cur = self.nodes[c].next;
                    proof {
                        assert(out@ =~= s.subrange(0, out@.len() as int));
                    }
                },
                None => {
                    proof {
                        assert(out@ =~= s);
                    }
                    break ;
                },
            }
        }
        out
    }

    /// The pages of free blocks and the pages handed out add up to all pages.
    pub proof fn lemma_conservation(&self)
        requires
            self.wf(),
        ensures
            self.free_pages() + self.used_pages() == self.page_count(),
    {
    }

    /// Two distinct outstanding blocks share no page, and each lies within
    /// the managed pages.
    pub proof fn lemma_no_overlap(&self, a: int, b: int)
        requires
            self.wf(),
            self.is_allocated(a),
            self.is_allocated(b),
            a != b,
        ensures
            a + pow2(self.block_level(a)) <= b || b + pow2(self.block_level(b)) <= a,
            a + pow2(self.block_level(a)) <= self.page_count(),
    {
        assert(self.owner@[a] == a);
        assert(self.owner@[b] == b);
        if !(a + pow2(self.block_level(a)) <= b || b + pow2(self.block_level(b)) <= a) {
            if a < b {
                assert(self.owner@[b] == a);
            } else {
                assert(self.owner@[a] == b);
            }
        }
    }

    /// When every page has been handed out, no level holds a free block, so
    /// `allocate` returns `None` at every level.
    pub proof fn lemma_exhausted(&self)
        requires
            self.wf(),
            self.used_pages() == self.page_count(),
        ensures
            forall|l: int| 0 <= l < self.spec_height() ==> #[trigger] self.free_list(l).len() == 0,
    {
        lemma_weighted_zero(self.free_counts(), self.spec_height());
        assert forall|l: int| 0 <= l < self.spec_height() implies #[trigger] self.free_list(l).len() == 0 by {
            assert(self.free_counts()[l] == 0);
        }
    }
    /// Two states over the same pages with the same outstanding blocks have
    /// the same pages in use and the same number of free pages. By the
    /// contracts of `allocate` and `deallocate`, handing out a block and
    /// taking it straight back restores the outstanding blocks, and so both
    /// counts.
    pub proof fn lemma_pages_follow_allocations(&self, other: &Single)
        requires
            self.wf(),
            other.wf(),
            self.page_count() == other.page_count(),
            self.same_allocations(other),
        ensures
            self.used_pages() == other.used_pages(),
            self.free_pages() == other.free_pages(),
    {
        let cnt = self.nodes@.len() as int;
        assert forall|p: int| 0 <= p < cnt implies self.in_use()[p] == other.in_use()[p] by {
            let h = self.owner@[p];
            let g = other.owner@[p];
            assert(self.owner@[h] == h);
            assert(other.owner@[g] == g);
            if self.in_use()[p] {
                assert(self.is_allocated(h));
                assert(other.is_allocated(h));
                assert(other.owner@[h] == h);
                assert(other.owner@[p] == h);
            }
            if other.in_use()[p] {
                assert(other.is_allocated(g));
                assert(self.is_allocated(g));
                assert(self.owner@[g] == g);
                assert(self.owner@[p] == g);
            }
        }
        lemma_count_same(self.in_use(), other.in_use(), cnt as nat);
    }
    /// What the invariant says of one node: its index is its `num`, its level
    /// is below the height, it is listed at a level exactly when it is free at
    /// that level, and a free node heads an aligned block within the pages.
    pub proof fn lemma_node_facts(&self, i: int, l: int)
        requires
            self.wf(),
            0 <= i < self.page_count(),
            0 <= l < self.spec_height(),
        ensures
            self.frame(i).num == i,
            self.block_level(i) < self.spec_height(),
            self.free_list(l).contains(i as usize) <==> (self.frame(i).free && self.block_level(i) == l),
            self.frame(i).free ==> !self.is_allocated(i) && self.head_of(i) == i && aligned(i, self.block_level(i))
                && i + pow2(self.block_level(i)) <= self.page_count(),
            !self.frame(i).free && self.head_of(i) == i ==> self.is_allocated(i),
            0 <= self.head_of(i) <= i < self.head_of(i) + pow2(self.block_level(self.head_of(i))),
    {
        assert(self.nodes@[i].object.num == i);
        let s = self.lists@[l]@;
        assert(self.lists@[l].wf(self.nodes@));
        if s.contains(i as usize) {
            let k = choose|k: int| 0 <= k < s.len() && s[k] == i as usize;
            assert(self.nodes@[s[k] as int].object.free);
            assert(self.nodes@[s[k] as int].object.level == l);
        }
        if self.nodes@[i].object.free {
            assert(self.owner@[i] == i);
        }
        assert(0 <= self.owner@[i]);
    }

    /// The levels in use are at least one and below `MAX_HEIGHT`, and each free
    /// list holds distinct node indices below `page_count()`, all free at that
    /// list's level.
    pub proof fn lemma_lists_facts(&self, l: int)
        requires
            self.wf(),
        ensures
            1 <= self.spec_height() < MAX_HEIGHT,
            0 <= l < self.spec_height() ==> {
                &&& self.free_list(l).no_duplicates()
                &&& forall|k: int|
                    0 <= k < self.free_list(l).len() ==> #[trigger] self.free_list(l)[k] < self.page_count()
                        && self.frame(self.free_list(l)[k] as int).free
                        && self.block_level(self.free_list(l)[k] as int) == l
            },
    {
        if 0 <= l < self.spec_height() {
            assert(self.lists@[l].wf(self.nodes@));
            assert forall|k: int| 0 <= k < self.free_list(l).len() implies #[trigger] self.free_list(l)[k]
                < self.page_count() && self.frame(self.free_list(l)[k] as int).free
                && self.block_level(self.free_list(l)[k] as int) == l by {
                assert(self.nodes@[self.lists@[l]@[k] as int].object.free);
                assert(self.nodes@[self.lists@[l]@[k] as int].object.level == l);
            }
        }
    }

    /// A free block shares no page with an outstanding block.
    pub proof fn lemma_free_not_allocated(&self, f: int, a: int)
        requires
            self.wf(),
            0 <= f < self.page_count(),
            self.frame(f).free,
            self.is_allocated(a),
        ensures
            f != a,
            f + pow2(self.block_level(f)) <= a || a + pow2(self.block_level(a)) <= f,
    {
        assert(self.nodes@[f].object.free);
        assert(self.owner@[f] == f);
        assert(self.owner@[a] == a);
        if !(f + pow2(self.block_level(f)) <= a || a + pow2(self.block_level(a)) <= f) {
            if f < a {
                assert(self.owner@[a] == f);
            } else {
                assert(self.owner@[f] == a);
            }
        }
    }
}

} // verus!