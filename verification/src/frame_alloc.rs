//! Physical-frame liveness tracking: a bitset of occupancy bits arranged as
//! a complete binary tree (each internal bit is the AND of its children), and
//! the segment-tree allocator built on it, with O(log capacity) allocate and
//! free.
use vstd::prelude::*;

use crate::bits::bit_at;

verus! {

/// A fixed-size set of bits packed into machine words.
pub struct BitSet {
    pub buf: Vec<u64>,
}

impl View for BitSet {
    type V = Seq<bool>;

    open spec fn view(&self) -> Seq<bool> {
        Seq::new((self.buf@.len() * 64) as nat, |i: int| bit_at(self.buf@[i / 64], (i % 64) as u64))
    }
}

proof fn lemma_or_bit(w: u64, i: u64, j: u64)
    requires
        i < 64,
        j < 64,
    ensures
        bit_at((w | (1u64 << i)) as u64, j) == if i == j {
            true
        } else {
            bit_at(w, j)
        },
{
    assert(((w | (1u64 << i)) >> j) & 1 == (if i == j {
        1u64
    } else {
        (w >> j) & 1
    })) by (bit_vector)
        requires
            i < 64 && j < 64,
    ;
}

proof fn lemma_clear_bit(w: u64, i: u64, j: u64)
    requires
        i < 64,
        j < 64,
    ensures
        bit_at((w & !(1u64 << i)) as u64, j) == if i == j {
            false
        } else {
            bit_at(w, j)
        },
{
    assert(((w & !(1u64 << i)) >> j) & 1 == (if i == j {
        0u64
    } else {
        (w >> j) & 1
    })) by (bit_vector)
        requires
            i < 64 && j < 64,
    ;
}

impl BitSet {
    /// A bitset of at least `nbits` bits, all clear.
    pub fn new(nbits: usize) -> (r: Self)
        requires
            nbits <= usize::MAX - 63,
        ensures
            r@.len() == ((nbits + 63) / 64) * 64,
            nbits <= r@.len(),
            forall|i: int| 0 <= i < r@.len() ==> r@[i] == false,
    {
        let words = (nbits + 63) / 64;
        let buf: Vec<u64> = vec![0u64; words];
        let r = BitSet { buf };
        proof {
            assert(nbits <= words * 64) by (nonlinear_arith)
                requires
                    words == (nbits + 63) / 64,
            ;
            assert forall|i: int| 0 <= i < r@.len() implies r@[i] == false by {
                let j = (i % 64) as u64;
                assert((0u64 >> j) & 1 == 0) by (bit_vector);
            }
        }
        r
    }

    /// The number of bits the set holds.
    pub fn cap(&self) -> (r: usize)
        requires
            self.buf@.len() * 64 <= usize::MAX,
        ensures
            r == self@.len(),
    {
        self.buf.len() * 64
    }

    /// Read bit `idx`.
    pub fn get(&self, idx: usize) -> (r: bool)
        requires
            idx < self@.len(),
    ensures
            r == self@[idx as int],
    {
        proof {
            assert(idx / 64 < self.buf@.len()) by (nonlinear_arith)
                requires
                    idx < self.buf@.len() * 64,
            ;
        }
        let w = self.buf[idx / 64];
        let r = w & (1u64 << (idx % 64)) > 0;
        proof {
            let j = (idx % 64) as u64;
            assert(j < 64 ==> (w & (1u64 << j) > 0) == ((w >> j) & 1 == 1)) by (bit_vector);
        }
        r
    }

    /// Set bit `idx`.
    pub fn set(&mut self, idx: usize)
        requires
            idx < old(self)@.len(),
        ensures
            final(self)@ == old(self)@.update(idx as int, true),
    {
        self.write(idx, true)
    }

    /// Clear bit `idx`.
    pub fn reset(&mut self, idx: usize)
        requires
            idx < old(self)@.len(),
        ensures
            final(self)@ == old(self)@.update(idx as int, false),
    {
        self.write(idx, false)
    }

    /// Force bit `idx` to `v`.
    pub fn write(&mut self, idx: usize, v: bool)
        requires
            idx < old(self)@.len(),
        ensures
            final(self)@ == old(self)@.update(idx as int, v),
    {
        proof {
            assert(idx / 64 < self.buf@.len()) by (nonlinear_arith)
                requires
                    idx < self.buf@.len() * 64,
            ;
        }
        let word_idx = idx / 64;
        let bit_idx = idx % 64;
        let w = self.buf[word_idx];
        let new_w = if v {
            w | (1u64 << bit_idx)
        } else {
            w & !(1u64 << bit_idx)
        };
        self.buf.set(word_idx, new_w);
        proof {
            let s_old = old(self)@;
            let s_new = self@;
            assert(s_new.len() == s_old.len());
            assert forall|k: int| 0 <= k < s_new.len() implies s_new[k] == (if k == idx {
                v
            } else {
                s_old[k]
            }) by {
                let i = (idx % 64) as u64;
                let j = (k % 64) as u64;
                if k / 64 == idx as int / 64 {
                    if v {
                        lemma_or_bit(w, i, j);
                    } else {
                        lemma_clear_bit(w, i, j);
                    }
                    if i == j {
                        vstd::arithmetic::div_mod::lemma_fundamental_div_mod(k, 64);
                        vstd::arithmetic::div_mod::lemma_fundamental_div_mod(idx as int, 64);
                        assert(k == idx);
                    }
                } else {
                    assert(s_new[k] == s_old[k]);
                }
            }
            assert(s_new =~= s_old.update(idx as int, v));
        }
    }
}


/// Number of occupied pages among `[lo, hi)`, reading leaf bits at offset
/// `cap` in the occupancy sequence.
pub open spec fn count_occupied(s: Seq<bool>, cap: int, lo: int, hi: int) -> int
    decreases hi - lo,
{
    if lo >= hi {
        0
    } else {
        count_occupied(s, cap, lo, hi - 1) + if s[cap + hi - 1] {
            1int
        } else {
            0int
        }
    }
}

proof fn lemma_count_bounds(s: Seq<bool>, cap: int, lo: int, hi: int)
    requires
        lo <= hi,
    ensures
        0 <= count_occupied(s, cap, lo, hi) <= hi - lo,
    decreases hi - lo,
{
    if lo < hi {
        lemma_count_bounds(s, cap, lo, hi - 1);
    }
}

/// Flipping one leaf changes the count by exactly its delta; leaves outside
/// the counted range leave it unchanged.
proof fn lemma_count_update(s: Seq<bool>, cap: int, lo: int, hi: int, p: int, v: bool)
    requires
        0 <= lo <= hi,
        0 <= cap,
        cap + hi <= s.len(),
        0 <= cap + p < s.len(),
    ensures
        count_occupied(s.update(cap + p, v), cap, lo, hi) == if lo <= p < hi {
            count_occupied(s, cap, lo, hi) - (if s[cap + p] {
                1int
            } else {
                0int
            }) + (if v {
                1int
            } else {
                0int
            })
        } else {
            count_occupied(s, cap, lo, hi)
        },
    decreases hi - lo,
{
    let s2 = s.update(cap + p, v);
    if lo < hi {
        lemma_count_update(s, cap, lo, hi - 1, p, v);
        if p == hi - 1 {
            assert(s2[cap + hi - 1] == v);
        } else {
            assert(s2[cap + hi - 1] == s[cap + hi - 1]);
        }
    }
}

/// Two sequences with equal leaf bits over the counted range count alike.
proof fn lemma_count_agree(s1: Seq<bool>, s2: Seq<bool>, cap: int, lo: int, hi: int)
    requires
        lo <= hi,
        forall|p: int| lo <= p < hi ==> #[trigger] s1[cap + p] == s2[cap + p],
    ensures
        count_occupied(s1, cap, lo, hi) == count_occupied(s2, cap, lo, hi),
    decreases hi - lo,
{
    if lo < hi {
        lemma_count_agree(s1, s2, cap, lo, hi - 1);
    }
}

proof fn lemma_count_all_occupied(s: Seq<bool>, cap: int, lo: int, hi: int)
    requires
        lo <= hi,
        forall|p: int| lo <= p < hi ==> #[trigger] s[cap + p],
    ensures
        count_occupied(s, cap, lo, hi) == hi - lo,
    decreases hi - lo,
{
    if lo < hi {
        lemma_count_all_occupied(s, cap, lo, hi - 1);
    }
}

proof fn lemma_count_all_free(s: Seq<bool>, cap: int, lo: int, hi: int)
    requires
        lo <= hi,
        forall|p: int| lo <= p < hi ==> !(#[trigger] s[cap + p]),
    ensures
        count_occupied(s, cap, lo, hi) == 0,
    decreases hi - lo,
{
    if lo < hi {
        lemma_count_all_free(s, cap, lo, hi - 1);
    }
}

proof fn lemma_count_at_least_one(s: Seq<bool>, cap: int, lo: int, hi: int, q: int)
    requires
        lo <= q < hi,
        s[cap + q],
    ensures
        count_occupied(s, cap, lo, hi) >= 1,
    decreases hi - lo,
{
    if q < hi - 1 {
        lemma_count_at_least_one(s, cap, lo, hi - 1, q);
        lemma_count_bounds(s, cap, lo, hi);
        assert(count_occupied(s, cap, lo, hi) == count_occupied(s, cap, lo, hi - 1) + if s[cap + hi
            - 1] {
            1int
        } else {
            0int
        });
    } else {
        lemma_count_bounds(s, cap, lo, hi - 1);
    }
}

/// Whether node `a` lies on the halving path from node `q` up to the root.
pub open spec fn is_anc(a: int, q: int) -> bool
    decreases q,
{
    q >= 1 && (a == q || (q > 1 && is_anc(a, q / 2)))
}

proof fn lemma_anc_le(a: int, q: int)
    requires
        is_anc(a, q),
    ensures
        1 <= a <= q,
    decreases q,
{
    if a != q {
        lemma_anc_le(a, q / 2);
    }
}

/// Whether every page in the subtree rooted at node `i` is occupied; node
/// indices at or above `cap` are the leaves themselves.
pub open spec fn subtree_full(s: Seq<bool>, cap: int, i: int) -> bool
    decreases 2 * cap - i when 1 <= i && cap >= 1
{
    if i >= cap {
        s[i]
    } else {
        subtree_full(s, cap, 2 * i) && subtree_full(s, cap, 2 * i + 1)
    }
}

/// `subtree_full` reads leaf bits only: updating an internal node does not
/// change it.
proof fn lemma_subtree_ignores_internal(s1: Seq<bool>, s2: Seq<bool>, cap: int, i: int)
    requires
        cap >= 1,
        1 <= i < 2 * cap,
        s1.len() == s2.len(),
        forall|l: int| cap <= l < 2 * cap ==> #[trigger] s1[l] == s2[l],
    ensures
        subtree_full(s1, cap, i) == subtree_full(s2, cap, i),
    decreases 2 * cap - i,
{
    if i < cap {
        lemma_subtree_ignores_internal(s1, s2, cap, 2 * i);
        lemma_subtree_ignores_internal(s1, s2, cap, 2 * i + 1);
    }
}

/// Setting a leaf can only turn subtrees from free toward full, never back.
proof fn lemma_subtree_monotone(s1: Seq<bool>, s2: Seq<bool>, cap: int, i: int)
    requires
        cap >= 1,
        1 <= i < 2 * cap,
        s1.len() == s2.len(),
        forall|l: int| cap <= l < 2 * cap && #[trigger] s1[l] ==> #[trigger] s2[l],
        subtree_full(s1, cap, i),
    ensures
        subtree_full(s2, cap, i),
    decreases 2 * cap - i,
{
    if i < cap {
        lemma_subtree_monotone(s1, s2, cap, 2 * i);
        lemma_subtree_monotone(s1, s2, cap, 2 * i + 1);
    }
}

/// A full root makes every node's subtree full.
proof fn lemma_root_full_all(s: Seq<bool>, cap: int, q: int)
    requires
        cap >= 1,
        subtree_full(s, cap, 1),
        1 <= q < 2 * cap,
    ensures
        subtree_full(s, cap, q),
    decreases q,
{
    if q > 1 {
        lemma_root_full_all(s, cap, q / 2);
        assert(q == 2 * (q / 2) || q == 2 * (q / 2) + 1);
    }
}

/// A node on the path above a free leaf cannot have a full subtree.
proof fn lemma_anc_not_full(s: Seq<bool>, cap: int, a: int, q: int)
    requires
        cap >= 1,
        1 <= q < 2 * cap,
        is_anc(a, q),
        !subtree_full(s, cap, q),
    ensures
        !subtree_full(s, cap, a),
    decreases q,
{
    if a != q {
        assert(q == 2 * (q / 2) || q == 2 * (q / 2) + 1);
        assert(!subtree_full(s, cap, q / 2));
        lemma_anc_not_full(s, cap, a, q / 2);
    }
}

/// When every leaf is occupied, every node's subtree is full.
proof fn lemma_all_leaves_full(s: Seq<bool>, cap: int, i: int)
    requires
        cap >= 1,
        1 <= i < 2 * cap,
        forall|l: int| cap <= l < 2 * cap ==> #[trigger] s[l],
    ensures
        subtree_full(s, cap, i),
    decreases 2 * cap - i,
{
    if i < cap {
        lemma_all_leaves_full(s, cap, 2 * i);
        lemma_all_leaves_full(s, cap, 2 * i + 1);
    }
}


/// Tracks liveness of physical page frames over the range `[low, high)` of
/// page numbers, as leaves of a complete binary tree of occupancy bits: leaf
/// `cap + p` means page `p` is occupied, and each internal bit is the AND of
/// its two children. Allocation descends from the root toward a free leaf in
/// O(log cap); freeing clears the leaf and its whole ancestor path.
pub struct SegmentTreeAllocator {
    /// The tree's occupancy bits; node `i`'s children are `2i` and `2i + 1`.
    pub occupied: BitSet,
    /// Number of leaf slots (the largest page number the tree can track).
    pub cap: usize,
    /// Number of live allocations inside `[low, high)`.
    pub len: usize,
    /// First usable page number.
    pub low: usize,
    /// One past the last usable page number.
    pub high: usize,
}

/// A node above another node's halving path extends to the path of any of
/// that node's descendants.
proof fn lemma_anc_parent(c: int, q: int)
    requires
        is_anc(c, q),
        c > 1,
    ensures
        is_anc(c / 2, q),
    decreases q,
{
    if c == q {
        assert(is_anc(c / 2, c / 2));
    } else {
        lemma_anc_parent(c, q / 2);
    }
}

/// Updating a leaf that is not in the subtree of `j` leaves `j`'s fullness
/// unchanged.
proof fn lemma_subtree_skip_nonanc(s: Seq<bool>, cap: int, j: int, x: int, v: bool)
    requires
        cap >= 1,
        1 <= j < 2 * cap,
        cap <= x < 2 * cap,
        x < s.len(),
        2 * cap <= s.len(),
        !is_anc(j, x),
    ensures
        subtree_full(s.update(x, v), cap, j) == subtree_full(s, cap, j),
    decreases 2 * cap - j,
{
    if j >= cap {
        assert(j != x);
    } else {
        assert(!is_anc(2 * j, x)) by {
            if is_anc(2 * j, x) {
                lemma_anc_parent(2 * j, x);
            }
        }
        assert(!is_anc(2 * j + 1, x)) by {
            if is_anc(2 * j + 1, x) {
                lemma_anc_parent(2 * j + 1, x);
            }
        }
        lemma_subtree_skip_nonanc(s, cap, 2 * j, x, v);
        lemma_subtree_skip_nonanc(s, cap, 2 * j + 1, x, v);
    }
}

impl SegmentTreeAllocator {
    /// Occupancy bit of page `p`.
    pub open spec fn leaf(self, p: int) -> bool {
        self.occupied@[self.cap + p]
    }

    /// Whether page `p` is currently available for allocation.
    pub open spec fn is_free(self, p: int) -> bool {
        self.low <= p < self.high && !self.leaf(p)
    }

    /// Number of pages available for allocation.
    pub open spec fn free_count(self) -> int {
        (self.high - self.low) - self.len
    }

    /// Structural invariant: the bit tree is exactly the AND-tree of its
    /// leaves, pages outside `[low, high)` stay permanently occupied, and
    /// `len` counts the occupied in-range leaves.
    pub open spec fn wf(self) -> bool {
        &&& 1 <= self.cap <= 0x1000_0000
        &&& 2 * self.cap <= self.occupied@.len()
        &&& self.low <= self.high <= self.cap
        &&& self.len <= self.high - self.low
        &&& forall|i: int|
            1 <= i < 2 * self.cap ==> #[trigger] self.occupied@[i] == subtree_full(
                self.occupied@,
                self.cap as int,
                i,
            )
        &&& forall|p: int|
            0 <= p < self.cap && !(self.low <= p < self.high) ==> #[trigger] self.occupied@[
                self.cap + p]
        &&& self.len == count_occupied(
            self.occupied@,
            self.cap as int,
            self.low as int,
            self.high as int,
        )
    }

    /// A new allocator able to track `cap` pages. Every page starts occupied
    /// and the usable range is empty until `init` declares it.
    pub fn new(cap: usize) -> (r: Self)
        requires
            1 <= cap <= 0x1000_0000,
        ensures
            r.wf(),
            r.cap == cap,
            r.low == 0,
            r.high == 0,
            r.len == 0,
    {
        let mut occupied = BitSet::new(2 * cap);
        let mut i: usize = 1;
        while i < 2 * cap
            invariant
                1 <= cap <= 0x1000_0000,
                1 <= i <= 2 * cap,
                2 * cap <= occupied@.len(),
                forall|k: int| 1 <= k < i ==> #[trigger] occupied@[k],
            decreases 2 * cap - i,
        {
            occupied.set(i);
            i += 1;
        }
        let r = SegmentTreeAllocator { occupied, cap, len: 0, low: 0, high: 0 };
        proof {
            assert forall|j: int|
                1 <= j < 2 * r.cap implies #[trigger] r.occupied@[j] == subtree_full(
                r.occupied@,
                r.cap as int,
                j,
            ) by {
                lemma_all_leaves_full(r.occupied@, r.cap as int, j);
            }
        }
        r
    }

    /// Declare `[l, r)` as the usable page range: its pages become free, all
    /// others permanently occupied, and the internal tree bits are rebuilt
    /// bottom-up to match.
    pub fn init(&mut self, l: usize, r: usize)
        requires
            old(self).wf(),
            l <= r <= old(self).cap,
        ensures
            final(self).wf(),
            final(self).cap == old(self).cap,
            final(self).low == l,
            final(self).high == r,
            final(self).len == 0,
            final(self).free_count() == r - l,
            forall|p: int| l <= p < r ==> final(self).is_free(p),
    {
        let cap = self.cap;
        let ghost cap_i = cap as int;
        let mut p: usize = 0;
        while p < cap
            invariant
                cap_i == cap as int,
                0 <= p <= cap,
                cap == self.cap,
                self.low == old(self).low,
                self.high == old(self).high,
                self.len == old(self).len,
                1 <= cap <= 0x1000_0000,
                l <= r <= cap,
                2 * cap <= self.occupied@.len(),
                forall|q: int|
                    0 <= q < p ==> #[trigger] self.occupied@[cap_i + q] == !(l <= q < r),
            decreases cap - p,
        {
            if l <= p && p < r {
                self.occupied.reset(cap + p);
            } else {
                self.occupied.set(cap + p);
            }
            p += 1;
        }
        let mut i: usize = cap;
        while i > 1
            invariant
                cap_i == cap as int,
                1 <= i <= cap,
                cap == self.cap,
                self.low == old(self).low,
                self.high == old(self).high,
                self.len == old(self).len,
                1 <= cap <= 0x1000_0000,
                l <= r <= cap,
                2 * cap <= self.occupied@.len(),
                forall|q: int|
                    0 <= q < cap ==> #[trigger] self.occupied@[cap_i + q] == !(l <= q < r),
                forall|j: int|
                    i <= j < 2 * cap ==> #[trigger] self.occupied@[j] == subtree_full(
                        self.occupied@,
                        cap_i,
                        j,
                    ),
            decreases i,
        {
            i -= 1;
            let full = self.occupied.get(2 * i) && self.occupied.get(2 * i + 1);
            let ghost pre = self.occupied@;
            self.occupied.write(i, full);
            proof {
                assert forall|j: int|
                    i <= j < 2 * cap implies #[trigger] self.occupied@[j] == subtree_full(
                    self.occupied@,
                    cap_i,
                    j,
                ) by {
                    lemma_subtree_ignores_internal(pre, self.occupied@, cap_i, j);
                    if j != i {
                        assert(self.occupied@[j] == pre[j]);
                    }
                }
            }
        }
        self.len = 0;
        self.low = l;
        self.high = r;
        proof {
            lemma_count_all_free(self.occupied@, cap_i, l as int, r as int);
        }
    }

    /// Allocate one free page, returning its page number, or `None` when
    /// every usable page is occupied. The returned page is not the smallest
    /// free page number in general.
    pub fn allocate(&mut self) -> (res: Option<usize>)
        requires
            old(self).wf(),
        ensures
            final(self).wf(),
            final(self).cap == old(self).cap,
            final(self).low == old(self).low,
            final(self).high == old(self).high,
            match res {
                Some(p) => {
                    &&& old(self).is_free(p as int)
                    &&& final(self).len == old(self).len + 1
                    &&& forall|q: int|
                        0 <= q < old(self).cap ==> final(self).leaf(q) == (q == p || old(
                            self,
                        ).leaf(q))
                },
                None => {
                    &&& old(self).free_count() == 0
                    &&& final(self).occupied@ == old(self).occupied@
                    &&& final(self).len == old(self).len
                },
            },
    {
        let cap = self.cap;
        let ghost cap_i = cap as int;
        let ghost s0 = self.occupied@;
        if self.occupied.get(1) {
            proof {
                assert forall|p2: int|
                    self.low <= p2 < self.high implies #[trigger] s0[cap_i + p2] by {
                    lemma_root_full_all(s0, cap_i, cap_i + p2);
                }
                lemma_count_all_occupied(s0, cap_i, self.low as int, self.high as int);
            }
            return None;
        }
        let mut x: usize = 1;
        while x < cap
            invariant
                cap_i == cap as int,
                1 <= x < 2 * cap,
                cap == self.cap,
                self.wf(),
                self.occupied@ == s0,
                !self.occupied@[x as int],
            decreases 2 * cap - x,
        {
            x *= 2;
            if self.occupied.get(x) {
                x += 1;
            }
        }
        // x is a free leaf; by the outside-range invariant its page is usable.
        let p = x - cap;
        proof {
            assert(!self.occupied@[cap_i + p]);
            assert(self.low <= p < self.high);
            lemma_count_at_least_one_contra(s0, cap_i, self.low as int, self.high as int, p as int);
            lemma_count_bounds(s0, cap_i, self.low as int, self.high as int);
        }
        let ghost before = self.occupied@;
        self.occupied.set(x);
        self.len += 1;
        proof {
            lemma_count_update(before, cap_i, self.low as int, self.high as int, p as int, true);
        }
        // restore the internal bits along the path from the leaf to the root
        let mut q = x;
        proof {
            assert forall|j: int|
                1 <= j < 2 * cap_i && !(is_anc(j, q as int) && j != q) implies #[trigger] self.occupied@[j]
                == subtree_full(self.occupied@, cap_i, j) by {
                if j == x {
                    assert(self.occupied@[j]);
                } else {
                    assert(self.occupied@[j] == before[j]);
                    assert(!is_anc(j, x as int));
                    lemma_subtree_skip_nonanc(before, cap_i, j, x as int, true);
                }
            }
            assert forall|j: int|
                1 <= j < 2 * cap_i && is_anc(j, q as int) && j != q implies #[trigger] self.occupied@[j]
                == before[j] by {
                assert(self.occupied@[j] == before.update(x as int, true)[j]);
            }
        }
        while q > 1
            invariant
                cap_i == cap as int,
                cap == self.cap,
                1 <= cap <= 0x1000_0000,
                1 <= q < 2 * cap,
                cap <= x < 2 * cap,
                is_anc(q as int, x as int),
                2 * cap <= self.occupied@.len(),
                self.occupied@.len() == before.len(),
                before.len() == s0.len(),
                forall|l2: int|
                    cap_i <= l2 < 2 * cap_i ==> #[trigger] self.occupied@[l2] == before.update(
                        x as int,
                        true,
                    )[l2],
                forall|j: int|
                    1 <= j < 2 * cap_i && is_anc(j, q as int) && j != q
                        ==> #[trigger] self.occupied@[j] == before[j],
                forall|j: int|
                    1 <= j < 2 * cap_i && !(is_anc(j, q as int) && j != q)
                        ==> #[trigger] self.occupied@[j] == subtree_full(self.occupied@, cap_i, j),
                old(self).wf(),
                before == old(self).occupied@,
                cap == old(self).cap,
                self.low == old(self).low,
                self.high == old(self).high,
                self.len == old(self).len + 1,
            decreases q,
        {
            proof {
                assert(q >= 2 ==> (q ^ 1 == (if q % 2 == 0 {
                    q + 1
                } else {
                    q - 1
                }))) by (bit_vector);
                assert(q % 2 == 0 ==> q + 1 < 2 * cap);
            }
            let both = self.occupied.get(q) && self.occupied.get(q ^ 1);
            let parent = q / 2;
            let ghost pre = self.occupied@;
            if both {
                self.occupied.set(parent);
            }
            proof {
                let qi = q as int;
                let sibx = q ^ 1;
                let sib = sibx as int;
                assert(q >= 2 ==> (q ^ 1 == (if q % 2 == 0 {
                    q + 1
                } else {
                    q - 1
                }) && q ^ 1 < 2 * q)) by (bit_vector);
                assert(qi == 2 * (qi / 2) || qi == 2 * (qi / 2) + 1);
                assert((qi == 2 * (qi / 2) && sib == 2 * (qi / 2) + 1) || (qi == 2 * (qi / 2) + 1
                    && sib == 2 * (qi / 2)));
                assert(!(is_anc(sib, qi) && sib != qi)) by {
                    if is_anc(sib, qi) && sib != qi {
                        assert(is_anc(sib, qi / 2));
                        lemma_anc_le(sib, qi / 2);
                    }
                }
                assert(pre[qi] == subtree_full(pre, cap_i, qi));
                assert(pre[sib] == subtree_full(pre, cap_i, sib));
                lemma_anc_parent(qi, x as int);
                assert forall|j: int|
                    1 <= j < 2 * cap_i && !(is_anc(j, qi / 2) && j != qi / 2)
                        implies #[trigger] self.occupied@[j] == subtree_full(
                    self.occupied@,
                    cap_i,
                    j,
                ) by {
                    lemma_subtree_ignores_internal(pre, self.occupied@, cap_i, j);
                    if j == qi / 2 {
                        assert(subtree_full(self.occupied@, cap_i, j) == (subtree_full(
                            self.occupied@,
                            cap_i,
                            2 * j,
                        ) && subtree_full(self.occupied@, cap_i, 2 * j + 1)));
                        lemma_subtree_ignores_internal(pre, self.occupied@, cap_i, qi);
                        lemma_subtree_ignores_internal(pre, self.occupied@, cap_i, sib);
                        if both {
                            assert(self.occupied@[j]);
                        } else {
                            // the subtree is still not full, and the untouched
                            // parent bit was already correct for the old leaves
                            assert(!pre[qi] || !pre[sib]);
                            assert(self.occupied@[j] == pre[j]);
                            assert(pre[j] == before[j]) by {
                                assert(is_anc(j, j));
                                assert(is_anc(j, qi));
                            }
                            assert(before[j] == subtree_full(before, cap_i, j));
                            if subtree_full(before, cap_i, j) {
                                assert forall|l2: int|
                                    cap_i <= l2 < 2 * cap_i && before[l2] implies #[trigger] pre[l2] by {
                                    assert(pre[l2] == before.update(x as int, true)[l2]);
                                }
                                lemma_subtree_monotone(before, pre, cap_i, 2 * j);
                                lemma_subtree_monotone(before, pre, cap_i, 2 * j + 1);
                                assert(false);
                            }
                        }
                    } else {
                        assert(!(is_anc(j, qi) && j != qi)) by {
                            if is_anc(j, qi) && j != qi {
                                assert(is_anc(j, qi / 2));
                                lemma_anc_le(j, qi / 2);
                            }
                        }
                        if j == qi {
                            assert(self.occupied@[j] == pre[j]);
                            assert(pre[j] == subtree_full(pre, cap_i, j));
                        } else {
                            assert(self.occupied@[j] == pre[j]);
                            assert(pre[j] == subtree_full(pre, cap_i, j));
                        }
                    }
                }
                assert forall|j: int|
                    1 <= j < 2 * cap_i && is_anc(j, qi / 2) && j != qi / 2
                        implies #[trigger] self.occupied@[j] == before[j] by {
                    lemma_anc_le(j, qi / 2);
                    assert(is_anc(j, qi));
                    assert(self.occupied@[j] == pre[j]);
                }
            }
            q = parent;
        }
        proof {
            assert forall|j: int|
                1 <= j < 2 * cap_i implies #[trigger] self.occupied@[j] == subtree_full(
                self.occupied@,
                cap_i,
                j,
            ) by {
                if is_anc(j, 1) && j != 1 {
                    lemma_anc_le(j, 1);
                }
            }
            assert forall|p2: int|
                0 <= p2 < cap_i && !(self.low <= p2 < self.high) implies #[trigger] self.occupied@[
                self.cap + p2] by {
                assert(self.occupied@[cap_i + p2] == before.update(x as int, true)[cap_i + p2]);
            }
            lemma_count_agree(
                self.occupied@,
                before.update(x as int, true),
                cap_i,
                self.low as int,
                self.high as int,
            );
            lemma_count_update(before, cap_i, self.low as int, self.high as int, p as int, true);
            assert forall|q2: int|
                0 <= q2 < cap_i implies #[trigger] self.occupied@[self.cap + q2] == (q2 == p
                || before[cap_i + q2]) by {
                assert(self.occupied@[cap_i + q2] == before.update(x as int, true)[cap_i + q2]);
            }
        }
        Some(p)
    }

    /// Return page `ppn` to the free set: clear its leaf and every internal
    /// bit on the path to the root. Freeing a page that is outside the usable
    /// range or not currently occupied is a no-op.
    pub fn dealloc(&mut self, ppn: usize)
        requires
            old(self).wf(),
            ppn < old(self).cap,
        ensures
            final(self).wf(),
            final(self).cap == old(self).cap,
            final(self).low == old(self).low,
            final(self).high == old(self).high,
            if old(self).low <= ppn < old(self).high && old(self).leaf(ppn as int) {
                &&& final(self).len == old(self).len - 1
                &&& forall|q: int|
                    0 <= q < old(self).cap ==> final(self).leaf(q) == (q != ppn && old(self).leaf(
                        q,
                    ))
            } else {
                &&& final(self).occupied@ == old(self).occupied@
                &&& final(self).len == old(self).len
            },
    {
        let cap = self.cap;
        let ghost cap_i = cap as int;
        if !(self.low <= ppn && ppn < self.high) {
            return;
        }
        let x = ppn + cap;
        if !self.occupied.get(x) {
            return;
        }
        let ghost before = self.occupied@;
        proof {
            lemma_count_update(before, cap_i, self.low as int, self.high as int, ppn as int, false);
            lemma_count_at_least_one(before, cap_i, self.low as int, self.high as int, ppn as int);
        }
        self.occupied.reset(x);
        self.len = self.len - 1;
        let mut q = x / 2;
        proof {
            assert forall|j: int|
                1 <= j < 2 * cap_i && !(q >= 1 && is_anc(j, q as int)) implies #[trigger] self.occupied@[j]
                == subtree_full(self.occupied@, cap_i, j) by {
                if j == x {
                    assert(!self.occupied@[j]);
                } else {
                    assert(self.occupied@[j] == before[j]);
                    assert(!is_anc(j, x as int)) by {
                        if is_anc(j, x as int) && j != x {
                            assert(x >= 2 && is_anc(j, (x / 2) as int));
                        }
                    }
                    lemma_subtree_skip_nonanc(before, cap_i, j, x as int, false);
                }
            }
            assert forall|j: int|
                1 <= j < 2 * cap_i && q >= 1 && is_anc(j, q as int) implies #[trigger] self.occupied@[j]
                == before[j] by {
                lemma_anc_le(j, q as int);
                assert(self.occupied@[j] == before.update(x as int, false)[j]);
            }
        }
        while q >= 1
            invariant
                cap_i == cap as int,
                cap == self.cap,
                1 <= cap <= 0x1000_0000,
                x == ppn + cap,
                ppn < cap,
                0 <= q < cap,
                q >= 1 ==> is_anc(q as int, (x / 2) as int) && x >= 2,
                2 * cap <= self.occupied@.len(),
                self.occupied@.len() == before.len(),
                forall|l2: int|
                    cap_i <= l2 < 2 * cap_i ==> #[trigger] self.occupied@[l2] == before.update(
                        x as int,
                        false,
                    )[l2],
                forall|j: int|
                    1 <= j < 2 * cap_i && q >= 1 && is_anc(j, q as int)
                        ==> #[trigger] self.occupied@[j] == before[j],
                forall|j: int|
                    1 <= j < 2 * cap_i && !(q >= 1 && is_anc(j, q as int))
                        ==> #[trigger] self.occupied@[j] == subtree_full(self.occupied@, cap_i, j),
                old(self).wf(),
                before == old(self).occupied@,
                cap == old(self).cap,
                self.low == old(self).low,
                self.high == old(self).high,
                self.len == old(self).len - 1,
                old(self).low <= ppn < old(self).high,
            decreases q,
        {
            let ghost pre = self.occupied@;
            self.occupied.reset(q);
            proof {
                let qi = q as int;
                assert forall|j: int|
                    1 <= j < 2 * cap_i && !(qi / 2 >= 1 && is_anc(j, qi / 2))
                        implies #[trigger] self.occupied@[j] == subtree_full(
                    self.occupied@,
                    cap_i,
                    j,
                ) by {
                    lemma_subtree_ignores_internal(pre, self.occupied@, cap_i, j);
                    if j == qi {
                        // this node sits above the freed leaf, so its subtree
                        // cannot be full
                        assert(self.occupied@[cap_i + ppn] == false);
                        assert(!subtree_full(self.occupied@, cap_i, x as int));
                        lemma_anc_is_anc_of_leaf(qi, (x / 2) as int, x as int);
                        lemma_anc_not_full(self.occupied@, cap_i, qi, x as int);
                    } else if is_anc(j, qi) {
                        assert(false);
                    } else {
                        assert(self.occupied@[j] == pre[j]);
                        assert(pre[j] == subtree_full(pre, cap_i, j));
                    }
                }
                assert forall|j: int|
                    1 <= j < 2 * cap_i && qi / 2 >= 1 && is_anc(j, qi / 2)
                        implies #[trigger] self.occupied@[j] == before[j] by {
                    lemma_anc_le(j, qi / 2);
                    assert(is_anc(j, qi));
                    assert(self.occupied@[j] == pre[j]);
                }
                if q > 1 {
                    lemma_anc_parent(qi, (x / 2) as int);
                }
            }
            q = q / 2;
        }
        proof {
            assert forall|p2: int|
                0 <= p2 < cap_i && !(self.low <= p2 < self.high) implies #[trigger] self.occupied@[
                self.cap + p2] by {
                assert(self.occupied@[cap_i + p2] == before.update(x as int, false)[cap_i + p2]);
            }
            lemma_count_agree(
                self.occupied@,
                before.update(x as int, false),
                cap_i,
                self.low as int,
                self.high as int,
            );
            assert forall|q2: int|
                0 <= q2 < cap_i implies #[trigger] self.occupied@[self.cap + q2] == (q2 != ppn
                && before[cap_i + q2]) by {
                assert(self.occupied@[cap_i + q2] == before.update(x as int, false)[cap_i + q2]);
            }
        }
    }

    /// The number of live allocations.
    pub fn live(&self) -> (r: usize)
        ensures
            r == self.len,
    {
        self.len
    }

    /// The number of pages still available.
    pub fn free_frames(&self) -> (r: usize)
        requires
            self.wf(),
        ensures
            r == self.free_count(),
    {
        proof {
            lemma_count_bounds(self.occupied@, self.cap as int, self.low as int, self.high as int);
        }
        (self.high - self.low) - self.len
    }
}

/// If a node is on the path from `m` to the root and `m` is the parent of
/// leaf `x`, the node is also on the path from `x`.
proof fn lemma_anc_is_anc_of_leaf(a: int, m: int, x: int)
    requires
        is_anc(a, m),
        m == x / 2,
        x >= 2,
    ensures
        is_anc(a, x),
{
}

/// A free leaf in the usable range keeps the occupied count below the range
/// size.
proof fn lemma_count_at_least_one_contra(s: Seq<bool>, cap: int, lo: int, hi: int, q: int)
    requires
        lo <= q < hi,
        !s[cap + q],
    ensures
        count_occupied(s, cap, lo, hi) < hi - lo,
    decreases hi - lo,
{
    if q < hi - 1 {
        lemma_count_at_least_one_contra(s, cap, lo, hi - 1, q);
    } else {
        lemma_count_bounds(s, cap, lo, hi - 1);
    }
}

/// The state relation a successful allocation leaves behind: `p` was free
/// and is now occupied, everything else is untouched.
pub open spec fn allocate_transition(pre: SegmentTreeAllocator, post: SegmentTreeAllocator,
    p: usize) -> bool {
    &&& pre.wf()
    &&& post.wf()
    &&& post.cap == pre.cap
    &&& post.low == pre.low
    &&& post.high == pre.high
    &&& pre.is_free(p as int)
    &&& post.len == pre.len + 1
    &&& forall|q: int| 0 <= q < pre.cap ==> post.leaf(q) == (q == p || pre.leaf(q))
}

/// The state relation a successful deallocation of `p` leaves behind.
pub open spec fn dealloc_transition(pre: SegmentTreeAllocator, post: SegmentTreeAllocator,
    p: usize) -> bool {
    &&& pre.wf()
    &&& post.wf()
    &&& post.cap == pre.cap
    &&& post.low == pre.low
    &&& post.high == pre.high
    &&& pre.low <= p < pre.high && pre.leaf(p as int)
    &&& post.len == pre.len - 1
    &&& forall|q: int| 0 <= q < pre.cap ==> post.leaf(q) == (q != p && pre.leaf(q))
}

/// Successive allocations return distinct pages: a page just handed out is
/// occupied, so it cannot be handed out again until freed.
pub proof fn lemma_allocations_distinct(s0: SegmentTreeAllocator, s1: SegmentTreeAllocator,
    s2: SegmentTreeAllocator, p1: usize, p2: usize)
    requires
        allocate_transition(s0, s1, p1),
        allocate_transition(s1, s2, p2),
    ensures
        p1 != p2,
        s2.free_count() == s0.free_count() - 2,
{
    assert(s1.leaf(p1 as int));
}

/// A page occupied somewhere along an allocation chain stays occupied to
/// its end.
proof fn lemma_chain_keeps_occupied(states: Seq<SegmentTreeAllocator>, pages: Seq<usize>,
    i: int, j: int, p: int)
    requires
        states.len() == pages.len() + 1,
        forall|k: int|
            0 <= k < pages.len() ==> allocate_transition(
                #[trigger] states[k],
                states[k + 1],
                pages[k],
            ),
        0 <= i <= j < states.len(),
        0 <= p < states[i].cap,
        states[i].leaf(p),
    ensures
        states[j].leaf(p),
    decreases j - i,
{
    if i < j {
        assert(allocate_transition(states[i], states[i + 1], pages[i]));
        lemma_chain_keeps_occupied(states, pages, i + 1, j, p);
    }
}

/// Allocator exhaustion, in full generality: along any chain of N
/// successful allocations the returned pages are pairwise distinct and the
/// free count falls by exactly N. Once it reaches zero, `allocate`'s
/// contract forces the next call to return `None`.
pub proof fn lemma_allocation_chain_exhaustion(states: Seq<SegmentTreeAllocator>,
    pages: Seq<usize>)
    requires
        states.len() == pages.len() + 1,
        forall|k: int|
            0 <= k < pages.len() ==> allocate_transition(
                #[trigger] states[k],
                states[k + 1],
                pages[k],
            ),
    ensures
        forall|i: int, j: int| 0 <= i < j < pages.len() ==> pages[i] != pages[j],
        states[states.len() - 1].free_count() == states[0].free_count() - pages.len(),
    decreases pages.len(),
{
    assert forall|i: int, j: int| 0 <= i < j < pages.len() implies pages[i] != pages[j] by {
        assert(allocate_transition(states[i], states[i + 1], pages[i]));
        assert(allocate_transition(states[j], states[j + 1], pages[j]));
        assert(states[i + 1].leaf(pages[i] as int));
        lemma_chain_keeps_occupied(states, pages, i + 1, j, pages[i] as int);
        assert(states[j].is_free(pages[j] as int));
    }
    if pages.len() > 0 {
        let n = pages.len() as int;
        lemma_allocation_chain_exhaustion(states.take(n), pages.take(n - 1));
        assert forall|k: int|
            0 <= k < n - 1 implies allocate_transition(
            #[trigger] states.take(n)[k],
            states.take(n)[k + 1],
            pages.take(n - 1)[k],
        ) by {
            assert(states.take(n)[k] == states[k]);
            assert(states.take(n)[k + 1] == states[k + 1]);
            assert(allocate_transition(states[k], states[k + 1], pages[k]));
        }
        assert(states.take(n)[n - 1] == states[n - 1]);
        assert(allocate_transition(states[n - 1], states[n], pages[n - 1]));
    }
}

/// Freeing a page and allocating again restores the live count: after
/// `allocate, allocate, dealloc, allocate` the count of live pages equals
/// its value before the dealloc.
pub proof fn lemma_reuse_restores_live_count(s0: SegmentTreeAllocator,
    s1: SegmentTreeAllocator, s2: SegmentTreeAllocator, s3: SegmentTreeAllocator,
    s4: SegmentTreeAllocator, p1: usize, p2: usize, p3: usize)
    requires
        allocate_transition(s0, s1, p1),
        allocate_transition(s1, s2, p2),
        dealloc_transition(s2, s3, p1),
        allocate_transition(s3, s4, p3),
    ensures
        s4.len == s2.len,
        s4.free_count() == s2.free_count(),
        p3 != p2,
{
    assert(s3.leaf(p2 as int));
}

} // verus!
