//! The packed memory array itself: gapped search, insertion, deletion, and
//! the density-driven rebalancing engine with its pack and spread primitives.
use vstd::prelude::*;

verus! {

use crate::slots::{
    has_key, key_at, keys_sorted, lemma_move_slot, lemma_occ_in_agree, lemma_occ_in_all_empty,
    lemma_occ_in_all_full, lemma_occ_in_bounds, lemma_occ_in_split, lemma_occ_in_update,
    lemma_sorted_key_unique, lemma_sparse_range_has_gap, occ_in,
    slot_full,
};
use vstd::arithmetic::power2::pow2;

/// Largest capacity the planner will ever produce; far below `usize::MAX`,
/// so the index arithmetic cannot overflow.
pub const CAPACITY_LIMIT: usize = 0x4000_0000;

/// Largest number of keys the array accepts; the planner stays below
/// `CAPACITY_LIMIT` for any count up to this machine limit.
pub const MAX_KEYS: usize = 0x100_0000;

/// A sorted, gapped, array-backed set of `i32` keys.
pub struct PackedMemoryArray {
    /// The backing buffer; `None` is a gap.
    pub data: Vec<Option<i32>>,
    /// Number of occupied slots.
    pub len: usize,
    /// Number of slots in `data`.
    pub capacity: usize,
    /// Width of a leaf-level rebalancing window.
    pub segment_size: usize,
    /// Number of leaf segments in the implicit window tree; a power of two.
    pub num_segments: usize,
    /// Number of rebalancing levels: `floor_log2(num_segments) + 1`.
    pub height: usize,
}

impl PackedMemoryArray {
    /// The buffer as a sequence of slots.
    pub open spec fn slots(self) -> Seq<Option<i32>> {
        self.data@
    }

    /// The key `v` is in the set.
    pub open spec fn contains_key(self, v: i32) -> bool {
        has_key(self.slots(), v)
    }

    /// The sizing fields describe the buffer: the capacity is a power-of-two
    /// count of segments times the segment width times the sparseness slack.
    pub open spec fn geometry_ok(self) -> bool {
        &&& self.data@.len() == self.capacity
        &&& self.capacity == self.segment_size * self.num_segments * 4
        &&& self.segment_size >= 1
        &&& self.height >= 1
        &&& self.num_segments == pow2((self.height - 1) as nat)
        &&& self.capacity <= CAPACITY_LIMIT
    }

    /// The structural invariant: consistent geometry, strictly ascending keys,
    /// an accurate `len`, and at least one gap left in the buffer.
    pub open spec fn wf(self) -> bool {
        &&& self.geometry_ok()
        &&& keys_sorted(self.slots())
        &&& occ_in(self.slots(), 0, self.capacity as int) == self.len
        &&& self.len < self.capacity
        &&& self.len <= MAX_KEYS
    }
}

/// Ceiling of `a / b` as a mathematical function.
pub open spec fn ceil_div_spec(a: int, b: int) -> int {
    (a + b - 1) / b
}

/// The sizes the capacity planner derives for `n` keys: `e` is the tightest
/// power-of-two exponent covering `n`, the segment count is the smallest
/// power of two at least `n / e` rounded up, and the segment size and the
/// capacity each carry a four-fold sparseness slack.
pub open spec fn planner_ok(n: int, ss: int, ns: int, cap: int) -> bool {
    exists|e: int, k: int|
        #![trigger ceil_div_spec(n, e), pow2(k as nat)]
        {
            &&& 1 <= e
            &&& (2 < n ==> n <= pow2(e as nat) && pow2((e - 1) as nat) < n)
            &&& (n <= 2 ==> e == 1)
            &&& 0 <= k
            &&& ns == pow2(k as nat)
            &&& ceil_div_spec(n, e) <= ns < 2 * ceil_div_spec(n, e)
            &&& ss == 4 * ceil_div_spec(n, ns)
            &&& cap == ss * ns * 4
        }
}

proof fn lemma_pow2_log(k: nat, r: nat)
    requires
        pow2(r) <= pow2(k) < pow2(r + 1),
    ensures
        r == k,
{
    if k < r {
        vstd::arithmetic::power2::lemma_pow2_strictly_increases(k, r);
    }
    if r + 1 <= k {
        if r + 1 < k {
            vstd::arithmetic::power2::lemma_pow2_strictly_increases(r + 1, k);
        }
    }
}

/// The fixed-point stride (scaled by 256) that `spread` walks by when it
/// redistributes `n` keys across the window `[from, to)`.
pub open spec fn spread_stride(from: int, to: int, n: int) -> int {
    ((to - from) * 256) / n
}

/// The slot that the `j`-th key from the right ends up in after a spread of
/// `n` keys across `[from, to)`.
pub open spec fn spread_pos(from: int, to: int, n: int, j: int) -> int {
    (to * 256 - (j + 1) * spread_stride(from, to, n)) / 256
}

proof fn lemma_stride_bounds(from: int, to: int, n: int)
    requires
        0 <= from < to,
        1 <= n <= to - from,
    ensures
        256 <= spread_stride(from, to, n),
        n * spread_stride(from, to, n) <= (to - from) * 256,
        spread_stride(from, to, n) / 256 == (to - from) / n,
        (to - from) / n >= 1,
{
    let w = to - from;
    let s = spread_stride(from, to, n);
    vstd::arithmetic::div_mod::lemma_fundamental_div_mod(w * 256, n);
    vstd::arithmetic::div_mod::lemma_mod_bound(w * 256, n);
    assert(256 <= s && n * s <= w * 256) by (nonlinear_arith)
        requires
            w * 256 == n * s + ((w * 256) % n),
            0 <= ((w * 256) % n) < n,
            1 <= n <= w;
    vstd::arithmetic::div_mod::lemma_div_denominator(w * 256, n, 256);
    vstd::arithmetic::div_mod::lemma_div_multiples_vanish_quotient(256, w, n);
    assert(s / 256 == w / n);
    vstd::arithmetic::div_mod::lemma_div_by_self(n);
    vstd::arithmetic::div_mod::lemma_div_is_ordered(n, w, n);
}

proof fn lemma_pos_step(from: int, to: int, n: int, j: int)
    requires
        0 <= from < to,
        1 <= n <= to - from,
        0 <= j,
        j + 1 < n,
    ensures
        spread_pos(from, to, n, j) - spread_pos(from, to, n, j + 1) >= (to - from) / n,
        spread_pos(from, to, n, j) - spread_pos(from, to, n, j + 1) <= (to - from) / n + 1,
        spread_pos(from, to, n, j) > spread_pos(from, to, n, j + 1),
{
    lemma_stride_bounds(from, to, n);
    let s = spread_stride(from, to, n);
    let g = s / 256;
    let t = s % 256;
    vstd::arithmetic::div_mod::lemma_fundamental_div_mod(s, 256);
    vstd::arithmetic::div_mod::lemma_mod_bound(s, 256);
    let x = to * 256 - (j + 2) * s;
    assert((j + 2) * s == (j + 1) * s + s) by (nonlinear_arith);
    vstd::arithmetic::div_mod::lemma_fundamental_div_mod(x, 256);
    vstd::arithmetic::div_mod::lemma_mod_bound(x, 256);
    let q = x / 256;
    let r = x % 256;
    assert(x + s == (q + g) * 256 + (r + t)) by (nonlinear_arith)
        requires
            x == 256 * q + r,
            s == 256 * g + t;
    if r + t < 256 {
        vstd::arithmetic::div_mod::lemma_fundamental_div_mod_converse(x + s, 256, q + g, r + t);
    } else {
        assert(x + s == (q + g + 1) * 256 + (r + t - 256)) by (nonlinear_arith)
            requires
                x + s == (q + g) * 256 + (r + t);
        vstd::arithmetic::div_mod::lemma_fundamental_div_mod_converse(
            x + s,
            256,
            q + g + 1,
            r + t - 256,
        );
    }
    assert(spread_pos(from, to, n, j) == (x + s) / 256);
    assert(spread_pos(from, to, n, j + 1) == q);
}

proof fn lemma_pos_bounds(from: int, to: int, n: int, j: int)
    requires
        0 <= from < to,
        1 <= n <= to - from,
        0 <= j < n,
    ensures
        from + (n - 1 - j) <= spread_pos(from, to, n, j),
        spread_pos(from, to, n, j) <= to - 1,
    decreases n - j,
{
    lemma_stride_bounds(from, to, n);
    let s = spread_stride(from, to, n);
    assert((j + 1) * s >= 1 * s) by (nonlinear_arith)
        requires
            s >= 0,
            j >= 0;
    vstd::arithmetic::div_mod::lemma_div_is_ordered(
        to * 256 - (j + 1) * s,
        to * 256 - 256,
        256,
    );
    vstd::arithmetic::div_mod::lemma_fundamental_div_mod_converse(to * 256 - 256, 256, to - 1, 0);
    if j == n - 1 {
        assert(n * s == (j + 1) * s);
        vstd::arithmetic::div_mod::lemma_div_is_ordered(
            from * 256,
            to * 256 - (j + 1) * s,
            256,
        );
        vstd::arithmetic::div_mod::lemma_fundamental_div_mod_converse(from * 256, 256, from, 0);
    } else {
        lemma_pos_bounds(from, to, n, j + 1);
        lemma_pos_step(from, to, n, j);
    }
}

proof fn lemma_pos_decreasing(from: int, to: int, n: int, i: int, j: int)
    requires
        0 <= from < to,
        1 <= n <= to - from,
        0 <= i < j < n,
    ensures
        spread_pos(from, to, n, i) >= spread_pos(from, to, n, j) + (j - i),
    decreases j - i,
{
    lemma_pos_step(from, to, n, i);
    if i + 1 < j {
        lemma_pos_decreasing(from, to, n, i + 1, j);
    }
}

/// After a spread of `n` keys across the window `[from, to)`, two keys that
/// end up next to each other sit apart by the ideal uniform spacing
/// `(to - from) / n`, or one slot more.
pub proof fn lemma_spread_even_spacing(from: int, to: int, n: int, j: int)
    requires
        0 <= from < to,
        1 <= n <= to - from,
        0 <= j,
        j + 1 < n,
    ensures
        spread_pos(from, to, n, j) - spread_pos(from, to, n, j + 1) >= (to - from) / n,
        spread_pos(from, to, n, j) - spread_pos(from, to, n, j + 1) <= (to - from) / n + 1,
        (to - from) / n >= 1,
{
    lemma_stride_bounds(from, to, n);
    lemma_pos_step(from, to, n, j);
}

/// Start of the window of width `width` that contains slot `i`.
pub open spec fn window_start(i: int, width: int) -> int {
    (i / width) * width
}

/// The level-`level` window around `i` is balanced: its density sits at or
/// above the level's lower bound and strictly below its upper bound, where
/// `lower = 1/4 + level / (4 height)` and `upper = 1 - level / (4 height)`,
/// both written over integers.
pub open spec fn window_balanced(
    s: Seq<Option<i32>>,
    ss: int,
    height: int,
    i: int,
    level: int,
) -> bool {
    let width = ss * pow2(level as nat);
    let a = window_start(i, width);
    let occ = occ_in(s, a, a + width);
    &&& occ * 4 * height >= width * (height + level)
    &&& occ * 4 * height < width * (4 * height - level)
}

/// Some level's window around `i` is balanced.
pub open spec fn some_window_balanced(s: Seq<Option<i32>>, ss: int, height: int, i: int) -> bool {
    exists|l: int| 0 <= l < height && #[trigger] window_balanced(s, ss, height, i, l)
}

/// The `n` keys of `[from, to)` sit exactly at the spread's evenly spaced
/// targets: a slot is occupied if and only if it is one of them.
pub open spec fn evenly_spread(s: Seq<Option<i32>>, from: int, to: int, n: int) -> bool {
    forall|k: int|
        from <= k < to ==> (slot_full(s, k) <==> exists|j: int|
            0 <= j < n && k == spread_pos(from, to, n, j))
}

/// A window that a rebalance left in place, seen on the finished array:
/// the level-`level` window around `i` is balanced and its keys sit at the
/// spread's evenly spaced targets.
pub open spec fn window_rebalanced(p: PackedMemoryArray, i: int, level: int) -> bool {
    let w = p.segment_size * pow2(level as nat);
    let a = window_start(i, w as int);
    &&& 0 <= level < p.height
    &&& window_balanced(p.slots(), p.segment_size as int, p.height as int, i, level)
    &&& evenly_spread(p.slots(), a, a + w, occ_in(p.slots(), a, a + w))
}

/// The exact footprint of an in-place rebalance at `index`: `level` is the
/// least level whose window around `index` was balanced, no slot outside
/// that window changed, and inside it the keys now sit at the spread's
/// evenly spaced targets.
pub open spec fn rebalance_footprint(
    pre: PackedMemoryArray,
    post: PackedMemoryArray,
    index: int,
    level: int,
) -> bool {
    let w = pre.segment_size * pow2(level as nat);
    let a = window_start(index, w as int);
    &&& 0 <= level < pre.height
    &&& window_balanced(pre.slots(), pre.segment_size as int, pre.height as int, index, level)
    &&& forall|l2: int|
        0 <= l2 < level ==> !window_balanced(
            pre.slots(),
            pre.segment_size as int,
            pre.height as int,
            index,
            l2,
        )
    &&& forall|q: int|
        0 <= q < pre.slots().len() && !(a <= q < a + w) ==> post.slots()[q] == pre.slots()[q]
    &&& evenly_spread(post.slots(), a, a + w, occ_in(pre.slots(), a, a + w))
}

proof fn lemma_window_contains(i: int, width: int)
    requires
        0 <= i,
        1 <= width,
    ensures
        window_start(i, width) <= i < window_start(i, width) + width,
        0 <= window_start(i, width),
{
    vstd::arithmetic::div_mod::lemma_fundamental_div_mod(i, width);
    vstd::arithmetic::div_mod::lemma_mod_bound(i, width);
    assert(window_start(i, width) <= i < window_start(i, width) + width && 0 <= window_start(
        i,
        width,
    )) by (nonlinear_arith)
        requires
            i == width * (i / width) + (i % width),
            0 <= (i % width) < width,
            0 <= i,
            1 <= width,
            window_start(i, width) == (i / width) * width;
}

proof fn lemma_window_step(i: int, width: int)
    requires
        0 <= i,
        1 <= width,
    ensures
        window_start(i, 2 * width) <= window_start(i, width),
        window_start(i, width) + width <= window_start(i, 2 * width) + 2 * width,
{
    vstd::arithmetic::div_mod::lemma_div_denominator(i, width, 2);
    let q = i / width;
    vstd::arithmetic::div_mod::lemma_fundamental_div_mod(q, 2);
    vstd::arithmetic::div_mod::lemma_mod_bound(q, 2);
    assert(window_start(i, 2 * width) <= window_start(i, width) && window_start(i, width) + width
        <= window_start(i, 2 * width) + 2 * width) by (nonlinear_arith)
        requires
            q == 2 * (q / 2) + (q % 2),
            0 <= (q % 2) < 2,
            1 <= width,
            i / (width * 2) == q / 2,
            window_start(i, width) == q * width,
            window_start(i, 2 * width) == (i / (2 * width)) * (2 * width),
            width * 2 == 2 * width;
}

proof fn lemma_window_fits(i: int, width: int, m: int)
    requires
        1 <= width,
        1 <= m,
        0 <= i < width * m,
    ensures
        window_start(i, width) + width <= width * m,
{
    vstd::arithmetic::div_mod::lemma_multiply_divide_lt(i, width, m);
    assert(window_start(i, width) + width <= width * m) by (nonlinear_arith)
        requires
            i / width < m,
            1 <= width,
            window_start(i, width) == (i / width) * width;
}

proof fn lemma_cap_window_multiple(ss: int, level: int, height: int)
    requires
        0 <= level < height,
        1 <= ss,
    ensures
        ({
            let w = ss * pow2(level as nat);
            let m = 4 * pow2((height - 1 - level) as nat);
            &&& w * m == ss * pow2((height - 1) as nat) * 4
            &&& m >= 4
            &&& w >= 1
        }),
{
    vstd::arithmetic::power2::lemma_pow2_adds(level as nat, (height - 1 - level) as nat);
    vstd::arithmetic::power2::lemma_pow2_pos(level as nat);
    vstd::arithmetic::power2::lemma_pow2_pos((height - 1 - level) as nat);
    let p1 = pow2(level as nat) as int;
    let p2 = pow2((height - 1 - level) as nat) as int;
    assert(p1 * p2 == pow2((height - 1) as nat));
    assert((ss * p1) * (4 * p2) == ss * (p1 * p2) * 4) by (nonlinear_arith);
    assert(ss * p1 >= 1) by (nonlinear_arith)
        requires
            ss >= 1,
            p1 >= 1;
}

/// How a mutation leaves the geometry: either the buffer was rebalanced in
/// place — some window around the mutated slot meets its density bounds and
/// holds its keys at the spread's evenly spaced targets — or the array was
/// resized to the planner's sizes (or emptied entirely).
pub open spec fn rebalance_outcome(pre: PackedMemoryArray, post: PackedMemoryArray) -> bool {
    ||| {
        &&& post.capacity == pre.capacity
        &&& post.segment_size == pre.segment_size
        &&& post.num_segments == pre.num_segments
        &&& post.height == pre.height
        &&& exists|i: int, l: int| 0 <= i < post.capacity && #[trigger] window_rebalanced(post, i, l)
    }
    ||| planner_ok(
        post.len as int,
        post.segment_size as int,
        post.num_segments as int,
        post.capacity as int,
    )
    ||| post.len == 0
}

/// What the gapped search guarantees of the anchor it reports for `value`:
/// the anchor slot holds the nearest smaller key, and every key right of it
/// is larger (with no anchor, every present key is larger).
pub open spec fn anchor_ok(s: Seq<Option<i32>>, cap: int, anchor: Option<usize>, value: i32) -> bool {
    match anchor {
        Some(a) => {
            &&& (a as int) < cap
            &&& slot_full(s, a as int)
            &&& key_at(s, a as int) < value
            &&& forall|j: int| a < j < cap && slot_full(s, j) ==> key_at(s, j) > value
        },
        None => forall|j: int| 0 <= j < cap && slot_full(s, j) ==> key_at(s, j) > value,
    }
}

/// Outcome of a gapped search: the slot holding the key, or the slot of the
/// nearest smaller key (`None` when every present key is larger).
pub enum FindResult {
    Found(usize),
    Anchor(Option<usize>),
}

impl PackedMemoryArray {
    /// An empty array with the minimum geometry: one segment of the smallest
    /// width, fully sparse.
    pub fn new() -> (r: PackedMemoryArray)
        ensures
            r.wf(),
            r.len == 0,
            forall|v: i32| !r.contains_key(v),
            r.capacity == 16,
            r.segment_size == crate::util::LARGEST_EMPTY_SEGMENT,
            r.num_segments == 1,
            r.height == 1,
    {
        let mut data: Vec<Option<i32>> = Vec::new();
        while data.len() < 16
            invariant
                data@.len() <= 16,
                forall|k: int| 0 <= k < data@.len() ==> !slot_full(data@, k),
            decreases 16 - data.len(),
        {
            let ghost d0 = data@;
            data.push(None);
            proof {
                assert forall|k: int| 0 <= k < data@.len() implies !slot_full(data@, k) by {
                    if k < d0.len() {
                        assert(!slot_full(d0, k));
                        assert(data@[k] == d0[k]);
                    } else {
                        assert(data@[k] is None);
                    }
                }
            }
        }
        proof {
            lemma_occ_in_all_empty(data@, 0, 16);
            vstd::arithmetic::power2::lemma2_to64();
            assert forall|v: i32| !has_key(data@, v) by {
                if has_key(data@, v) {
                    let i = choose|i: int| 0 <= i < data@.len() && data@[i] == Some(v);
                    assert(slot_full(data@, i));
                }
            }
        }
        PackedMemoryArray {
            data,
            len: 0,
            capacity: 16,
            segment_size: crate::util::LARGEST_EMPTY_SEGMENT,
            num_segments: 1,
            height: 1,
        }
    }

    /// Gapped binary search: either the slot holding `value`, or the anchor,
    /// the rightmost occupied slot whose key is smaller than `value`.
    pub fn find(&self, value: i32) -> (res: FindResult)
        requires
            self.wf(),
        ensures
            match res {
                FindResult::Found(i) => i < self.capacity && self.slots()[i as int] == Some(
                    value,
                ) && self.contains_key(value),
                FindResult::Anchor(a) => {
                    &&& !self.contains_key(value)
                    &&& anchor_ok(self.slots(), self.capacity as int, a, value)
                },
            },
    {
        let cap = self.capacity;
        let mut left: i64 = 0;
        let mut right: i64 = cap as i64 - 1;
        while left <= right
            invariant
                self.wf(),
                cap == self.capacity,
                0 <= left <= right + 1,
                right < cap as i64,
                forall|k: int|
                    0 <= k < left && slot_full(self.slots(), k) ==> key_at(self.slots(), k)
                        < value,
                forall|k: int|
                    right < k < cap && slot_full(self.slots(), k) ==> key_at(self.slots(), k)
                        > value,
            decreases right - left + 1,
        {
            let mid = left + (right - left) / 2;
            assert(left <= mid <= right);
            let mut i = mid;
            while i >= left && self.data[i as usize].is_none()
                invariant
                    self.wf(),
                    cap == self.capacity,
                    0 <= left,
                    left - 1 <= i <= mid,
                    mid < cap as i64,
                    forall|k: int| i < k <= mid ==> !slot_full(self.slots(), k),
                decreases i - left + 1,
            {
                i = i - 1;
            }
            if i < left {
                // the whole probe range was gaps; it carries no ordering information
                assert forall|k: int|
                    0 <= k < mid + 1 && slot_full(self.slots(), k) implies key_at(
                    self.slots(),
                    k,
                ) < value by {
                    if k >= left {
                        assert(!slot_full(self.slots(), k));
                    }
                }
                left = mid + 1;
            } else {
                let x = self.data[i as usize].unwrap();
                if x == value {
                    return FindResult::Found(i as usize);
                } else if x > value {
                    assert forall|k: int|
                        mid - 1 < k < cap && slot_full(self.slots(), k) implies key_at(
                        self.slots(),
                        k,
                    ) > value by {
                        if k < i {
                            assert(i < k <= mid && !slot_full(self.slots(), k));
                        } else if k > i {
                            crate::slots::lemma_sorted_pair(self.slots(), i as int, k);
                        }
                    }
                    right = mid - 1;
                } else {
                    assert forall|k: int|
                        0 <= k < mid + 1 && slot_full(self.slots(), k) implies key_at(
                        self.slots(),
                        k,
                    ) < value by {
                        if k > i {
                            assert(!slot_full(self.slots(), k));
                        } else if k < i {
                            crate::slots::lemma_sorted_pair(self.slots(), k, i as int);
                        }
                    }
                    left = mid + 1;
                }
            }
        }
        let mut a = right;
        while a >= 0 && self.data[a as usize].is_none()
            invariant
                self.wf(),
                cap == self.capacity,
                -1 <= a <= right,
                right < cap as i64,
                forall|k: int| a < k <= right ==> !slot_full(self.slots(), k),
            decreases a + 1,
        {
            a = a - 1;
        }
        proof {
            assert forall|j: int|
                0 <= j < cap && slot_full(self.slots(), j) implies key_at(self.slots(), j)
                != value by {
                if j <= right {
                    assert(key_at(self.slots(), j) < value);
                } else {
                    assert(key_at(self.slots(), j) > value);
                }
            }
            if self.contains_key(value) {
                let i = choose|i: int|
                    0 <= i < self.slots().len() && self.slots()[i] == Some(value);
                assert(slot_full(self.slots(), i));
                assert(key_at(self.slots(), i) == value);
            }
        }
        if a >= 0 {
            proof {
                assert(slot_full(self.slots(), a as int));
                assert(key_at(self.slots(), a as int) < value);
                assert forall|j: int|
                    a < j < cap && slot_full(self.slots(), j) implies key_at(self.slots(), j)
                    > value by {
                    if j <= right {
                        assert(!slot_full(self.slots(), j));
                    }
                }
            }
            FindResult::Anchor(Some(a as usize))
        } else {
            FindResult::Anchor(None)
        }
    }

    /// Left-compacts the keys of the window `[from, to)` in a single sweep,
    /// preserving their order; returns how many keys the window holds.
    fn pack(&mut self, from: usize, to: usize) -> (n: usize)
        requires
            from < to,
            to <= old(self).data@.len(),
            keys_sorted(old(self).slots()),
        ensures
            final(self).data@.len() == old(self).data@.len(),
            forall|k: int|
                0 <= k < old(self).data@.len() && !(from <= k < to) ==> final(self).slots()[k]
                    == old(self).slots()[k],
            n == occ_in(old(self).slots(), from as int, to as int),
            n == occ_in(final(self).slots(), from as int, to as int),
            n <= to - from,
            forall|k: int| from <= k < from + n ==> slot_full(final(self).slots(), k),
            forall|k: int| from + n <= k < to ==> !slot_full(final(self).slots(), k),
            keys_sorted(final(self).slots()),
            forall|v: i32| has_key(final(self).slots(), v) == has_key(old(self).slots(), v),
            final(self).len == old(self).len,
            final(self).capacity == old(self).capacity,
            final(self).segment_size == old(self).segment_size,
            final(self).num_segments == old(self).num_segments,
            final(self).height == old(self).height,
    {
        let mut read = from;
        let mut write = from;
        while read < to
            invariant
                from <= write <= read <= to,
                to <= self.data@.len(),
                self.data@.len() == old(self).data@.len(),
                keys_sorted(self.slots()),
                forall|v: i32| has_key(self.slots(), v) == has_key(old(self).slots(), v),
                forall|k: int|
                    0 <= k < self.data@.len() && !(from <= k < to) ==> self.slots()[k] == old(
                        self,
                    ).slots()[k],
                forall|k: int| from <= k < write ==> slot_full(self.slots(), k),
                forall|k: int| write <= k < read ==> !slot_full(self.slots(), k),
                occ_in(self.slots(), from as int, to as int) == occ_in(
                    old(self).slots(),
                    from as int,
                    to as int,
                ),
                occ_in(self.slots(), from as int, read as int) == write - from,
                self.len == old(self).len,
                self.capacity == old(self).capacity,
                self.segment_size == old(self).segment_size,
                self.num_segments == old(self).num_segments,
                self.height == old(self).height,
            decreases to - read,
        {
            let ghost s0 = self.slots();
            if self.data[read].is_some() {
                if read > write {
                    let v = self.data[read];
                    self.data.set(write, v);
                    self.data.set(read, None);
                    proof {
                        lemma_move_slot(s0, read as int, write as int);
                        lemma_occ_in_update(s0, write as int, s0[read as int], from as int, to as int);
                        lemma_occ_in_update(
                            s0.update(write as int, s0[read as int]),
                            read as int,
                            None,
                            from as int,
                            to as int,
                        );
                        lemma_occ_in_update(s0, write as int, s0[read as int], from as int, read as int);
                        lemma_occ_in_update(
                            s0.update(write as int, s0[read as int]),
                            read as int,
                            None,
                            from as int,
                            read as int,
                        );
                        assert forall|k: int| from <= k < write + 1 implies slot_full(
                            self.slots(),
                            k,
                        ) by {
                            if k < write {
                                assert(self.slots()[k] == s0[k]);
                                assert(slot_full(s0, k));
                            } else {
                                assert(self.slots()[k] == s0[read as int]);
                            }
                        }
                        assert forall|k: int| write + 1 <= k < read + 1 implies !slot_full(
                            self.slots(),
                            k,
                        ) by {
                            if k < read {
                                assert(self.slots()[k] == s0[k]);
                                assert(!slot_full(s0, k));
                            } else {
                                assert(self.slots()[k] is None);
                            }
                        }
                    }
                }
                proof {
                    lemma_occ_in_split(self.slots(), from as int, read as int, read + 1);
                    assert(occ_in(self.slots(), read as int, read as int) == 0);
                    if read > write {
                        // the key moved down to `write`; slot `read` is now a gap
                        assert(!slot_full(self.slots(), read as int));
                        assert(occ_in(self.slots(), from as int, read as int) == write - from
                            + 1);
                    } else {
                        assert(slot_full(self.slots(), read as int));
                        assert(occ_in(self.slots(), read as int, read + 1) == 1int);
                    }
                }
                write += 1;
            } else {
                proof {
                    lemma_occ_in_split(self.slots(), from as int, read as int, read + 1);
                    assert(occ_in(self.slots(), read as int, read + 1) == 0int) by {
                        assert(!slot_full(self.slots(), read as int));
                        assert(occ_in(self.slots(), read as int, read as int) == 0);
                    }
                }
            }
            read += 1;
        }
        proof {
            assert(occ_in(self.slots(), from as int, to as int) == write - from);
        }
        write - from
    }

    /// Redistributes the `n` keys packed at the left edge of `[from, to)`
    /// evenly across the whole window, moving from the rightmost key down so
    /// that no key is overwritten before it is relocated.
    fn spread(&mut self, from: usize, to: usize, n: usize)
        requires
            from < to,
            to <= old(self).data@.len(),
            old(self).data@.len() <= CAPACITY_LIMIT,
            1 <= n <= to - from,
            keys_sorted(old(self).slots()),
            forall|k: int| from <= k < from + n ==> slot_full(old(self).slots(), k),
            forall|k: int| from + n <= k < to ==> !slot_full(old(self).slots(), k),
        ensures
            final(self).data@.len() == old(self).data@.len(),
            forall|k: int|
                0 <= k < old(self).data@.len() && !(from <= k < to) ==> final(self).slots()[k]
                    == old(self).slots()[k],
            keys_sorted(final(self).slots()),
            forall|v: i32| has_key(final(self).slots(), v) == has_key(old(self).slots(), v),
            occ_in(final(self).slots(), from as int, to as int) == n,
            evenly_spread(final(self).slots(), from as int, to as int, n as int),
            final(self).len == old(self).len,
            final(self).capacity == old(self).capacity,
            final(self).segment_size == old(self).segment_size,
            final(self).num_segments == old(self).num_segments,
            final(self).height == old(self).height,
    {
        let w = to - from;
        let stride: u64 = ((w as u64) * 256) / (n as u64);
        let mut k: usize = 0;
        let mut read: usize = from + n;
        let mut wfix: u64 = (to as u64) * 256;
        proof {
            lemma_stride_bounds(from as int, to as int, n as int);
            lemma_occ_in_split(self.slots(), from as int, from + n, to as int);
            lemma_occ_in_all_full(self.slots(), from as int, from + n);
            lemma_occ_in_all_empty(self.slots(), from + n, to as int);
        }
        while k < n
            invariant
                from < to,
                to <= self.data@.len(),
                self.data@.len() == old(self).data@.len(),
                self.data@.len() <= CAPACITY_LIMIT,
                1 <= n <= to - from,
                k <= n,
                read == from + n - k,
                stride as int == spread_stride(from as int, to as int, n as int),
                wfix as int == to * 256 - k * (stride as int),
                keys_sorted(self.slots()),
                forall|v: i32| has_key(self.slots(), v) == has_key(old(self).slots(), v),
                forall|q: int|
                    0 <= q < self.data@.len() && !(from <= q < to) ==> self.slots()[q] == old(
                        self,
                    ).slots()[q],
                forall|q: int| from <= q < read ==> slot_full(self.slots(), q),
                forall|q: int|
                    read <= q < to ==> (slot_full(self.slots(), q) <==> exists|j: int|
                        0 <= j < k && q == spread_pos(from as int, to as int, n as int, j)),
                k >= 1 ==> spread_pos(from as int, to as int, n as int, k - 1) >= read as int,
                occ_in(self.slots(), from as int, to as int) == n,
                self.len == old(self).len,
                self.capacity == old(self).capacity,
                self.segment_size == old(self).segment_size,
                self.num_segments == old(self).num_segments,
                self.height == old(self).height,
            decreases n - k,
        {
            let ghost fi = from as int;
            let ghost ti = to as int;
            let ghost ni = n as int;
            let ghost ki = k as int;
            proof {
                lemma_stride_bounds(fi, ti, ni);
                lemma_pos_bounds(fi, ti, ni, ki);
                assert((k + 1) * (stride as int) <= n * (stride as int)) by (nonlinear_arith)
                    requires
                        k + 1 <= n,
                        stride as int >= 0;
                assert((k + 1) * (stride as int) == k * (stride as int) + (stride as int))
                    by (nonlinear_arith);
            }
            let src = read - 1;
            let t64 = (wfix - stride) / 256;
            proof {
                assert(t64 as int == spread_pos(fi, ti, ni, ki));
            }
            let t = t64 as usize;
            proof {
                if k >= 1 {
                    lemma_pos_step(fi, ti, ni, ki - 1);
                }
                assert(t >= src) by {
                    assert(from + (n - 1 - ki) <= spread_pos(fi, ti, ni, ki));
                }
            }
            if t > src {
                let v = self.data[src];
                let ghost s0 = self.slots();
                proof {
                    // the target and everything between it and the source are gaps:
                    // every key right of the packed prefix sits at an earlier target,
                    // and those all lie strictly above this one
                    assert forall|q: int| src < q <= t as int implies !slot_full(s0, q) by {
                        if slot_full(s0, q) {
                            let j = choose|j: int|
                                0 <= j < ki && q == spread_pos(fi, ti, ni, j);
                            lemma_pos_decreasing(fi, ti, ni, j, ki);
                        }
                    }
                }
                self.data.set(t, v);
                self.data.set(src, None);
                proof {
                    lemma_move_slot(s0, src as int, t as int);
                    lemma_occ_in_update(s0, t as int, s0[src as int], fi, ti);
                    lemma_occ_in_update(
                        s0.update(t as int, s0[src as int]),
                        src as int,
                        None,
                        fi,
                        ti,
                    );
                    assert(slot_full(s0, src as int));
                    assert(self.slots()[t as int] == s0[src as int]);
                    assert(slot_full(self.slots(), t as int));
                    assert(!slot_full(self.slots(), src as int));
                    assert forall|q: int| from <= q < read - 1 implies slot_full(
                        self.slots(),
                        q,
                    ) by {
                        assert(self.slots()[q] == s0[q]);
                        assert(slot_full(s0, q));
                    }
                    assert forall|q: int|
                        read - 1 <= q < to implies (slot_full(self.slots(), q)
                        <==> exists|j: int| 0 <= j <= ki && q == spread_pos(fi, ti, ni, j)) by {
                        if q == t as int {
                            assert(slot_full(self.slots(), q));
                            assert(q == spread_pos(fi, ti, ni, ki));
                        } else if q == src as int {
                            assert(!slot_full(self.slots(), q));
                            assert forall|j: int| 0 <= j <= ki implies q != spread_pos(
                                fi,
                                ti,
                                ni,
                                j,
                            ) by {
                                if j < ki {
                                    lemma_pos_decreasing(fi, ti, ni, j, ki);
                                }
                            }
                        } else {
                            assert(self.slots()[q] == s0[q]);
                            if slot_full(self.slots(), q) {
                                assert(q >= read);
                                assert(slot_full(s0, q));
                                assert(exists|j: int|
                                    0 <= j < ki && q == spread_pos(fi, ti, ni, j));
                                let j = choose|j: int|
                                    0 <= j < ki && q == spread_pos(fi, ti, ni, j);
                                assert(q == spread_pos(fi, ti, ni, j));
                            } else {
                                assert(!slot_full(s0, q));
                                if exists|j: int| 0 <= j <= ki && q == spread_pos(fi, ti, ni, j) {
                                    let j = choose|j: int|
                                        0 <= j <= ki && q == spread_pos(fi, ti, ni, j);
                                    assert(j < ki);
                                    if q >= read {
                                        assert(exists|jj: int|
                                            0 <= jj < ki && q == spread_pos(fi, ti, ni, jj));
                                        assert(slot_full(s0, q));
                                        assert(false);
                                    } else {
                                        assert(q == read - 1);
                                        assert(false);
                                    }
                                }
                            }
                        }
                    }
                }
            } else {
                proof {
                    assert(t == src);
                    assert forall|q: int|
                        read - 1 <= q < to implies (slot_full(self.slots(), q)
                        <==> exists|j: int| 0 <= j <= ki && q == spread_pos(fi, ti, ni, j)) by {
                        if q == src as int {
                            assert(slot_full(self.slots(), q));
                            assert(q == spread_pos(fi, ti, ni, ki));
                        } else {
                            if slot_full(self.slots(), q) {
                                assert(q >= read);
                            } else {
                                if exists|j: int| 0 <= j <= ki && q == spread_pos(fi, ti, ni, j) {
                                    let j = choose|j: int|
                                        0 <= j <= ki && q == spread_pos(fi, ti, ni, j);
                                    if j == ki {
                                        assert(q == src as int);
                                    } else {
                                        assert(q >= read) by {
                                            lemma_pos_decreasing(fi, ti, ni, j, ki);
                                        }
                                        assert(slot_full(self.slots(), q));
                                    }
                                }
                            }
                        }
                    }
                }
            }
            k += 1;
            read -= 1;
            wfix = wfix - stride;
        }
    }

    /// After a mutation at `index`, climbs the implicit window tree: the
    /// first level whose window is balanced is packed and spread again; when
    /// even the root window is out of bounds, the whole array is resized.
    #[verifier::loop_isolation(false)]
    #[verifier::rlimit(60)]
    fn rebalance(&mut self, index: usize)
        requires
            old(self).geometry_ok(),
            keys_sorted(old(self).slots()),
            occ_in(old(self).slots(), 0, old(self).capacity as int) == old(self).len,
            old(self).len <= old(self).capacity,
            old(self).len <= MAX_KEYS,
            index < old(self).capacity,
        ensures
            final(self).wf(),
            final(self).len == old(self).len,
            forall|v: i32|
                has_key(final(self).slots(), v) == has_key(old(self).slots(), v),
            old(self).len == 0 ==> *final(self) == *old(self),
            old(self).len >= 1 && some_window_balanced(
                old(self).slots(),
                old(self).segment_size as int,
                old(self).height as int,
                index as int,
            ) ==> {
                &&& final(self).capacity == old(self).capacity
                &&& final(self).segment_size == old(self).segment_size
                &&& final(self).num_segments == old(self).num_segments
                &&& final(self).height == old(self).height
                &&& (exists|l: int|
                    rebalance_footprint(*old(self), *final(self), index as int, l))
                &&& (exists|l: int| window_rebalanced(*final(self), index as int, l))
            },
            old(self).len >= 1 && !some_window_balanced(
                old(self).slots(),
                old(self).segment_size as int,
                old(self).height as int,
                index as int,
            ) ==> planner_ok(
                final(self).len as int,
                final(self).segment_size as int,
                final(self).num_segments as int,
                final(self).capacity as int,
            ),
    {
        proof {
            vstd::arithmetic::power2::lemma_pow2_pos((self.height - 1) as nat);
            assert(self.capacity >= 4) by (nonlinear_arith)
                requires
                    self.capacity == self.segment_size * self.num_segments * 4,
                    self.segment_size >= 1,
                    self.num_segments >= 1;
        }
        if self.len == 0 {
            // an empty array has nothing to balance, and no shrink path is
            // defined: leave the geometry as it is
            return ;
        }
        let ghost s = self.slots();
        let ghost ssi = self.segment_size as int;
        let ghost hi_ = self.height as int;
        let mut level: usize = 0;
        let mut w: usize = self.segment_size;
        let mut lo: usize = index;
        let mut hi: usize = index + 1;
        let mut occ: usize = if self.data[index].is_some() {
            1
        } else {
            0
        };
        proof {
            vstd::arithmetic::power2::lemma2_to64();
            assert(occ_in(s, index as int, index as int) == 0);
            assert(occ as int == occ_in(s, index as int, index + 1));
            assert(self.num_segments <= self.capacity) by (nonlinear_arith)
                requires
                    self.capacity == self.segment_size * self.num_segments * 4,
                    self.segment_size >= 1,
                    self.num_segments >= 0;
            if self.height > 31 {
                vstd::arithmetic::power2::lemma_pow2_strictly_increases(
                    30,
                    (self.height - 1) as nat,
                );
                assert(false);
            }
            lemma_cap_window_multiple(ssi, 0, hi_);
            assert(ssi * pow2(0) == ssi);
            assert(w * (4 * pow2((self.height - 1 - 0) as nat)) == self.capacity);
        }
        loop
            invariant
                self == old(self),
                level < self.height,
                w as int == ssi * pow2(level as nat),
                1 <= w,
                w * (4 * pow2((self.height - 1 - level) as nat)) == self.capacity,
                lo <= index < hi,
                hi <= self.capacity,
                occ as int == occ_in(s, lo as int, hi as int),
                (level == 0 && lo == index && hi == index + 1) || (level >= 1 && lo as int
                    == window_start(index as int, ssi * pow2((level - 1) as nat)) && hi as int
                    == lo as int + ssi * pow2((level - 1) as nat) && 2 * (ssi * pow2(
                    (level - 1) as nat,
                )) == w as int),
                forall|l: int| 0 <= l < level ==> !window_balanced(s, ssi, hi_, index as int, l),
            decreases self.height - level,
        {
            proof {
                lemma_window_contains(index as int, w as int);
                lemma_window_fits(
                    index as int,
                    w as int,
                    4 * pow2((self.height - 1 - level) as nat) as int,
                );
                if level >= 1 {
                    lemma_window_step(index as int, ssi * pow2((level - 1) as nat));
                    vstd::arithmetic::power2::lemma_pow2_unfold(level as nat);
                    assert(ssi * (pow2((level - 1) as nat) * 2) == 2 * (ssi * pow2(
                        (level - 1) as nat,
                    ))) by (nonlinear_arith);
                }
            }
            let ws_ = (index / w) * w;
            let we_ = ws_ + w;
            proof {
                assert(ws_ as int == window_start(index as int, w as int));
                assert(ws_ <= lo);
                assert(hi <= we_);
            }
            while lo > ws_
                invariant
                    ws_ <= lo,
                    lo <= index,
                    occ as int == occ_in(s, lo as int, hi as int),
                decreases lo,
            {
                lo = lo - 1;
                let full = self.data[lo].is_some();
                proof {
                    lemma_occ_in_split(s, lo as int, lo + 1, hi as int);
                    assert(occ_in(s, lo as int, lo as int) == 0);
                    lemma_occ_in_bounds(s, lo + 1, hi as int);
                }
                if full {
                    occ = occ + 1;
                }
            }
            while hi < we_
                invariant
                    index < hi <= we_,
                    occ as int == occ_in(s, lo as int, hi as int),
                decreases we_ - hi,
            {
                let full = self.data[hi].is_some();
                proof {
                    lemma_occ_in_split(s, lo as int, hi as int, hi + 1);
                    assert(occ_in(s, hi as int, hi as int) == 0);
                    lemma_occ_in_bounds(s, lo as int, hi as int);
                }
                if full {
                    occ = occ + 1;
                }
                hi = hi + 1;
            }
            proof {
                lemma_occ_in_bounds(s, ws_ as int, we_ as int);
                vstd::arithmetic::power2::lemma_pow2_pos((self.height - 1 - level) as nat);
                assert(w <= self.capacity) by (nonlinear_arith)
                    requires
                        w * (4 * pow2((self.height - 1 - level) as nat)) == self.capacity,
                        pow2((self.height - 1 - level) as nat) >= 1,
                        w >= 0;
                assert(occ <= w);
                assert((occ as int) * 4 * (self.height as int) <= 0x7C_0000_0000int)
                    by (nonlinear_arith)
                    requires
                        0 <= occ <= 0x4000_0000,
                        0 <= self.height <= 31;
                assert((w as int) * ((self.height + level) as int) <= 0xF8_0000_0000int)
                    by (nonlinear_arith)
                    requires
                        0 <= w <= 0x4000_0000,
                        0 <= self.height + level <= 62;
                assert((w as int) * ((4 * self.height - level) as int) <= 0x1F0_0000_0000int)
                    by (nonlinear_arith)
                    requires
                        0 <= w <= 0x4000_0000,
                        0 <= 4 * self.height - level <= 124;
            }
            let h = self.height;
            let lower_ok = (occ as u64) * 4 * (h as u64) >= (w as u64) * ((h + level) as u64);
            let upper_ok = (occ as u64) * 4 * (h as u64) < (w as u64) * ((4 * h - level) as u64);
            if lower_ok && upper_ok {
                proof {
                    assert(window_balanced(s, ssi, hi_, index as int, level as int));
                    assert(some_window_balanced(s, ssi, hi_, index as int));
                    assert(occ >= 1) by (nonlinear_arith)
                        requires
                            occ * 4 * (hi_) >= w * (hi_ + level),
                            w >= 1,
                            hi_ >= 1,
                            level >= 0,
                            occ >= 0;
                    assert(occ < w) by (nonlinear_arith)
                        requires
                            occ * 4 * (hi_) < w * (4 * hi_ - level),
                            w >= 1,
                            hi_ >= 1,
                            0 <= level;
                }
                let nn = self.pack(ws_, we_);
                let ghost sp = self.slots();
                self.spread(ws_, we_, nn);
                proof {
                    let s2 = self.slots();
                    assert forall|q: int|
                        0 <= q < s.len() && !(ws_ <= q < we_) implies s2[q] == s[q] by {
                        assert(sp[q] == s[q]);
                        assert(s2[q] == sp[q]);
                    }
                    lemma_occ_in_agree(s, s2, 0, ws_ as int);
                    lemma_occ_in_agree(s, s2, we_ as int, self.capacity as int);
                    lemma_occ_in_split(s, 0, ws_ as int, self.capacity as int);
                    lemma_occ_in_split(s, ws_ as int, we_ as int, self.capacity as int);
                    lemma_occ_in_split(s2, 0, ws_ as int, self.capacity as int);
                    lemma_occ_in_split(s2, ws_ as int, we_ as int, self.capacity as int);
                    assert(occ_in(s2, 0, self.capacity as int) == self.len);
                    lemma_occ_in_bounds(s, 0, ws_ as int);
                    lemma_occ_in_bounds(s, we_ as int, self.capacity as int);
                    assert(self.len < self.capacity);
                    assert(window_balanced(s2, ssi, hi_, index as int, level as int));
                    assert(some_window_balanced(s2, ssi, hi_, index as int));
                    assert(evenly_spread(s2, ws_ as int, we_ as int, nn as int));
                    assert(rebalance_footprint(*old(self), *self, index as int, level as int))
                        by {
                        assert(occ_in(s, ws_ as int, we_ as int) == nn);
                        assert(ws_ as int == window_start(index as int, w as int));
                    }
                    assert(window_rebalanced(*self, index as int, level as int)) by {
                        assert(occ_in(s2, ws_ as int, we_ as int) == nn);
                        assert(ws_ as int == window_start(index as int, w as int));
                    }
                }
                return ;
            }
            proof {
                assert(!window_balanced(s, ssi, hi_, index as int, level as int));
            }
            if level + 1 < self.height {
                proof {
                    vstd::arithmetic::power2::lemma_pow2_unfold((level + 1) as nat);
                    assert(ssi * pow2((level + 1) as nat) == 2 * (ssi * pow2(level as nat)))
                        by (nonlinear_arith)
                        requires
                            pow2((level + 1) as nat) == 2 * pow2(level as nat);
                    vstd::arithmetic::power2::lemma_pow2_pos(
                        (self.height - 1 - (level + 1)) as nat,
                    );
                    vstd::arithmetic::power2::lemma_pow2_unfold(
                        (self.height - 1 - level) as nat,
                    );
                    assert((2 * w) * (4 * pow2((self.height - 1 - (level + 1)) as nat))
                        == w * (4 * (2 * pow2((self.height - 2 - level) as nat))))
                        by (nonlinear_arith);
                }
                w = w * 2;
                level = level + 1;
            } else {
                proof {
                    assert(level == self.height - 1);
                    if some_window_balanced(s, ssi, hi_, index as int) {
                        let l = choose|l: int|
                            0 <= l < hi_ && #[trigger] window_balanced(
                                s,
                                ssi,
                                hi_,
                                index as int,
                                l,
                            );
                        assert(!window_balanced(s, ssi, hi_, index as int, l));
                        assert(false);
                    }
                }
                self.resize();
                return ;
            }
        }
    }

    /// Derives segment size, segment count and capacity anew from the current
    /// number of keys, per the capacity planner's formulas.
    fn compute_capacity(&mut self)
        requires
            1 <= old(self).len,
            old(self).len <= MAX_KEYS,
        ensures
            final(self).data == old(self).data,
            final(self).len == old(self).len,
            final(self).height == old(self).height,
            planner_ok(
                final(self).len as int,
                final(self).segment_size as int,
                final(self).num_segments as int,
                final(self).capacity as int,
            ),
            final(self).len < final(self).capacity,
            final(self).capacity <= CAPACITY_LIMIT,
            final(self).segment_size >= 1,
            final(self).capacity == final(self).segment_size * final(self).num_segments * 4,
            exists|k: int| 0 <= k <= 30 && final(self).num_segments == #[trigger] pow2(k as nat),
    {
        let n = self.len;
        let e = if n <= 2 {
            1
        } else {
            crate::util::ceil_log2(n)
        };
        proof {
            vstd::arithmetic::power2::lemma2_to64();
            if n > 2 {
                assert(e >= 1);
            }
        }
        let ns0 = crate::util::ceil_div(n, e);
        proof {
            assert(ns0 <= n) by (nonlinear_arith)
                requires
                    (ns0 - 1) * e < n,
                    e >= 1,
                    ns0 >= 1;
        }
        let ns = crate::util::ceil_hyper(ns0);
        let sd = crate::util::ceil_div(n, ns);
        proof {
            assert(sd <= n) by (nonlinear_arith)
                requires
                    (sd - 1) * ns < n,
                    ns >= 1,
                    sd >= 1;
            assert(sd * ns < n + ns) by (nonlinear_arith)
                requires
                    (sd - 1) * ns < n,
                    ns >= 1;
            assert(n <= sd * ns);
        }
        let ss = sd * crate::util::MAX_SPARSENESS;
        let ghost ki = choose|k: nat| k <= 31 && ns == pow2(k);
        proof {
            vstd::arithmetic::power2::lemma2_to64();
            if ki > 25 {
                vstd::arithmetic::power2::lemma_pow2_strictly_increases(25, ki);
                assert(ns > 0x200_0000);
                assert(false);
            }
        }
        proof {
            assert(ss * ns == 4 * (sd * ns)) by (nonlinear_arith)
                requires
                    ss == sd * 4;
            assert(ns <= 2 * n);
            assert(ss * ns < 4 * (n + ns));
        }
        self.segment_size = ss;
        self.num_segments = ns;
        self.capacity = ss * ns * crate::util::MAX_SPARSENESS;
        proof {
            assert(self.capacity == 16 * (sd * ns)) by (nonlinear_arith)
                requires
                    self.capacity == (ss * ns) * 4,
                    ss * ns == 4 * (sd * ns);
            assert(self.capacity > n) by (nonlinear_arith)
                requires
                    self.capacity == 16 * (sd * ns),
                    n <= sd * ns,
                    n >= 1;
            let ei: int = e as int;
            let kz: int = ki as int;
            assert(planner_ok(
                self.len as int,
                self.segment_size as int,
                self.num_segments as int,
                self.capacity as int,
            )) by {
                assert(ceil_div_spec(self.len as int, ei) == ns0 as int);
                assert(ceil_div_spec(self.len as int, ns as int) == sd as int);
                assert(pow2(kz as nat) == ns);
                assert((ss * ns) * 4 == ss * ns * 4);
            }
            assert(exists|k: int| 0 <= k <= 30 && self.num_segments == #[trigger] pow2(k as nat)) by {
                assert(pow2(kz as nat) == ns);
            }
        }
    }

    /// Packs every key into the buffer's prefix, recomputes the geometry for
    /// the current number of keys, rebuilds the buffer at the new capacity,
    /// and spreads the keys evenly across all of it.
    fn resize(&mut self)
        requires
            old(self).geometry_ok(),
            keys_sorted(old(self).slots()),
            occ_in(old(self).slots(), 0, old(self).capacity as int) == old(self).len,
            1 <= old(self).len,
            old(self).len <= old(self).capacity,
            old(self).len <= MAX_KEYS,
        ensures
            final(self).wf(),
            final(self).len == old(self).len,
            forall|v: i32| has_key(final(self).slots(), v) == has_key(old(self).slots(), v),
            planner_ok(
                final(self).len as int,
                final(self).segment_size as int,
                final(self).num_segments as int,
                final(self).capacity as int,
            ),
            evenly_spread(
                final(self).slots(),
                0,
                final(self).capacity as int,
                final(self).len as int,
            ),
    {
        let cap_old = self.capacity;
        let n = self.pack(0, cap_old);
        self.compute_capacity();
        let ghost ki = choose|k: int| 0 <= k <= 30 && self.num_segments == #[trigger] pow2(k as nat);
        proof {
            vstd::arithmetic::power2::lemma2_to64();
            if ki > 0 {
                vstd::arithmetic::power2::lemma_pow2_strictly_increases(0, ki as nat);
            }
            if ki < 30 {
                vstd::arithmetic::power2::lemma_pow2_strictly_increases(ki as nat, 30);
            }
        }
        let fl = crate::util::floor_log2(self.num_segments);
        self.height = fl + 1;
        proof {
            lemma_pow2_log(ki as nat, fl as nat);
        }
        let cap = self.capacity;
        let ghost packed = self.slots();
        let mut nd: Vec<Option<i32>> = Vec::new();
        let mut i: usize = 0;
        while i < n
            invariant
                i <= n,
                n <= cap_old,
                cap_old <= self.data@.len(),
                self.slots() == packed,
                nd@.len() == i,
                forall|q: int| 0 <= q < i ==> nd@[q] == packed[q],
            decreases n - i,
        {
            let v = self.data[i];
            let ghost d0 = nd@;
            nd.push(v);
            proof {
                assert forall|q: int| 0 <= q < nd@.len() implies nd@[q] == packed[q] by {
                    if q < d0.len() {
                        assert(nd@[q] == d0[q]);
                    } else {
                        assert(nd@[q] == packed[i as int]);
                    }
                }
            }
            i += 1;
        }
        while nd.len() < cap
            invariant
                n <= nd@.len(),
                nd@.len() <= cap,
                n <= packed.len(),
                self.slots() == packed,
                forall|q: int| 0 <= q < n ==> nd@[q] == packed[q],
                forall|q: int| n <= q < nd@.len() ==> !slot_full(nd@, q),
            decreases cap - nd.len(),
        {
            let ghost d0 = nd@;
            nd.push(None);
            proof {
                assert forall|q: int| 0 <= q < nd@.len() implies nd@[q] == if q < d0.len() {
                    d0[q]
                } else {
                    None
                } by {
                }
                assert forall|q: int| n <= q < nd@.len() implies !slot_full(nd@, q) by {
                    if q < d0.len() {
                        assert(!slot_full(d0, q));
                        assert(nd@[q] == d0[q]);
                    } else {
                        assert(nd@[q] is None);
                    }
                }
                assert forall|q: int| 0 <= q < n implies nd@[q] == packed[q] by {
                    assert(nd@[q] == d0[q]);
                }
            }
        }
        proof {
            assert(nd@.len() == cap);
            assert forall|q: int| 0 <= q < n implies slot_full(nd@, q) by {
                assert(nd@[q] == packed[q]);
                assert(slot_full(packed, q));
            }
            assert(keys_sorted(nd@)) by {
                assert forall|a: int, b: int|
                    0 <= a < b < nd@.len() && slot_full(nd@, a) && slot_full(nd@, b) implies key_at(
                    nd@,
                    a,
                ) < key_at(nd@, b) by {
                    assert(a < n && b < n);
                    assert(nd@[a] == packed[a] && nd@[b] == packed[b]);
                    crate::slots::lemma_sorted_pair(packed, a, b);
                }
            }
            assert forall|v: i32| has_key(nd@, v) == has_key(packed, v) by {
                if has_key(nd@, v) {
                    let q = choose|q: int| 0 <= q < nd@.len() && nd@[q] == Some(v);
                    if q >= n {
                        assert(!slot_full(nd@, q));
                        assert(false);
                    }
                    assert(q < n);
                    assert(packed[q] == Some(v));
                    assert(has_key(packed, v));
                }
                if has_key(packed, v) {
                    let q = choose|q: int| 0 <= q < packed.len() && packed[q] == Some(v);
                    assert(slot_full(packed, q));
                    assert(q < n);
                    assert(nd@[q] == Some(v));
                    assert(has_key(nd@, v));
                }
            }
        }
        self.data = nd;
        self.spread(0, cap, n);
        proof {
            lemma_occ_in_bounds(self.slots(), 0, self.capacity as int);
        }
    }

    /// Shifts the solid run `[start, gap)` one slot right into the gap,
    /// freeing the slot `start`.
    fn shift_right(&mut self, start: usize, gap: usize)
        requires
            start <= gap,
            gap < old(self).data@.len(),
            keys_sorted(old(self).slots()),
            forall|q: int| start <= q < gap ==> slot_full(old(self).slots(), q),
            !slot_full(old(self).slots(), gap as int),
        ensures
            final(self).data@.len() == old(self).data@.len(),
            forall|q: int|
                0 <= q < old(self).data@.len() && !(start <= q <= gap) ==> final(self).slots()[q]
                    == old(self).slots()[q],
            !slot_full(final(self).slots(), start as int),
            forall|q: int| start < q <= gap ==> final(self).slots()[q] == old(self).slots()[q - 1],
            keys_sorted(final(self).slots()),
            forall|v: i32| has_key(final(self).slots(), v) == has_key(old(self).slots(), v),
            occ_in(final(self).slots(), 0, final(self).data@.len() as int) == occ_in(
                old(self).slots(),
                0,
                old(self).data@.len() as int,
            ),
            final(self).len == old(self).len,
            final(self).capacity == old(self).capacity,
            final(self).segment_size == old(self).segment_size,
            final(self).num_segments == old(self).num_segments,
            final(self).height == old(self).height,
    {
        let mut kk = gap;
        while kk > start
            invariant
                start <= kk <= gap,
                gap < self.data@.len(),
                self.data@.len() == old(self).data@.len(),
                keys_sorted(self.slots()),
                forall|v: i32| has_key(self.slots(), v) == has_key(old(self).slots(), v),
                occ_in(self.slots(), 0, self.data@.len() as int) == occ_in(
                    old(self).slots(),
                    0,
                    old(self).data@.len() as int,
                ),
                forall|q: int|
                    0 <= q < self.data@.len() && !(start <= q <= gap) ==> self.slots()[q] == old(
                        self,
                    ).slots()[q],
                forall|q: int| start <= q < kk ==> self.slots()[q] == old(self).slots()[q],
                forall|q: int| start <= q < kk ==> slot_full(self.slots(), q),
                !slot_full(self.slots(), kk as int),
                forall|q: int| kk < q <= gap ==> self.slots()[q] == old(self).slots()[q - 1],
                self.len == old(self).len,
                self.capacity == old(self).capacity,
                self.segment_size == old(self).segment_size,
                self.num_segments == old(self).num_segments,
                self.height == old(self).height,
            decreases kk,
        {
            let v = self.data[kk - 1];
            let ghost sc = self.slots();
            self.data.set(kk, v);
            self.data.set(kk - 1, None);
            proof {
                lemma_move_slot(sc, kk - 1, kk as int);
                lemma_occ_in_update(sc, kk as int, sc[kk - 1], 0, sc.len() as int);
                lemma_occ_in_update(
                    sc.update(kk as int, sc[kk - 1]),
                    kk - 1,
                    None,
                    0,
                    sc.len() as int,
                );
                assert forall|q: int| start <= q < kk - 1 implies slot_full(self.slots(), q) by {
                    assert(self.slots()[q] == sc[q]);
                    assert(slot_full(sc, q));
                }
            }
            kk = kk - 1;
        }
    }

    /// Shifts the solid run `(gap, end]` one slot left into the gap, freeing
    /// the slot `end`.
    fn shift_left(&mut self, gap: usize, end: usize)
        requires
            gap <= end,
            end < old(self).data@.len(),
            keys_sorted(old(self).slots()),
            forall|q: int| gap < q <= end ==> slot_full(old(self).slots(), q),
            !slot_full(old(self).slots(), gap as int),
        ensures
            final(self).data@.len() == old(self).data@.len(),
            forall|q: int|
                0 <= q < old(self).data@.len() && !(gap <= q <= end) ==> final(self).slots()[q]
                    == old(self).slots()[q],
            !slot_full(final(self).slots(), end as int),
            forall|q: int| gap <= q < end ==> final(self).slots()[q] == old(self).slots()[q + 1],
            keys_sorted(final(self).slots()),
            forall|v: i32| has_key(final(self).slots(), v) == has_key(old(self).slots(), v),
            occ_in(final(self).slots(), 0, final(self).data@.len() as int) == occ_in(
                old(self).slots(),
                0,
                old(self).data@.len() as int,
            ),
            final(self).len == old(self).len,
            final(self).capacity == old(self).capacity,
            final(self).segment_size == old(self).segment_size,
            final(self).num_segments == old(self).num_segments,
            final(self).height == old(self).height,
    {
        let mut kk = gap;
        while kk < end
            invariant
                gap <= kk <= end,
                end < self.data@.len(),
                self.data@.len() == old(self).data@.len(),
                keys_sorted(self.slots()),
                forall|v: i32| has_key(self.slots(), v) == has_key(old(self).slots(), v),
                occ_in(self.slots(), 0, self.data@.len() as int) == occ_in(
                    old(self).slots(),
                    0,
                    old(self).data@.len() as int,
                ),
                forall|q: int|
                    0 <= q < self.data@.len() && !(gap <= q <= end) ==> self.slots()[q] == old(
                        self,
                    ).slots()[q],
                forall|q: int| kk < q <= end ==> self.slots()[q] == old(self).slots()[q],
                forall|q: int| kk < q <= end ==> slot_full(self.slots(), q),
                !slot_full(self.slots(), kk as int),
                forall|q: int| gap <= q < kk ==> self.slots()[q] == old(self).slots()[q + 1],
                self.len == old(self).len,
                self.capacity == old(self).capacity,
                self.segment_size == old(self).segment_size,
                self.num_segments == old(self).num_segments,
                self.height == old(self).height,
            decreases end - kk,
        {
            let v = self.data[kk + 1];
            let ghost sc = self.slots();
            self.data.set(kk, v);
            self.data.set(kk + 1, None);
            proof {
                lemma_move_slot(sc, kk + 1, kk as int);
                lemma_occ_in_update(sc, kk as int, sc[kk + 1], 0, sc.len() as int);
                lemma_occ_in_update(
                    sc.update(kk as int, sc[kk + 1]),
                    kk + 1,
                    None,
                    0,
                    sc.len() as int,
                );
                assert forall|q: int| kk + 1 < q <= end implies slot_full(self.slots(), q) by {
                    assert(self.slots()[q] == sc[q]);
                    assert(slot_full(sc, q));
                }
            }
            kk = kk + 1;
        }
    }

    /// Writes `value` into the gap at `pos`, counts it, and rebalances the
    /// window tree at that slot.
    fn place_at(&mut self, value: i32, pos: usize)
        requires
            old(self).geometry_ok(),
            keys_sorted(old(self).slots()),
            occ_in(old(self).slots(), 0, old(self).capacity as int) == old(self).len,
            old(self).len < old(self).capacity,
            old(self).len < MAX_KEYS,
            pos < old(self).capacity,
            !slot_full(old(self).slots(), pos as int),
            forall|q: int|
                0 <= q < pos && slot_full(old(self).slots(), q) ==> key_at(old(self).slots(), q)
                    < value,
            forall|q: int|
                pos < q < old(self).capacity && slot_full(old(self).slots(), q) ==> key_at(
                    old(self).slots(),
                    q,
                ) > value,
        ensures
            final(self).wf(),
            final(self).len == old(self).len + 1,
            forall|x: i32|
                final(self).contains_key(x) == (has_key(old(self).slots(), x) || x == value),
            rebalance_outcome(*old(self), *final(self)),
    {
        let ghost sb = self.slots();
        self.data.set(pos, Some(value));
        proof {
            let s2 = self.slots();
            lemma_occ_in_update(sb, pos as int, Some(value), 0, self.capacity as int);
            assert(keys_sorted(s2)) by {
                assert forall|p: int, q: int|
                    0 <= p < q < s2.len() && slot_full(s2, p) && slot_full(s2, q) implies key_at(
                    s2,
                    p,
                ) < key_at(s2, q) by {
                    if p == pos {
                        assert(s2[q] == sb[q]);
                        assert(slot_full(sb, q));
                        assert(key_at(sb, q) > value);
                        assert(key_at(s2, p) == value);
                        assert(key_at(s2, q) == key_at(sb, q));
                    } else if q == pos {
                        assert(s2[p] == sb[p]);
                        assert(slot_full(sb, p));
                        assert(key_at(sb, p) < value);
                        assert(key_at(s2, q) == value);
                        assert(key_at(s2, p) == key_at(sb, p));
                    } else {
                        assert(s2[p] == sb[p] && s2[q] == sb[q]);
                        crate::slots::lemma_sorted_pair(sb, p, q);
                    }
                }
            }
            assert forall|x: i32| has_key(s2, x) == (has_key(sb, x) || x == value) by {
                if x == value {
                    assert(s2[pos as int] == Some(x));
                    assert(has_key(s2, x));
                } else {
                    if has_key(s2, x) {
                        let w = choose|w: int| 0 <= w < s2.len() && s2[w] == Some(x);
                        assert(w != pos);
                        assert(sb[w] == Some(x));
                        assert(has_key(sb, x));
                    }
                    if has_key(sb, x) {
                        let w = choose|w: int| 0 <= w < sb.len() && sb[w] == Some(x);
                        assert(w != pos);
                        assert(s2[w] == Some(x));
                        assert(has_key(s2, x));
                    }
                }
            }
        }
        self.len = self.len + 1;
        let ghost mid = *self;
        self.rebalance(pos);
        proof {
            if some_window_balanced(
                mid.slots(),
                mid.segment_size as int,
                mid.height as int,
                pos as int,
            ) {
                let l = choose|l: int| window_rebalanced(*self, pos as int, l);
                assert((pos as int) < self.capacity as int);
                assert(window_rebalanced(*self, pos as int, l));
            }
        }
    }

    /// Places `value` beside its search anchor: the run of neighbours up to
    /// the nearest gap on the right is shifted right, or, when the buffer is
    /// solid from the anchor to the right edge, the run left of the anchor
    /// is shifted left instead.
    #[verifier::loop_isolation(false)]
    fn insert_after(&mut self, value: i32, anchor: Option<usize>)
        requires
            old(self).wf(),
            old(self).len < MAX_KEYS,
            !old(self).contains_key(value),
            anchor_ok(old(self).slots(), old(self).capacity as int, anchor, value),
        ensures
            final(self).wf(),
            final(self).len == old(self).len + 1,
            forall|x: i32|
                final(self).contains_key(x) == (old(self).contains_key(x) || x == value),
            rebalance_outcome(*old(self), *final(self)),
    {
        let cap = self.capacity;
        let ghost s0 = self.slots();
        match anchor {
            None => {
                let mut j: usize = 0;
                while j < cap && self.data[j].is_some()
                    invariant
                        j <= cap,
                        forall|q: int| 0 <= q < j ==> slot_full(s0, q),
                    decreases cap - j,
                {
                    j = j + 1;
                }
                proof {
                    if j == cap {
                        lemma_occ_in_all_full(s0, 0, cap as int);
                        assert(false);
                    }
                }
                self.shift_right(0, j);
                proof {
                    let s1 = self.slots();
                    assert forall|q: int|
                        0 < q < cap && slot_full(s1, q) implies key_at(s1, q) > value by {
                        if q <= j {
                            assert(s1[q] == s0[q - 1]);
                            assert(slot_full(s0, q - 1));
                            assert(key_at(s0, q - 1) > value);
                        } else {
                            assert(s1[q] == s0[q]);
                            assert(slot_full(s0, q));
                            assert(key_at(s0, q) > value);
                        }
                    }
                }
                self.place_at(value, 0);
            },
            Some(a) => {
                proof {
                    assert forall|q: int|
                        0 <= q <= a && slot_full(s0, q) implies key_at(s0, q) < value by {
                        if q < a {
                            crate::slots::lemma_sorted_pair(s0, q, a as int);
                        }
                    }
                }
                let start = a + 1;
                let mut j = start;
                while j < cap && self.data[j].is_some()
                    invariant
                        start <= j <= cap,
                        forall|q: int| start <= q < j ==> slot_full(s0, q),
                    decreases cap - j,
                {
                    j = j + 1;
                }
                if j < cap {
                    self.shift_right(start, j);
                    proof {
                        let s1 = self.slots();
                        assert forall|q: int|
                            0 <= q < start && slot_full(s1, q) implies key_at(s1, q) < value by {
                            assert(s1[q] == s0[q]);
                            assert(slot_full(s0, q) && q <= a);
                            assert(key_at(s0, q) < value);
                        }
                        assert forall|q: int|
                            start < q < cap && slot_full(s1, q) implies key_at(s1, q) > value by {
                            if q <= j {
                                assert(s1[q] == s0[q - 1]);
                                assert(slot_full(s0, q - 1) && a < q - 1);
                                assert(key_at(s0, q - 1) > value);
                            } else {
                                assert(s1[q] == s0[q]);
                                assert(slot_full(s0, q) && a < q);
                                assert(key_at(s0, q) > value);
                            }
                        }
                    }
                    self.place_at(value, start);
                } else {
                    proof {
                        lemma_sparse_range_has_gap(s0, 0, cap as int);
                    }
                    let ghost e = choose|e: int| 0 <= e < cap && !slot_full(s0, e);
                    proof {
                        if e >= start {
                            assert(slot_full(s0, e));
                        }
                        assert(e < a);
                    }
                    let mut g = a - 1;
                    while self.data[g].is_some()
                        invariant
                            0 <= g < a,
                            e <= g,
                            forall|q: int| g < q < a ==> slot_full(s0, q),
                        decreases g,
                    {
                        proof {
                            assert(e < g);
                        }
                        g = g - 1;
                    }
                    self.shift_left(g, a);
                    proof {
                        let s1 = self.slots();
                        assert forall|q: int|
                            0 <= q < a && slot_full(s1, q) implies key_at(s1, q) < value by {
                            if g <= q {
                                assert(s1[q] == s0[q + 1]);
                                assert(slot_full(s0, q + 1) && q + 1 <= a);
                                assert(key_at(s0, q + 1) < value);
                            } else {
                                assert(s1[q] == s0[q]);
                                assert(slot_full(s0, q) && q <= a);
                                assert(key_at(s0, q) < value);
                            }
                        }
                        assert forall|q: int|
                            a < q < cap && slot_full(s1, q) implies key_at(s1, q) > value by {
                            assert(s1[q] == s0[q]);
                            assert(slot_full(s0, q) && a < q);
                            assert(key_at(s0, q) > value);
                        }
                    }
                    self.place_at(value, a);
                }
            },
        }
    }

    /// Adds `value` to the set. Returns true exactly when the key was not
    /// yet present; a duplicate insert is a no-op.
    pub fn insert(&mut self, value: i32) -> (r: bool)
        requires
            old(self).wf(),
            old(self).len < MAX_KEYS,
        ensures
            final(self).wf(),
            r == !old(self).contains_key(value),
            forall|x: i32|
                final(self).contains_key(x) == (old(self).contains_key(x) || x == value),
            final(self).len == old(self).len + (if r {
                1int
            } else {
                0int
            }),
            !r ==> *final(self) == *old(self),
            r ==> rebalance_outcome(*old(self), *final(self)),
    {
        match self.find(value) {
            FindResult::Found(_) => false,
            FindResult::Anchor(a) => {
                self.insert_after(value, a);
                true
            },
        }
    }

    /// Removes `value` from the set by clearing its slot in place, then
    /// rebalances. Returns true exactly when the key was present.
    pub fn delete(&mut self, value: i32) -> (r: bool)
        requires
            old(self).wf(),
        ensures
            final(self).wf(),
            r == old(self).contains_key(value),
            forall|x: i32|
                final(self).contains_key(x) == (old(self).contains_key(x) && x != value),
            final(self).len == old(self).len - (if r {
                1int
            } else {
                0int
            }),
            !r ==> *final(self) == *old(self),
            r ==> rebalance_outcome(*old(self), *final(self)),
    {
        match self.find(value) {
            FindResult::Found(i) => {
                let ghost sb = self.slots();
                proof {
                    lemma_occ_in_split(sb, 0, i as int, self.capacity as int);
                    lemma_occ_in_split(sb, i as int, i + 1, self.capacity as int);
                    assert(occ_in(sb, i as int, i as int) == 0);
                    assert(occ_in(sb, i as int, i + 1) == 1);
                    lemma_occ_in_bounds(sb, 0, i as int);
                    lemma_occ_in_bounds(sb, i + 1, self.capacity as int);
                    assert(self.len >= 1);
                }
                self.data.set(i, None);
                proof {
                    let s2 = self.slots();
                    lemma_occ_in_update(sb, i as int, None, 0, self.capacity as int);
                    assert(keys_sorted(s2)) by {
                        assert forall|p: int, q: int|
                            0 <= p < q < s2.len() && slot_full(s2, p) && slot_full(
                                s2,
                                q,
                            ) implies key_at(s2, p) < key_at(s2, q) by {
                            assert(p != i && q != i);
                            assert(s2[p] == sb[p] && s2[q] == sb[q]);
                            crate::slots::lemma_sorted_pair(sb, p, q);
                        }
                    }
                    assert forall|x: i32| has_key(s2, x) == (has_key(sb, x) && x != value) by {
                        if has_key(s2, x) {
                            let w = choose|w: int| 0 <= w < s2.len() && s2[w] == Some(x);
                            assert(w != i);
                            assert(sb[w] == Some(x));
                            assert(has_key(sb, x));
                            if x == value {
                                lemma_sorted_key_unique(sb, i as int, w);
                                assert(false);
                            }
                        }
                        if has_key(sb, x) && x != value {
                            let w = choose|w: int| 0 <= w < sb.len() && sb[w] == Some(x);
                            assert(w != i);
                            assert(s2[w] == Some(x));
                            assert(has_key(s2, x));
                        }
                    }
                }
                self.len = self.len - 1;
                let ghost mid = *self;
                self.rebalance(i);
                proof {
                    if mid.len >= 1 && some_window_balanced(
                        mid.slots(),
                        mid.segment_size as int,
                        mid.height as int,
                        i as int,
                    ) {
                        let l = choose|l: int| window_rebalanced(*self, i as int, l);
                        assert((i as int) < self.capacity as int);
                        assert(window_rebalanced(*self, i as int, l));
                    }
                }
                true
            },
            FindResult::Anchor(_) => false,
        }
    }

    /// The keys present, read left to right: strictly ascending, one per
    /// key in the set.
    pub fn keys(&self) -> (r: Vec<i32>)
        requires
            self.wf(),
        ensures
            r@.len() == self.len,
            forall|p: int, q: int| 0 <= p < q < r@.len() ==> r@[p] < r@[q],
            forall|x: i32| r@.contains(x) == self.contains_key(x),
    {
        let ghost s = self.slots();
        let mut r: Vec<i32> = Vec::new();
        let mut i: usize = 0;
        while i < self.capacity
            invariant
                i <= self.capacity,
                self.wf(),
                s == self.slots(),
                r@.len() == occ_in(s, 0, i as int),
                forall|p: int, q: int| 0 <= p < q < r@.len() ==> r@[p] < r@[q],
                forall|m: int|
                    0 <= m < r@.len() ==> exists|w: int| 0 <= w < i && s[w] == Some(#[trigger] r@[m]),
                forall|w: int| 0 <= w < i && slot_full(s, w) ==> r@.contains(key_at(s, w)),
            decreases self.capacity - i,
        {
            proof {
                lemma_occ_in_split(s, 0, i as int, i + 1);
                assert(occ_in(s, i as int, i as int) == 0);
            }
            if self.data[i].is_some() {
                let v = self.data[i].unwrap();
                let ghost r0 = r@;
                proof {
                    assert forall|m: int| 0 <= m < r0.len() implies r0[m] < v by {
                        let w = choose|w: int| 0 <= w < i && s[w] == Some(r0[m]);
                        crate::slots::lemma_sorted_pair(s, w, i as int);
                    }
                }
                r.push(v);
                proof {
                    assert forall|m: int| 0 <= m < r@.len() implies exists|w: int|
                        0 <= w < i + 1 && s[w] == Some(#[trigger] r@[m]) by {
                        if m < r0.len() {
                            assert(r@[m] == r0[m]);
                            let w = choose|w: int| 0 <= w < i && s[w] == Some(r0[m]);
                            assert(0 <= w < i + 1 && s[w] == Some(r@[m]));
                        } else {
                            assert(r@[m] == v);
                            assert(s[i as int] == Some(v));
                        }
                    }
                    assert forall|w: int|
                        0 <= w < i + 1 && slot_full(s, w) implies r@.contains(key_at(s, w)) by {
                        if w < i {
                            let m = choose|m: int| 0 <= m < r0.len() && r0[m] == key_at(s, w);
                            assert(r@[m] == key_at(s, w));
                        } else {
                            assert(r@[r0.len() as int] == key_at(s, w));
                        }
                    }
                }
            }
            i = i + 1;
        }
        proof {
            assert forall|x: i32| r@.contains(x) == self.contains_key(x) by {
                if r@.contains(x) {
                    let m = choose|m: int| 0 <= m < r@.len() && r@[m] == x;
                    let w = choose|w: int| 0 <= w < self.capacity && s[w] == Some(r@[m]);
                    assert(has_key(s, x));
                }
                if self.contains_key(x) {
                    let w = choose|w: int| 0 <= w < s.len() && s[w] == Some(x);
                    assert(slot_full(s, w));
                    assert(r@.contains(key_at(s, w)));
                }
            }
        }
        r
    }

    /// Pure membership test.
    pub fn contains(&self, value: i32) -> (r: bool)
        requires
            self.wf(),
        ensures
            r == self.contains_key(value),
    {
        match self.find(value) {
            FindResult::Found(_) => true,
            FindResult::Anchor(_) => false,
        }
    }
}


/// Sortedness: in a well-formed array, occupied slots read left to right
/// hold strictly ascending keys. Every constructor and mutator ensures
/// well-formedness, so this holds after any sequence of inserts and deletes.
pub proof fn lemma_occupied_ascending(p: PackedMemoryArray, i: int, j: int)
    requires
        p.wf(),
        0 <= i < j < p.slots().len(),
        slot_full(p.slots(), i),
        slot_full(p.slots(), j),
    ensures
        key_at(p.slots(), i) < key_at(p.slots(), j),
{
}

/// Round trip: after an insert of `k` the key is present, and after a
/// subsequent delete of `k` it is absent. The hypotheses are exactly the
/// membership clauses that `insert` and `delete` ensure.
pub proof fn lemma_insert_delete_round_trip(
    s0: PackedMemoryArray,
    s1: PackedMemoryArray,
    s2: PackedMemoryArray,
    k: i32,
)
    requires
        forall|x: i32| s1.contains_key(x) == (s0.contains_key(x) || x == k),
        forall|x: i32| s2.contains_key(x) == (s1.contains_key(x) && x != k),
    ensures
        s1.contains_key(k),
        !s2.contains_key(k),
{
    assert(s1.contains_key(k) == (s0.contains_key(k) || k == k));
    assert(s2.contains_key(k) == (s1.contains_key(k) && k != k));
}

/// No duplicates: inserting a fresh key twice in a row succeeds the first
/// time, fails the second, and grows the count by exactly one in total.
/// The hypotheses are exactly what two calls of `insert` ensure.
pub proof fn lemma_no_duplicate_insert(
    s0: PackedMemoryArray,
    s1: PackedMemoryArray,
    s2: PackedMemoryArray,
    k: i32,
    r1: bool,
    r2: bool,
)
    requires
        !s0.contains_key(k),
        r1 == !s0.contains_key(k),
        forall|x: i32| s1.contains_key(x) == (s0.contains_key(x) || x == k),
        s1.len == s0.len + (if r1 { 1int } else { 0int }),
        r2 == !s1.contains_key(k),
        s2.len == s1.len + (if r2 { 1int } else { 0int }),
    ensures
        r1,
        !r2,
        s2.len == s0.len + 1,
{
    assert(s1.contains_key(k) == (s0.contains_key(k) || k == k));
}


/// The planner's slack: sizes that satisfy `planner_ok` give a capacity of
/// at least sixteen times the key count, and in particular more room than
/// keys.
pub proof fn lemma_planner_capacity(n: int, ss: int, ns: int, cap: int)
    requires
        planner_ok(n, ss, ns, cap),
        1 <= n,
    ensures
        cap >= 16 * n,
        cap > n,
{
    let (e, k): (int, int) = choose|e: int, k: int|
        #![trigger ceil_div_spec(n, e), pow2(k as nat)]
        {
            &&& 1 <= e
            &&& (2 < n ==> n <= pow2(e as nat) && pow2((e - 1) as nat) < n)
            &&& (n <= 2 ==> e == 1)
            &&& 0 <= k
            &&& ns == pow2(k as nat)
            &&& ceil_div_spec(n, e) <= ns < 2 * ceil_div_spec(n, e)
            &&& ss == 4 * ceil_div_spec(n, ns)
            &&& cap == ss * ns * 4
        };
    let sd = ceil_div_spec(n, ns);
    vstd::arithmetic::power2::lemma_pow2_pos(k as nat);
    vstd::arithmetic::div_mod::lemma_fundamental_div_mod(n + ns - 1, ns);
    vstd::arithmetic::div_mod::lemma_mod_bound(n + ns - 1, ns);
    assert(sd * ns >= n) by (nonlinear_arith)
        requires
            n + ns - 1 == ns * sd + ((n + ns - 1) % ns),
            0 <= ((n + ns - 1) % ns) < ns,
            1 <= ns;
    assert(cap == 16 * (sd * ns)) by (nonlinear_arith)
        requires
            cap == (4 * sd) * ns * 4;
}

/// Resize trigger, growth direction: when the root window (a quarter of the
/// buffer) holds enough keys to reach its upper density bound, any capacity
/// the planner derives for the present keys strictly exceeds the old one.
pub proof fn lemma_overfull_root_forces_growth(
    occ: int,
    w: int,
    h: int,
    len: int,
    cap: int,
    new_cap: int,
)
    requires
        1 <= h,
        1 <= w,
        cap == 4 * w,
        occ * 4 * h >= w * (4 * h - (h - 1)),
        occ <= len,
        new_cap >= 16 * len,
    ensures
        new_cap > cap,
{
    assert(16 * occ > 3 * (4 * w)) by (nonlinear_arith)
        requires
            occ * 4 * h >= w * (3 * h + 1),
            1 <= h,
            1 <= w;
}

} // verus!
