//! A best-fit, coalescing heap allocator. It tracks block metadata only and
//! never touches the bytes of the region it manages.

use vstd::prelude::*;
use crate::multimap::OrderedSetMultiMap;
use crate::types::{CeriumError, Pointer, Size};

verus! {

#[derive(Copy, Clone, PartialEq, Eq, Structural, Debug)]
pub enum MemoryBlockStatus {
    USED,
    FREE,
}

/// The half-open address range `[start, end)`.
#[derive(Copy, Clone, PartialEq, Eq, Structural, Debug)]
pub struct MemorySpan {
    pub start: u32,
    pub end: u32,
}

impl MemorySpan {
    pub fn size(&self) -> (r: u32)
        requires
            self.start <= self.end,
        ensures
            r == self.end - self.start,
    {
        self.end - self.start
    }
}

/// A heap block. Blocks are kept in address order, so the block before a
/// block is the one that precedes it in that order.
#[derive(Copy, Clone, PartialEq, Eq, Structural, Debug)]
pub struct MemoryBlockInfo {
    pub span: MemorySpan,
    pub status: MemoryBlockStatus,
}

pub open spec fn block(start: u32, end: u32, status: MemoryBlockStatus) -> MemoryBlockInfo {
    MemoryBlockInfo { span: MemorySpan { start, end }, status }
}

pub open spec fn block_size(b: MemoryBlockInfo) -> int {
    b.span.end - b.span.start
}

pub open spec fn is_free(b: MemoryBlockInfo) -> bool {
    b.status == MemoryBlockStatus::FREE
}

/// The entry of a free block in the free-block index: its size and its start.
pub open spec fn free_entry(b: MemoryBlockInfo) -> (u32, u32) {
    ((b.span.end - b.span.start) as u32, b.span.start)
}

/// The free blocks of a layout, indexed by their size.
pub open spec fn free_set(s: Seq<MemoryBlockInfo>) -> Set<(u32, u32)> {
    Set::new(
        |p: (u32, u32)|
            exists|k: int| 0 <= k < s.len() && is_free(#[trigger] s[k]) && p == free_entry(s[k]),
    )
}

/// The blocks cover `[0, frontier)` in address order, without gaps or overlaps.
pub open spec fn tiles(s: Seq<MemoryBlockInfo>, frontier: nat) -> bool {
    &&& s.len() == 0 ==> frontier == 0
    &&& s.len() > 0 ==> s[0].span.start == 0 && s.last().span.end == frontier
    &&& forall|k: int| 0 <= k < s.len() ==> (#[trigger] s[k]).span.start < s[k].span.end
    &&& forall|k: int|
        #![trigger s[k], s[k + 1]]
        0 <= k < s.len() - 1 ==> s[k].span.end == s[k + 1].span.start
}

/// No two neighbouring blocks are both free.
pub open spec fn no_adjacent_free(s: Seq<MemoryBlockInfo>) -> bool {
    forall|k: int| #![trigger s[k], s[k + 1]] 0 <= k < s.len() - 1 ==> !(is_free(s[k]) && is_free(s[k + 1]))
}

/// The last block, if any, is in use: a trailing free block is always dropped.
pub open spec fn trailing_used(s: Seq<MemoryBlockInfo>) -> bool {
    s.len() > 0 ==> !is_free(s.last())
}

/// Block `i` is the free block of at least `n` bytes that comes first by size, then by address.
pub open spec fn is_best_fit(s: Seq<MemoryBlockInfo>, i: int, n: nat) -> bool {
    &&& 0 <= i < s.len()
    &&& is_free(s[i])
    &&& block_size(s[i]) >= n
    &&& forall|j: int|
        0 <= j < s.len() && is_free(#[trigger] s[j]) && block_size(s[j]) >= n ==> block_size(s[i])
            < block_size(s[j]) || (block_size(s[i]) == block_size(s[j]) && s[i].span.start
            <= s[j].span.start)
}

pub open spec fn best_fit(s: Seq<MemoryBlockInfo>, n: nat) -> Option<int> {
    if exists|i: int| is_best_fit(s, i, n) {
        Some(choose|i: int| is_best_fit(s, i, n))
    } else {
        None
    }
}

/// The layout after taking the first `n` bytes of free block `i` into use;
/// the rest, if any, stays free right behind it.
pub open spec fn split_layout(s: Seq<MemoryBlockInfo>, i: int, n: nat) -> Seq<MemoryBlockInfo> {
    let b = s[i];
    if block_size(b) == n {
        s.update(i, block(b.span.start, b.span.end, MemoryBlockStatus::USED))
    } else {
        let mid = (b.span.start + n) as u32;
        s.take(i) + seq![
            block(b.span.start, mid, MemoryBlockStatus::USED),
            block(mid, b.span.end, MemoryBlockStatus::FREE),
        ] + s.skip(i + 1)
    }
}

/// The first block of the run that block `i` joins when it is freed.
pub open spec fn merge_low(s: Seq<MemoryBlockInfo>, i: int) -> int {
    if i > 0 && is_free(s[i - 1]) {
        i - 1
    } else {
        i
    }
}

/// The last block of the run that block `i` joins when it is freed.
pub open spec fn merge_high(s: Seq<MemoryBlockInfo>, i: int) -> int {
    if i + 1 < s.len() && is_free(s[i + 1]) {
        i + 1
    } else {
        i
    }
}

/// The layout after freeing block `i`: it merges with free neighbours, and the
/// merged block is dropped when nothing follows it.
pub open spec fn coalesce_layout(s: Seq<MemoryBlockInfo>, i: int) -> Seq<MemoryBlockInfo> {
    let lo = merge_low(s, i);
    let hi = merge_high(s, i);
    if hi == s.len() - 1 {
        s.take(lo)
    } else {
        s.take(lo) + seq![block(s[lo].span.start, s[hi].span.end, MemoryBlockStatus::FREE)] + s.skip(
            hi + 1,
        )
    }
}

/// The starts of the blocks that are in use.
pub open spec fn used_starts(s: Seq<MemoryBlockInfo>) -> Set<u32> {
    Set::new(|p: u32| exists|k: int| 0 <= k < s.len() && !is_free(#[trigger] s[k]) && s[k].span.start == p)
}

proof fn lemma_tiles_pair(s: Seq<MemoryBlockInfo>, frontier: nat, i: int, j: int)
    requires
        tiles(s, frontier),
        0 <= i < j < s.len(),
    ensures
        s[i].span.end <= s[j].span.start,
    decreases j - i,
{
    if j > i + 1 {
        lemma_tiles_pair(s, frontier, i, j - 1);
        let k = j - 1;
        assert(s[k].span.end == s[k + 1].span.start);
    } else {
        assert(s[i].span.end == s[i + 1].span.start);
    }
}

pub proof fn lemma_tiles_ordered(s: Seq<MemoryBlockInfo>, frontier: nat)
    requires
        tiles(s, frontier),
    ensures
        forall|i: int, j: int| 0 <= i < j < s.len() ==> (#[trigger] s[i]).span.end <= (#[trigger] s[j]).span.start,
        forall|i: int| 0 <= i < s.len() ==> (#[trigger] s[i]).span.end <= frontier,
{
    assert forall|i: int, j: int| 0 <= i < j < s.len() implies (#[trigger] s[i]).span.end <= (#[trigger] s[j]).span.start by {
        lemma_tiles_pair(s, frontier, i, j);
    }
    assert forall|i: int| 0 <= i < s.len() implies (#[trigger] s[i]).span.end <= frontier by {
        if i < s.len() - 1 {
            lemma_tiles_pair(s, frontier, i, s.len() - 1);
        }
    }
}

pub proof fn lemma_free_set_concat(a: Seq<MemoryBlockInfo>, b: Seq<MemoryBlockInfo>)
    ensures
        free_set(a + b) == free_set(a).union(free_set(b)),
{
    let c = a + b;
    assert forall|p: (u32, u32)| free_set(c).contains(p) <==> free_set(a).union(free_set(b)).contains(p) by {
        if free_set(c).contains(p) {
            let k = choose|k: int| 0 <= k < c.len() && is_free(#[trigger] c[k]) && p == free_entry(c[k]);
            if k < a.len() {
                assert(a[k] == c[k]);
                assert(free_set(a).contains(p));
            } else {
                assert(b[k - a.len()] == c[k]);
                assert(free_set(b).contains(p));
            }
        }
        if free_set(a).contains(p) {
            let k = choose|k: int| 0 <= k < a.len() && is_free(#[trigger] a[k]) && p == free_entry(a[k]);
            assert(c[k] == a[k]);
        }
        if free_set(b).contains(p) {
            let k = choose|k: int| 0 <= k < b.len() && is_free(#[trigger] b[k]) && p == free_entry(b[k]);
            assert(c[k + a.len()] == b[k]);
        }
    }
    assert(free_set(c) =~= free_set(a).union(free_set(b)));
}

pub proof fn lemma_free_set_single(b: MemoryBlockInfo)
    ensures
        free_set(seq![b]) == if is_free(b) {
            set![free_entry(b)]
        } else {
            Set::<(u32, u32)>::empty()
        },
{
    let s = seq![b];
    if is_free(b) {
        assert(s[0] == b);
        assert(free_set(s) =~= set![free_entry(b)]);
    } else {
        assert(free_set(s) =~= Set::<(u32, u32)>::empty());
    }
}

/// Blocks that lie back to back, each non-empty, from `start` to `end`.
pub open spec fn spans_range(mid: Seq<MemoryBlockInfo>, start: u32, end: u32) -> bool {
    &&& mid.len() > 0
    &&& mid[0].span.start == start
    &&& mid.last().span.end == end
    &&& forall|k: int| 0 <= k < mid.len() ==> (#[trigger] mid[k]).span.start < mid[k].span.end
    &&& forall|k: int|
        #![trigger mid[k], mid[k + 1]]
        0 <= k < mid.len() - 1 ==> mid[k].span.end == mid[k + 1].span.start
}

/// Replacing the blocks `[i, j)` of a layout by blocks that cover the same range keeps the tiling.
pub proof fn lemma_tiles_replace(
    s: Seq<MemoryBlockInfo>,
    frontier: nat,
    i: int,
    j: int,
    mid: Seq<MemoryBlockInfo>,
)
    requires
        tiles(s, frontier),
        0 <= i < j <= s.len(),
        spans_range(mid, s[i].span.start, s[j - 1].span.end),
    ensures
        tiles(s.take(i) + mid + s.skip(j), frontier),
{
    let n = s.take(i) + mid + s.skip(j);
    assert forall|k: int| 0 <= k < n.len() implies (#[trigger] n[k]).span.start < n[k].span.end by {
        if k < i {
            assert(n[k] == s[k]);
        } else if k < i + mid.len() {
            assert(n[k] == mid[k - i]);
        } else {
            assert(n[k] == s[k - i - mid.len() + j]);
        }
    }
    assert forall|k: int| #![trigger n[k], n[k + 1]] 0 <= k < n.len() - 1 implies n[k].span.end == n[k + 1].span.start by {
        if k + 1 < i {
            assert(n[k] == s[k] && n[k + 1] == s[k + 1]);
        } else if k + 1 == i {
            assert(n[k] == s[k] && n[k + 1] == mid[0]);
            assert(s[k].span.end == s[k + 1].span.start);
        } else if k + 1 < i + mid.len() {
            let m = k - i;
            assert(n[k] == mid[m] && n[k + 1] == mid[m + 1]);
        } else if k + 1 == i + mid.len() {
            let m = k - i;
            assert(n[k] == mid[m]);
            assert(n[k + 1] == s[j]);
            assert(mid[m] == mid.last());
            let q = j - 1;
            assert(s[q].span.end == s[q + 1].span.start);
        } else {
            let q = k - i - mid.len() + j;
            assert(n[k] == s[q] && n[k + 1] == s[q + 1]);
        }
    }
    if i == 0 {
        assert(n[0] == mid[0]);
    } else {
        assert(n[0] == s[0]);
    }
    if j == s.len() {
        assert(n.last() == mid.last());
    } else {
        assert(n.last() == s.last());
    }
}

/// Dropping the blocks from `i` on leaves a layout that ends where block `i` started.
pub proof fn lemma_tiles_truncate(s: Seq<MemoryBlockInfo>, frontier: nat, i: int)
    requires
        tiles(s, frontier),
        0 <= i < s.len(),
    ensures
        tiles(s.take(i), s[i].span.start as nat),
{
    let n = s.take(i);
    assert forall|k: int| #![trigger n[k], n[k + 1]] 0 <= k < n.len() - 1 implies n[k].span.end == n[k + 1].span.start by {
        assert(n[k] == s[k] && n[k + 1] == s[k + 1]);
    }
    if i > 0 {
        let q = i - 1;
        assert(s[q].span.end == s[q + 1].span.start);
        assert(n.last() == s[q]);
    }
}

/// Freeing entries: the free blocks of a layout split into those before `i`,
/// those of `[i, j)` and those from `j` on, and the three parts share no entry.
pub proof fn lemma_free_set_parts(s: Seq<MemoryBlockInfo>, frontier: nat, i: int, j: int)
    requires
        tiles(s, frontier),
        0 <= i <= j <= s.len(),
    ensures
        free_set(s) == free_set(s.take(i)).union(free_set(s.subrange(i, j))).union(free_set(s.skip(j))),
        free_set(s.take(i)).disjoint(free_set(s.subrange(i, j))),
        free_set(s.skip(j)).disjoint(free_set(s.subrange(i, j))),
{
    assert(s =~= s.take(i) + s.subrange(i, j) + s.skip(j));
    lemma_free_set_concat(s.take(i) + s.subrange(i, j), s.skip(j));
    lemma_free_set_concat(s.take(i), s.subrange(i, j));
    lemma_tiles_ordered(s, frontier);
    assert forall|p: (u32, u32)| free_set(s.subrange(i, j)).contains(p) implies !free_set(s.take(i)).contains(p) && !free_set(s.skip(j)).contains(p) by {
        let a = choose|k: int| 0 <= k < j - i && is_free(#[trigger] s.subrange(i, j)[k]) && p == free_entry(s.subrange(i, j)[k]);
        assert(s.subrange(i, j)[a] == s[a + i]);
        if free_set(s.take(i)).contains(p) {
            let b = choose|k: int| 0 <= k < i && is_free(#[trigger] s.take(i)[k]) && p == free_entry(s.take(i)[k]);
            assert(s.take(i)[b] == s[b]);
            assert(s[b].span.end <= s[a + i].span.start);
        }
        if free_set(s.skip(j)).contains(p) {
            let b = choose|k: int| 0 <= k < s.len() - j && is_free(#[trigger] s.skip(j)[k]) && p == free_entry(s.skip(j)[k]);
            assert(s.skip(j)[b] == s[b + j]);
            assert(s[a + i].span.end <= s[b + j].span.start);
        }
    }
    assert(free_set(s.take(i)).disjoint(free_set(s.subrange(i, j))));
    assert(free_set(s.skip(j)).disjoint(free_set(s.subrange(i, j))));
}

/// The free entries after replacing blocks `[i, j)` by `mid`.
pub proof fn lemma_free_set_replace(
    s: Seq<MemoryBlockInfo>,
    frontier: nat,
    i: int,
    j: int,
    mid: Seq<MemoryBlockInfo>,
)
    requires
        tiles(s, frontier),
        0 <= i <= j <= s.len(),
    ensures
        free_set(s.take(i) + mid + s.skip(j)) == free_set(s).difference(free_set(s.subrange(i, j))).union(
            free_set(mid),
        ),
{
    lemma_free_set_parts(s, frontier, i, j);
    lemma_free_set_concat(s.take(i) + mid, s.skip(j));
    lemma_free_set_concat(s.take(i), mid);
    let a = free_set(s.take(i));
    let b = free_set(s.subrange(i, j));
    let c = free_set(s.skip(j));
    let m = free_set(mid);
    assert(a.union(m).union(c) =~= a.union(b).union(c).difference(b).union(m));
}

pub proof fn lemma_free_set_pair(a: MemoryBlockInfo, b: MemoryBlockInfo)
    ensures
        free_set(seq![a, b]) == free_set(seq![a]).union(free_set(seq![b])),
{
    assert(seq![a, b] =~= seq![a] + seq![b]);
    lemma_free_set_concat(seq![a], seq![b]);
}

/// The free-block index: for each size, the starts of the free blocks of that size.
pub struct FreeBlocksMap {
    backing_map: OrderedSetMultiMap,
}

impl View for FreeBlocksMap {
    type V = Set<(u32, u32)>;

    closed spec fn view(&self) -> Set<(u32, u32)> {
        self.backing_map@
    }
}

impl FreeBlocksMap {
    pub closed spec fn wf(&self) -> bool {
        self.backing_map.wf()
    }

    pub fn new() -> (r: FreeBlocksMap)
        ensures
            r.wf(),
            r@ == Set::<(u32, u32)>::empty(),
    {
        FreeBlocksMap { backing_map: OrderedSetMultiMap::new() }
    }

    /// The starts of the free blocks of `size` bytes, in increasing order.
    pub fn get_ptrs_with_size(&self, size: u32) -> (r: Vec<u32>)
        requires
            self.wf(),
        ensures
            crate::multimap::values_increasing(r@),
            forall|p: u32| r@.contains(p) <==> self@.contains((size, p)),
    {
        self.backing_map.get(size)
    }

    pub fn insert(&mut self, size: u32, ptr: u32)
        requires
            old(self).wf(),
        ensures
            final(self).wf(),
            final(self)@ == old(self)@.insert((size, ptr)),
    {
        self.backing_map.insert(size, ptr);
    }

    pub fn remove(&mut self, size: u32, ptr: u32)
        requires
            old(self).wf(),
        ensures
            final(self).wf(),
            final(self)@ == old(self)@.remove((size, ptr)),
    {
        self.backing_map.remove(size, ptr);
    }

    /// The lowest start among the free blocks of `size` bytes.
    pub fn get_first_value_for(&self, size: u32) -> (r: Option<u32>)
        requires
            self.wf(),
        ensures
            r is None <==> forall|p: u32| !self@.contains((size, p)),
            r matches Some(p) ==> self@.contains((size, p)) && forall|q: u32|
                self@.contains((size, q)) ==> p <= q,
    {
        let r = self.backing_map.first_value_for(size);
        assert(self@ == self.backing_map@);
        r
    }

    /// The smallest size of a free block that is at least `lower_bound`.
    pub fn next_higher_key(&self, lower_bound: u32) -> (r: Option<u32>)
        requires
            self.wf(),
        ensures
            r is None <==> forall|s: u32, p: u32| s >= lower_bound ==> !self@.contains((s, p)),
            r matches Some(s) ==> s >= lower_bound && (exists|p: u32| self@.contains((s, p)))
                && forall|s2: u32, p2: u32|
                s2 >= lower_bound && self@.contains((s2, p2)) ==> s <= s2,
    {
        let r = self.backing_map.next_higher_key(lower_bound);
        assert(self@ == self.backing_map@);
        r
    }

    /// The start of the free block of at least `minimum_size` bytes that comes
    /// first by size, then by address.
    pub fn get_first_ptr_with_min_size(&self, minimum_size: u32) -> (r: Option<(u32, u32)>)
        requires
            self.wf(),
        ensures
            r is None <==> forall|s: u32, p: u32| s >= minimum_size ==> !self@.contains((s, p)),
            r matches Some(e) ==> e.0 >= minimum_size && self@.contains(e) && forall|s2: u32, p2: u32|
                s2 >= minimum_size && self@.contains((s2, p2)) ==> e.0 < s2 || (e.0 == s2 && e.1 <= p2),
    {
        match self.next_higher_key(minimum_size) {
            Some(size) => {
                match self.get_first_value_for(size) {
                    Some(p) => Some((size, p)),
                    None => None,
                }
            },
            None => None,
        }
    }
}

/// Freeing block `i` and coalescing leaves no neighbouring free blocks and no trailing free block.
pub proof fn lemma_coalesce_wf(s: Seq<MemoryBlockInfo>, frontier: nat, i: int)
    requires
        tiles(s, frontier),
        0 <= i < s.len(),
        is_free(s[i]),
        forall|k: int|
            #![trigger s[k], s[k + 1]]
            0 <= k < s.len() - 1 && k != i - 1 && k != i ==> !(is_free(s[k]) && is_free(s[k + 1])),
        i != s.len() - 1 ==> !is_free(s.last()),
    ensures
        no_adjacent_free(coalesce_layout(s, i)),
        trailing_used(coalesce_layout(s, i)),
{
    let lo = merge_low(s, i);
    let hi = merge_high(s, i);
    let n = coalesce_layout(s, i);
    if lo > 0 {
        let q = lo - 1;
        if lo == i - 1 {
            assert(is_free(s[q + 1]));
            assert(!is_free(s[q]));
        }
        assert(!is_free(s[q]));
    }
    if hi < s.len() - 1 {
        let q = hi;
        if hi == i + 1 {
            assert(is_free(s[q]));
            assert(!is_free(s[q + 1]));
        }
        assert(!is_free(s[q + 1]));
    }
    if hi == s.len() - 1 {
        assert(n =~= s.take(lo));
        assert forall|k: int| #![trigger n[k], n[k + 1]] 0 <= k < n.len() - 1 implies !(is_free(n[k]) && is_free(n[k + 1])) by {
            assert(n[k] == s[k] && n[k + 1] == s[k + 1]);
        }
        if lo > 0 {
            assert(n.last() == s[lo - 1]);
        }
    } else {
        let m = block(s[lo].span.start, s[hi].span.end, MemoryBlockStatus::FREE);
        assert(n == s.take(lo) + seq![m] + s.skip(hi + 1));
        assert forall|k: int| #![trigger n[k], n[k + 1]] 0 <= k < n.len() - 1 implies !(is_free(n[k]) && is_free(n[k + 1])) by {
            if k + 1 < lo {
                assert(n[k] == s[k] && n[k + 1] == s[k + 1]);
            } else if k + 1 == lo {
                assert(n[k] == s[lo - 1]);
            } else if k == lo {
                assert(n[k + 1] == s[hi + 1]);
            } else {
                let q = k - lo + hi;
                assert(n[k] == s[q] && n[k + 1] == s[q + 1]);
            }
        }
        assert(n.last() == s.last());
    }
}

/// Taking free block `i` into use for `n` bytes keeps the layout well formed.
pub proof fn lemma_split_wf(s: Seq<MemoryBlockInfo>, frontier: nat, i: int, n: nat)
    requires
        tiles(s, frontier),
        no_adjacent_free(s),
        trailing_used(s),
        0 <= i < s.len(),
        is_free(s[i]),
        0 < n <= block_size(s[i]),
    ensures
        tiles(split_layout(s, i, n), frontier),
        no_adjacent_free(split_layout(s, i, n)),
        trailing_used(split_layout(s, i, n)),
{
    let b = s[i];
    let r = split_layout(s, i, n);
    assert(i < s.len() - 1);
    if block_size(b) == n {
        let u = block(b.span.start, b.span.end, MemoryBlockStatus::USED);
        assert(r =~= s.take(i) + seq![u] + s.skip(i + 1));
        lemma_tiles_replace(s, frontier, i, i + 1, seq![u]);
        assert forall|k: int| #![trigger r[k], r[k + 1]] 0 <= k < r.len() - 1 implies !(is_free(r[k]) && is_free(r[k + 1])) by {
            if k == i {
                assert(r[k] == u);
            } else if k + 1 == i {
                assert(r[k + 1] == u);
            } else {
                assert(s[k] == r[k] && s[k + 1] == r[k + 1]);
            }
        }
        assert(r.last() == s.last());
    } else {
        let mid = (b.span.start + n) as u32;
        let l = block(b.span.start, mid, MemoryBlockStatus::USED);
        let f = block(mid, b.span.end, MemoryBlockStatus::FREE);
        let m = seq![l, f];
        assert(m[0] == l && m[1] == f);
        lemma_tiles_replace(s, frontier, i, i + 1, m);
        assert(s[i].span.end == s[i + 1].span.start);
        assert(!is_free(s[i + 1]));
        assert forall|k: int| #![trigger r[k], r[k + 1]] 0 <= k < r.len() - 1 implies !(is_free(r[k]) && is_free(r[k + 1])) by {
            if k + 1 < i {
                assert(r[k] == s[k] && r[k + 1] == s[k + 1]);
            } else if k + 1 == i {
                assert(r[k + 1] == l);
            } else if k == i {
                assert(r[k] == l);
            } else if k == i + 1 {
                assert(r[k + 1] == s[i + 1]);
            } else {
                let q = k - 1;
                assert(r[k] == s[q] && r[k + 1] == s[q + 1]);
            }
        }
        assert(r.last() == s.last());
    }
}

pub proof fn lemma_used_concat(a: Seq<MemoryBlockInfo>, b: Seq<MemoryBlockInfo>)
    ensures
        used_starts(a + b) == used_starts(a).union(used_starts(b)),
{
    let c = a + b;
    assert forall|p: u32| used_starts(c).contains(p) <==> used_starts(a).union(used_starts(b)).contains(p) by {
        if used_starts(c).contains(p) {
            let k = choose|k: int| 0 <= k < c.len() && !is_free(#[trigger] c[k]) && c[k].span.start == p;
            if k < a.len() {
                assert(a[k] == c[k]);
            } else {
                assert(b[k - a.len()] == c[k]);
            }
        }
        if used_starts(a).contains(p) {
            let k = choose|k: int| 0 <= k < a.len() && !is_free(#[trigger] a[k]) && a[k].span.start == p;
            assert(c[k] == a[k]);
        }
        if used_starts(b).contains(p) {
            let k = choose|k: int| 0 <= k < b.len() && !is_free(#[trigger] b[k]) && b[k].span.start == p;
            assert(c[k + a.len()] == b[k]);
        }
    }
    assert(used_starts(c) =~= used_starts(a).union(used_starts(b)));
}

pub proof fn lemma_used_single(b: MemoryBlockInfo)
    ensures
        used_starts(seq![b]) == if is_free(b) {
            Set::<u32>::empty()
        } else {
            set![b.span.start]
        },
{
    let s = seq![b];
    assert(s[0] == b);
    if is_free(b) {
        assert(used_starts(s) =~= Set::<u32>::empty());
    } else {
        assert(used_starts(s) =~= set![b.span.start]);
    }
}

/// The starts in use outside blocks `[i, j)` differ from every start inside them.
proof fn lemma_used_parts(s: Seq<MemoryBlockInfo>, frontier: nat, i: int, j: int)
    requires
        tiles(s, frontier),
        0 <= i <= j <= s.len(),
    ensures
        s == s.take(i) + s.subrange(i, j) + s.skip(j),
        forall|k: int| i <= k < j ==> !used_starts(s.take(i)).contains(#[trigger] s[k].span.start)
            && !used_starts(s.skip(j)).contains(s[k].span.start),
{
    assert(s =~= s.take(i) + s.subrange(i, j) + s.skip(j));
    lemma_tiles_ordered(s, frontier);
    assert forall|k: int| i <= k < j implies !used_starts(s.take(i)).contains(#[trigger] s[k].span.start)
        && !used_starts(s.skip(j)).contains(s[k].span.start) by {
        if used_starts(s.take(i)).contains(s[k].span.start) {
            let b = choose|b: int| 0 <= b < i && !is_free(#[trigger] s.take(i)[b]) && s.take(i)[b].span.start == s[k].span.start;
            assert(s.take(i)[b] == s[b]);
            assert(s[b].span.end <= s[k].span.start);
        }
        if used_starts(s.skip(j)).contains(s[k].span.start) {
            let b = choose|b: int| 0 <= b < s.len() - j && !is_free(#[trigger] s.skip(j)[b]) && s.skip(j)[b].span.start == s[k].span.start;
            assert(s.skip(j)[b] == s[b + j]);
            assert(s[k].span.end <= s[b + j].span.start);
        }
    }
}

/// Taking a free block into use adds its start to the starts in use.
pub proof fn lemma_split_used(s: Seq<MemoryBlockInfo>, frontier: nat, i: int, n: nat)
    requires
        tiles(s, frontier),
        0 <= i < s.len(),
        is_free(s[i]),
        0 < n <= block_size(s[i]),
    ensures
        used_starts(split_layout(s, i, n)) == used_starts(s).insert(s[i].span.start),
{
    let b = s[i];
    lemma_used_parts(s, frontier, i, i + 1);
    assert(s.subrange(i, i + 1) =~= seq![b]);
    lemma_used_concat(s.take(i) + seq![b], s.skip(i + 1));
    lemma_used_concat(s.take(i), seq![b]);
    lemma_used_single(b);
    let mid: Seq<MemoryBlockInfo> = if block_size(b) == n {
        seq![block(b.span.start, b.span.end, MemoryBlockStatus::USED)]
    } else {
        seq![
            block(b.span.start, (b.span.start + n) as u32, MemoryBlockStatus::USED),
            block((b.span.start + n) as u32, b.span.end, MemoryBlockStatus::FREE),
        ]
    };
    assert(split_layout(s, i, n) =~= s.take(i) + mid + s.skip(i + 1));
    lemma_used_concat(s.take(i) + mid, s.skip(i + 1));
    lemma_used_concat(s.take(i), mid);
    if block_size(b) == n {
        lemma_used_single(mid[0]);
    } else {
        assert(mid =~= seq![mid[0]] + seq![mid[1]]);
        lemma_used_concat(seq![mid[0]], seq![mid[1]]);
        lemma_used_single(mid[0]);
        lemma_used_single(mid[1]);
    }
    assert(used_starts(split_layout(s, i, n)) =~= used_starts(s).insert(s[i].span.start));
}

/// Freeing a used block removes its start from the starts in use.
#[verifier::spinoff_prover]
pub proof fn lemma_coalesce_used(s: Seq<MemoryBlockInfo>, frontier: nat, i: int)
    requires
        tiles(s, frontier),
        no_adjacent_free(s),
        trailing_used(s),
        0 <= i < s.len(),
        !is_free(s[i]),
    ensures
        used_starts(coalesce_layout(s, i)) == used_starts(s).remove(s[i].span.start),
{
    let lo = merge_low(s, i);
    let hi = merge_high(s, i);
    lemma_used_parts(s, frontier, lo, hi + 1);
    let run = s.subrange(lo, hi + 1);
    lemma_used_concat(s.take(lo) + run, s.skip(hi + 1));
    lemma_used_concat(s.take(lo), run);
    assert(used_starts(run) =~= set![s[i].span.start]) by {
        assert forall|p: u32| used_starts(run).contains(p) <==> p == s[i].span.start by {
            if used_starts(run).contains(p) {
                let k = choose|k: int| 0 <= k < run.len() && !is_free(#[trigger] run[k]) && run[k].span.start == p;
                assert(run[k] == s[k + lo]);
                if k + lo != i {
                    if k + lo == i - 1 {
                        assert(lo == i - 1);
                        assert(is_free(s[i - 1]));
                    } else {
                        assert(k + lo == i + 1);
                        assert(hi == i + 1);
                        assert(is_free(s[i + 1]));
                    }
                }
            }
            if p == s[i].span.start {
                assert(run[i - lo] == s[i]);
            }
        }
    }
    let merged = block(s[lo].span.start, s[hi].span.end, MemoryBlockStatus::FREE);
    let si = s[i].span.start;
    assert(!used_starts(s.take(lo)).contains(si) && !used_starts(s.skip(hi + 1)).contains(si));
    assert(used_starts(s) == used_starts(s.take(lo)).union(set![si]).union(used_starts(s.skip(hi + 1))));
    if hi == s.len() - 1 {
        assert(s.skip(hi + 1) =~= Seq::<MemoryBlockInfo>::empty());
        assert(used_starts(Seq::<MemoryBlockInfo>::empty()) =~= Set::<u32>::empty());
        assert(coalesce_layout(s, i) == s.take(lo));
    } else {
        lemma_used_concat(s.take(lo) + seq![merged], s.skip(hi + 1));
        lemma_used_concat(s.take(lo), seq![merged]);
        lemma_used_single(merged);
    }
    assert(used_starts(coalesce_layout(s, i)) =~= used_starts(s).remove(s[i].span.start));
}

/// A well-formed layout without blocks in use holds no blocks at all.
pub proof fn lemma_no_used_blocks(s: Seq<MemoryBlockInfo>, frontier: nat)
    requires
        tiles(s, frontier),
        no_adjacent_free(s),
        trailing_used(s),
        used_starts(s) == Set::<u32>::empty(),
    ensures
        s.len() == 0,
        frontier == 0,
        free_set(s) == Set::<(u32, u32)>::empty(),
{
    if s.len() > 0 {
        let k = s.len() - 1;
        assert(!is_free(s[k]));
        assert(used_starts(s).contains(s[k].span.start));
    }
    assert(free_set(s) =~= Set::<(u32, u32)>::empty());
}

/// Once every allocation has been released (no block is in use), the
/// allocator is empty: no blocks, frontier zero, and no free-index entries.
pub proof fn lemma_all_released_is_empty(a: Allocator)
    requires
        a.wf(),
        used_starts(a.blocks()) == Set::<u32>::empty(),
    ensures
        a.blocks().len() == 0,
        a.frontier() == 0,
        a.free_index() == Set::<(u32, u32)>::empty(),
{
    lemma_no_used_blocks(a.blocks(), a.frontier());
}

/// The heap allocator's state: the blocks in address order, the free-block
/// index, and the frontier, the first address past the last block.
pub struct Allocator {
    blocks: Vec<MemoryBlockInfo>,
    free_blocks_for_size: FreeBlocksMap,
    last_heap_ptr: u32,
}

impl Allocator {
    pub closed spec fn blocks(&self) -> Seq<MemoryBlockInfo> {
        self.blocks@
    }

    pub closed spec fn frontier(&self) -> nat {
        self.last_heap_ptr as nat
    }

    pub closed spec fn free_index(&self) -> Set<(u32, u32)> {
        self.free_blocks_for_size@
    }

    pub closed spec fn index_wf(&self) -> bool {
        self.free_blocks_for_size.wf()
    }

    /// The blocks tile the heap up to the frontier and the index lists exactly the free blocks.
    pub open spec fn consistent(&self) -> bool {
        &&& tiles(self.blocks(), self.frontier())
        &&& self.free_index() == free_set(self.blocks())
        &&& self.index_wf()
    }

    pub open spec fn wf(&self) -> bool {
        &&& self.consistent()
        &&& no_adjacent_free(self.blocks())
        &&& trailing_used(self.blocks())
    }

    pub fn new() -> (r: Allocator)
        ensures
            r.wf(),
            r.blocks() == Seq::<MemoryBlockInfo>::empty(),
            r.frontier() == 0,
            r.free_index() == Set::<(u32, u32)>::empty(),
    {
        let r = Allocator { blocks: Vec::new(), free_blocks_for_size: FreeBlocksMap::new(), last_heap_ptr: 0 };
        assert(free_set(r.blocks()) =~= Set::<(u32, u32)>::empty());
        r
    }

    /// The first address past the last block.
    pub fn last_heap_ptr(&self) -> (r: u32)
        ensures
            r == self.frontier(),
    {
        self.last_heap_ptr
    }

    pub fn free_blocks(&self) -> (r: &FreeBlocksMap)
        ensures
            r@ == self.free_index(),
            self.index_wf() ==> r.wf(),
    {
        &self.free_blocks_for_size
    }

    /// The number of blocks.
    pub fn block_count(&self) -> (r: usize)
        ensures
            r == self.blocks().len(),
    {
        self.blocks.len()
    }

    pub fn block_at(&self, index: usize) -> (r: MemoryBlockInfo)
        requires
            index < self.blocks().len(),
        ensures
            r == self.blocks()[index as int],
    {
        self.blocks[index]
    }

    /// The position of the block that starts at `ptr`.
    fn find_block(&self, ptr: u32) -> (r: Option<usize>)
        requires
            self.consistent(),
        ensures
            r matches Some(i) ==> i < self.blocks().len() && self.blocks()[i as int].span.start == ptr,
            r is None ==> forall|k: int| 0 <= k < self.blocks().len() ==> #[trigger] self.blocks()[k].span.start != ptr,
    {
        let mut i: usize = 0;
        while i < self.blocks.len()
            invariant
                i <= self.blocks@.len(),
                forall|k: int| 0 <= k < i ==> #[trigger] self.blocks@[k].span.start != ptr,
            decreases self.blocks.len() - i,
        {
            if self.blocks[i].span.start == ptr {
                return Some(i);
            }
            i = i + 1;
        }
        None
    }

    fn mark_block_used(&mut self, i: usize)
        requires
            old(self).consistent(),
            i < old(self).blocks().len(),
            is_free(old(self).blocks()[i as int]),
        ensures
            final(self).consistent(),
            final(self).frontier() == old(self).frontier(),
            final(self).blocks() == old(self).blocks().update(
                i as int,
                block(old(self).blocks()[i as int].span.start, old(self).blocks()[i as int].span.end, MemoryBlockStatus::USED),
            ),
    {
        let ghost s = self.blocks@;
        let ghost f = self.frontier();
        let b = self.blocks[i];
        let nb = MemoryBlockInfo { span: b.span, status: MemoryBlockStatus::USED };
        self.blocks.set(i, nb);
        self.free_blocks_for_size.remove(b.span.end - b.span.start, b.span.start);
        proof {
            let ii = i as int;
            assert(self.blocks@ =~= s.take(ii) + seq![nb] + s.skip(ii + 1));
            lemma_tiles_replace(s, f, ii, ii + 1, seq![nb]);
            lemma_free_set_replace(s, f, ii, ii + 1, seq![nb]);
            assert(s.subrange(ii, ii + 1) =~= seq![b]);
            lemma_free_set_single(b);
            lemma_free_set_single(nb);
            assert(self.free_index() =~= free_set(self.blocks()));
        }
    }

    fn mark_block_free(&mut self, i: usize)
        requires
            old(self).consistent(),
            i < old(self).blocks().len(),
            !is_free(old(self).blocks()[i as int]),
        ensures
            final(self).consistent(),
            final(self).frontier() == old(self).frontier(),
            final(self).blocks() == old(self).blocks().update(
                i as int,
                block(old(self).blocks()[i as int].span.start, old(self).blocks()[i as int].span.end, MemoryBlockStatus::FREE),
            ),
    {
        let ghost s = self.blocks@;
        let ghost f = self.frontier();
        let b = self.blocks[i];
        let nb = MemoryBlockInfo { span: b.span, status: MemoryBlockStatus::FREE };
        self.blocks.set(i, nb);
        self.free_blocks_for_size.insert(b.span.end - b.span.start, b.span.start);
        proof {
            let ii = i as int;
            assert(self.blocks@ =~= s.take(ii) + seq![nb] + s.skip(ii + 1));
            lemma_tiles_replace(s, f, ii, ii + 1, seq![nb]);
            lemma_free_set_replace(s, f, ii, ii + 1, seq![nb]);
            assert(s.subrange(ii, ii + 1) =~= seq![b]);
            lemma_free_set_single(b);
            lemma_free_set_single(nb);
            assert(self.free_index() =~= free_set(self.blocks()));
        }
    }

    /// Splits free block `i` into a free block of `left_size` bytes and a free remainder.
    fn split_free_block(&mut self, i: usize, left_size: u32)
        requires
            old(self).consistent(),
            i < old(self).blocks().len(),
            is_free(old(self).blocks()[i as int]),
            0 < left_size < block_size(old(self).blocks()[i as int]),
        ensures
            final(self).consistent(),
            final(self).frontier() == old(self).frontier(),
            final(self).blocks() == old(self).blocks().take(i as int) + seq![
                block(old(self).blocks()[i as int].span.start, (old(self).blocks()[i as int].span.start + left_size) as u32, MemoryBlockStatus::FREE),
                block((old(self).blocks()[i as int].span.start + left_size) as u32, old(self).blocks()[i as int].span.end, MemoryBlockStatus::FREE),
            ] + old(self).blocks().skip(i + 1),
    {
        let ghost s = self.blocks@;
        let ghost f = self.frontier();
        let _len = self.blocks.len();
        let b = self.blocks[i];
        let middle = b.span.start + left_size;
        let left = MemoryBlockInfo { span: MemorySpan { start: b.span.start, end: middle }, status: MemoryBlockStatus::FREE };
        let right = MemoryBlockInfo { span: MemorySpan { start: middle, end: b.span.end }, status: MemoryBlockStatus::FREE };
        self.free_blocks_for_size.remove(b.span.end - b.span.start, b.span.start);
        self.blocks.set(i, left);
        self.blocks.insert(i + 1, right);
        self.free_blocks_for_size.insert(left_size, b.span.start);
        self.free_blocks_for_size.insert(b.span.end - middle, middle);
        proof {
            let ii = i as int;
            let m = seq![left, right];
            assert(m[0] == left && m[1] == right);
            assert(self.blocks@ =~= s.take(ii) + m + s.skip(ii + 1));
            lemma_tiles_replace(s, f, ii, ii + 1, m);
            lemma_free_set_replace(s, f, ii, ii + 1, m);
            assert(s.subrange(ii, ii + 1) =~= seq![b]);
            lemma_free_set_single(b);
            lemma_free_set_pair(left, right);
            lemma_free_set_single(left);
            lemma_free_set_single(right);
            assert(self.free_index() =~= free_set(self.blocks()));
        }
    }

    /// Merges the free blocks `i` and `i + 1` into one free block.
    fn merge_free_blocks(&mut self, i: usize)
        requires
            old(self).consistent(),
            i + 1 < old(self).blocks().len(),
            is_free(old(self).blocks()[i as int]),
            is_free(old(self).blocks()[i + 1]),
        ensures
            final(self).consistent(),
            final(self).frontier() == old(self).frontier(),
            final(self).blocks() == old(self).blocks().take(i as int) + seq![
                block(old(self).blocks()[i as int].span.start, old(self).blocks()[i + 1].span.end, MemoryBlockStatus::FREE),
            ] + old(self).blocks().skip(i + 2),
    {
        let ghost s = self.blocks@;
        let ghost f = self.frontier();
        let _len = self.blocks.len();
        let b1 = self.blocks[i];
        let b2 = self.blocks[i + 1];
        proof {
            let q = i as int;
            assert(s[q].span.end == s[q + 1].span.start);
        }
        let merged = MemoryBlockInfo { span: MemorySpan { start: b1.span.start, end: b2.span.end }, status: MemoryBlockStatus::FREE };
        self.free_blocks_for_size.remove(b1.span.end - b1.span.start, b1.span.start);
        self.free_blocks_for_size.remove(b2.span.end - b2.span.start, b2.span.start);
        self.blocks.set(i, merged);
        self.blocks.remove(i + 1);
        self.free_blocks_for_size.insert(b2.span.end - b1.span.start, b1.span.start);
        proof {
            let ii = i as int;
            assert(self.blocks@ =~= s.take(ii) + seq![merged] + s.skip(ii + 2));
            lemma_tiles_replace(s, f, ii, ii + 2, seq![merged]);
            lemma_free_set_replace(s, f, ii, ii + 2, seq![merged]);
            assert(s.subrange(ii, ii + 2) =~= seq![b1, b2]);
            lemma_free_set_pair(b1, b2);
            lemma_free_set_single(b1);
            lemma_free_set_single(b2);
            lemma_free_set_single(merged);
            assert(self.free_index() =~= free_set(self.blocks()));
        }
    }

    /// Drops the last block, which is free; the frontier moves back to its start.
    fn remove_trailing_block(&mut self)
        requires
            old(self).consistent(),
            old(self).blocks().len() > 0,
            is_free(old(self).blocks().last()),
        ensures
            final(self).consistent(),
            final(self).blocks() == old(self).blocks().drop_last(),
            final(self).frontier() == old(self).blocks().last().span.start,
    {
        let ghost s = self.blocks@;
        let ghost f = self.frontier();
        let b = self.blocks.pop().unwrap();
        self.free_blocks_for_size.remove(b.span.end - b.span.start, b.span.start);
        self.last_heap_ptr = b.span.start;
        proof {
            let k = s.len() - 1;
            lemma_tiles_truncate(s, f, k);
            lemma_free_set_replace(s, f, k, k + 1, Seq::<MemoryBlockInfo>::empty());
            assert(s.take(k) + Seq::<MemoryBlockInfo>::empty() + s.skip(k + 1) =~= self.blocks@);
            assert(s.subrange(k, k + 1) =~= seq![b]);
            lemma_free_set_single(b);
            assert(free_set(Seq::<MemoryBlockInfo>::empty()) =~= Set::<(u32, u32)>::empty());
            assert(self.free_index() =~= free_set(self.blocks()));
        }
    }

    /// Places a used block of `size` bytes at the frontier.
    fn add_block(&mut self, size: u32)
        requires
            old(self).consistent(),
            size > 0,
            old(self).frontier() + size <= u32::MAX,
        ensures
            final(self).consistent(),
            final(self).frontier() == old(self).frontier() + size,
            final(self).blocks() == old(self).blocks().push(
                block(old(self).frontier() as u32, (old(self).frontier() + size) as u32, MemoryBlockStatus::USED),
            ),
    {
        let ghost s = self.blocks@;
        let start = self.last_heap_ptr;
        let end = start + size;
        let nb = MemoryBlockInfo { span: MemorySpan { start, end }, status: MemoryBlockStatus::USED };
        self.blocks.push(nb);
        self.last_heap_ptr = end;
        proof {
            let n = self.blocks@;
            assert(n =~= s + seq![nb]);
            lemma_free_set_concat(s, seq![nb]);
            lemma_free_set_single(nb);
            assert(free_set(n) =~= free_set(s));
            assert forall|k: int| #![trigger n[k], n[k + 1]] 0 <= k < n.len() - 1 implies n[k].span.end == n[k + 1].span.start by {
                if k + 1 < s.len() {
                    assert(n[k] == s[k] && n[k + 1] == s[k + 1]);
                } else {
                    assert(n[k] == s.last());
                }
            }
            assert forall|k: int| 0 <= k < n.len() implies (#[trigger] n[k]).span.start < n[k].span.end by {
                if k < s.len() {
                    assert(n[k] == s[k]);
                }
            }
        }
    }

    /// Coalesces the just-freed block `i` with its free neighbours, and drops
    /// the result if nothing follows it.
    fn merge_free_block_with_adjacent(&mut self, i: usize)
        requires
            old(self).consistent(),
            i < old(self).blocks().len(),
            is_free(old(self).blocks()[i as int]),
            forall|k: int|
                #![trigger old(self).blocks()[k], old(self).blocks()[k + 1]]
                0 <= k < old(self).blocks().len() - 1 && k != i - 1 && k != i ==> !(is_free(old(self).blocks()[k]) && is_free(old(self).blocks()[k + 1])),
            i != old(self).blocks().len() - 1 ==> !is_free(old(self).blocks().last()),
        ensures
            final(self).wf(),
            final(self).blocks() == coalesce_layout(old(self).blocks(), i as int),
    {
        let ghost s = self.blocks@;
        let ghost f = self.frontier();
        proof {
            lemma_coalesce_wf(s, f, i as int);
        }
        let _len = self.blocks.len();
        let mut cur = i;
        if i > 0 && self.blocks[i - 1].status == MemoryBlockStatus::FREE {
            self.merge_free_blocks(i - 1);
            cur = i - 1;
        }
        let ghost s2 = self.blocks@;
        if cur + 1 < self.blocks.len() {
            if self.blocks[cur + 1].status == MemoryBlockStatus::FREE {
                self.merge_free_blocks(cur);
            }
        } else {
            self.remove_trailing_block();
        }
        proof {
            let lo = merge_low(s, i as int);
            let hi = merge_high(s, i as int);
            assert(lo == cur);
            if hi == s.len() - 1 {
                assert(self.blocks@ =~= s.take(lo));
            } else {
                assert(self.blocks@ =~= s.take(lo) + seq![block(s[lo].span.start, s[hi].span.end, MemoryBlockStatus::FREE)] + s.skip(hi + 1));
            }
        }
    }

    /// Reserves `alloc_size` bytes: in the free block that fits best, split if
    /// larger, or else in a new block at the frontier.
    pub fn allocate(&mut self, alloc_size: Size) -> (r: Pointer)
        requires
            old(self).wf(),
            alloc_size.0 > 0,
            best_fit(old(self).blocks(), alloc_size.0 as nat) is None ==> old(self).frontier() + alloc_size.0
                <= u32::MAX,
        ensures
            final(self).wf(),
            match best_fit(old(self).blocks(), alloc_size.0 as nat) {
                Some(i) => r.0 == old(self).blocks()[i].span.start && final(self).blocks() == split_layout(
                    old(self).blocks(),
                    i,
                    alloc_size.0 as nat,
                ) && final(self).frontier() == old(self).frontier(),
                None => r.0 == old(self).frontier() && final(self).blocks() == old(self).blocks().push(
                    block(r.0, (r.0 + alloc_size.0) as u32, MemoryBlockStatus::USED),
                ) && final(self).frontier() == old(self).frontier() + alloc_size.0,
            },
            exists|k: int|
                0 <= k < final(self).blocks().len() && #[trigger] final(self).blocks()[k] == block(
                    r.0,
                    (r.0 + alloc_size.0) as u32,
                    MemoryBlockStatus::USED,
                ),
            used_starts(final(self).blocks()) == used_starts(old(self).blocks()).insert(r.0),
    {
        let n = alloc_size.0;
        let ghost s = self.blocks@;
        let ghost f = self.frontier();
        proof {
            lemma_tiles_ordered(s, f);
        }
        match self.free_blocks_for_size.get_first_ptr_with_min_size(n) {
            Some(entry) => {
                let (size, ptr) = entry;
                let ghost k = choose|k: int| 0 <= k < s.len() && is_free(#[trigger] s[k]) && entry == free_entry(s[k]);
                let i = self.find_block(ptr).unwrap();
                proof {
                    if i != k {
                        if i < k {
                            assert(s[i as int].span.end <= s[k].span.start);
                        } else {
                            assert(s[k].span.end <= s[i as int].span.start);
                        }
                    }
                    assert(is_best_fit(s, i as int, n as nat)) by {
                        assert forall|j: int| 0 <= j < s.len() && is_free(#[trigger] s[j]) && block_size(s[j]) >= n implies block_size(s[i as int])
                            < block_size(s[j]) || (block_size(s[i as int]) == block_size(s[j]) && s[i as int].span.start <= s[j].span.start) by {
                            assert(free_set(s).contains(free_entry(s[j])));
                        }
                    }
                    assert forall|j: int| is_best_fit(s, j, n as nat) implies j == i by {
                        if j < i {
                            assert(s[j].span.end <= s[i as int].span.start);
                        } else if j > i {
                            assert(s[i as int].span.end <= s[j].span.start);
                        }
                    }
                    assert(best_fit(s, n as nat) == Some(i as int));
                    lemma_split_wf(s, f, i as int, n as nat);
                    lemma_split_used(s, f, i as int, n as nat);
                }
                if size > n {
                    self.split_free_block(i, n);
                }
                self.mark_block_used(i);
                proof {
                    let ii = i as int;
                    let b = s[ii];
                    let r = split_layout(s, ii, n as nat);
                    if size > n {
                        assert(self.blocks@ =~= r);
                        assert(r[ii] == block(ptr, (ptr + n) as u32, MemoryBlockStatus::USED));
                    } else {
                        assert(self.blocks@ =~= r);
                        assert(r[ii] == block(ptr, (ptr + n) as u32, MemoryBlockStatus::USED));
                    }
                }
                Pointer(ptr)
            },
            None => {
                proof {
                    assert forall|j: int| !is_best_fit(s, j, n as nat) by {
                        if is_best_fit(s, j, n as nat) {
                            assert(free_set(s).contains(free_entry(s[j])));
                        }
                    }
                }
                let start = self.last_heap_ptr;
                self.add_block(n);
                proof {
                    let t = self.blocks@;
                    assert(t =~= s + seq![t[t.len() - 1]]);
                    lemma_used_concat(s, seq![t[t.len() - 1]]);
                    lemma_used_single(t[t.len() - 1]);
                    assert(t[t.len() - 1] == block(start, (start + n) as u32, MemoryBlockStatus::USED));
                    let k = t.len() - 1;
                    assert(!is_free(t[k]));
                    if s.len() > 0 {
                        assert(t[k - 1] == s.last());
                    }
                    assert(no_adjacent_free(t)) by {
                        assert forall|q: int| #![trigger t[q], t[q + 1]] 0 <= q < t.len() - 1 implies !(is_free(t[q]) && is_free(t[q + 1])) by {
                            if q + 1 < s.len() {
                                assert(t[q] == s[q] && t[q + 1] == s[q + 1]);
                            }
                        }
                    }
                }
                Pointer(start)
            },
        }
    }

    /// Releases the used block that starts at `ptr`, coalescing it with free
    /// neighbours; fails when no used block starts there.
    pub fn deallocate(&mut self, ptr: Pointer) -> (r: Result<(), CeriumError>)
        requires
            old(self).wf(),
        ensures
            final(self).wf(),
            r is Ok <==> exists|i: int|
                0 <= i < old(self).blocks().len() && (#[trigger] old(self).blocks()[i]).span.start == ptr.0
                    && !is_free(old(self).blocks()[i]),
            r is Ok ==> forall|i: int|
                0 <= i < old(self).blocks().len() && (#[trigger] old(self).blocks()[i]).span.start == ptr.0
                    ==> final(self).blocks() == coalesce_layout(old(self).blocks(), i),
            r is Err ==> r == Err::<(), CeriumError>(CeriumError::InvalidPointer) && final(self).blocks()
                == old(self).blocks() && final(self).frontier() == old(self).frontier(),
            r is Ok ==> used_starts(final(self).blocks()) == used_starts(old(self).blocks()).remove(ptr.0),
    {
        let ghost s = self.blocks@;
        let ghost f = self.frontier();
        proof {
            lemma_tiles_ordered(s, f);
        }
        match self.find_block(ptr.0) {
            Some(i) => {
                if self.blocks[i].status == MemoryBlockStatus::USED {
                    self.mark_block_free(i);
                    let ghost s1 = self.blocks@;
                    proof {
                        let ii = i as int;
                        assert forall|k: int|
                            #![trigger s1[k], s1[k + 1]]
                            0 <= k < s1.len() - 1 && k != ii - 1 && k != ii implies !(is_free(s1[k]) && is_free(s1[k + 1])) by {
                            assert(s1[k] == s[k] && s1[k + 1] == s[k + 1]);
                        }
                        if ii != s.len() - 1 {
                            assert(s1.last() == s.last());
                        }
                    }
                    self.merge_free_block_with_adjacent(i);
                    proof {
                        let ii = i as int;
                        assert(coalesce_layout(s1, ii) =~= coalesce_layout(s, ii));
                        lemma_coalesce_used(s, f, ii);
                        assert forall|j: int| 0 <= j < s.len() && (#[trigger] s[j]).span.start == ptr.0 implies j == ii by {
                            if j < ii {
                                assert(s[j].span.end <= s[ii].span.start);
                            } else if j > ii {
                                assert(s[ii].span.end <= s[j].span.start);
                            }
                        }
                    }
                    Ok(())
                } else {
                    proof {
                        let ii = i as int;
                        assert forall|j: int| 0 <= j < s.len() && (#[trigger] s[j]).span.start == ptr.0 implies is_free(s[j]) by {
                            if j < ii {
                                assert(s[j].span.end <= s[ii].span.start);
                            } else if j > ii {
                                assert(s[ii].span.end <= s[j].span.start);
                            }
                        }
                    }
                    Err(CeriumError::InvalidPointer)
                }
            },
            None => Err(CeriumError::InvalidPointer),
        }
    }
}

} // verus!
