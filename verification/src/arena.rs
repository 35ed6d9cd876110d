//! A first-fit, coalescing free-list allocator that carves byte ranges out
//! of a single `Vec<u8>`. Keys and values of the B-Tree live here; the tree
//! only holds `Ref { offset, len }` handles.
//!
//! Abstractly an arena is a map from live handles to their bytes
//! (`Arena::view`). Concretely every byte of the backing buffer is either
//! inside exactly one live allocation or inside exactly one free block, and
//! the free list is kept sorted by offset with no two blocks touching.
use vstd::prelude::*;

verus! {

/// A handle to a byte range inside an [`Arena`].
#[derive(Debug, Clone, Copy, PartialEq, Eq, Structural)]
pub struct Ref {
    pub offset: u32,
    pub len: u32,
}

impl Ref {
    /// The handle of the empty allocation.
    pub fn null() -> (r: Ref)
        ensures
            r.offset == 0 && r.len == 0,
    {
        Ref { offset: 0, len: 0 }
    }

    /// One past the last byte covered by the handle.
    pub open spec fn end(self) -> int {
        self.offset + self.len
    }
}

/// Two half-open byte ranges `[a0, a1)` and `[b0, b1)` share no byte.
pub open spec fn ranges_disjoint(a0: int, a1: int, b0: int, b1: int) -> bool {
    a1 <= b0 || b1 <= a0
}

#[derive(Debug, Clone, Copy)]
struct FreeBlock {
    offset: u32,
    size: u32,
}

impl FreeBlock {
    spec fn end(self) -> int {
        self.offset + self.size
    }
}

/// Total number of bytes covered by a sequence of handles.
pub open spec fn sum_lens(s: Seq<Ref>) -> nat
    decreases s.len(),
{
    if s.len() == 0 {
        0
    } else {
        sum_lens(s.drop_last()) + s.last().len as nat
    }
}

spec fn free_total(s: Seq<FreeBlock>) -> nat
    decreases s.len(),
{
    if s.len() == 0 {
        0
    } else {
        free_total(s.drop_last()) + s.last().size as nat
    }
}


proof fn lemma_sum_lens_concat(a: Seq<Ref>, b: Seq<Ref>)
    ensures
        sum_lens(a + b) == sum_lens(a) + sum_lens(b),
    decreases b.len(),
{
    if b.len() == 0 {
        assert(a + b =~= a);
    } else {
        lemma_sum_lens_concat(a, b.drop_last());
        assert((a + b).drop_last() =~= a + b.drop_last());
    }
}

proof fn lemma_sum_lens_remove(s: Seq<Ref>, i: int)
    requires
        0 <= i < s.len(),
    ensures
        sum_lens(s) == sum_lens(s.remove(i)) + s[i].len,
{
    let a = s.subrange(0, i);
    let b = s.subrange(i + 1, s.len() as int);
    assert(s =~= a + seq![s[i]] + b);
    assert(s.remove(i) =~= a + b);
    lemma_sum_lens_concat(a + seq![s[i]], b);
    lemma_sum_lens_concat(a, seq![s[i]]);
    lemma_sum_lens_concat(a, b);
    assert(sum_lens(seq![s[i]]) == s[i].len) by {
        assert(seq![s[i]].drop_last() =~= Seq::<Ref>::empty());
        reveal_with_fuel(sum_lens, 2);
    }
}

proof fn sum_lens_push(s: Seq<Ref>, r: Ref)
    ensures
        sum_lens(s.push(r)) == sum_lens(s) + r.len,
{
    assert(s.push(r).drop_last() =~= s);
}

proof fn lemma_free_total_concat(a: Seq<FreeBlock>, b: Seq<FreeBlock>)
    ensures
        free_total(a + b) == free_total(a) + free_total(b),
    decreases b.len(),
{
    if b.len() == 0 {
        assert(a + b =~= a);
    } else {
        lemma_free_total_concat(a, b.drop_last());
        assert((a + b).drop_last() =~= a + b.drop_last());
    }
}

proof fn lemma_free_total_single(x: FreeBlock)
    ensures
        free_total(seq![x]) == x.size,
{
    assert(seq![x].drop_last() =~= Seq::<FreeBlock>::empty());
    reveal_with_fuel(free_total, 2);
}

/// Splits a free list around position `i`.
proof fn lemma_free_total_split(s: Seq<FreeBlock>, i: int)
    requires
        0 <= i < s.len(),
    ensures
        free_total(s) == free_total(s.subrange(0, i)) + s[i].size + free_total(
            s.subrange(i + 1, s.len() as int),
        ),
{
    let a = s.subrange(0, i);
    let b = s.subrange(i + 1, s.len() as int);
    assert(s =~= a + seq![s[i]] + b);
    lemma_free_total_concat(a + seq![s[i]], b);
    lemma_free_total_concat(a, seq![s[i]]);
    lemma_free_total_single(s[i]);
}

proof fn lemma_free_total_remove(s: Seq<FreeBlock>, i: int)
    requires
        0 <= i < s.len(),
    ensures
        free_total(s) == free_total(s.remove(i)) + s[i].size,
{
    lemma_free_total_split(s, i);
    assert(s.remove(i) =~= s.subrange(0, i) + s.subrange(i + 1, s.len() as int));
    lemma_free_total_concat(s.subrange(0, i), s.subrange(i + 1, s.len() as int));
}

proof fn lemma_free_total_update(s: Seq<FreeBlock>, i: int, x: FreeBlock)
    requires
        0 <= i < s.len(),
    ensures
        free_total(s.update(i, x)) + s[i].size == free_total(s) + x.size,
{
    lemma_free_total_split(s, i);
    lemma_free_total_split(s.update(i, x), i);
    assert(s.update(i, x).subrange(0, i) =~= s.subrange(0, i));
    assert(s.update(i, x).subrange(i + 1, s.len() as int) =~= s.subrange(i + 1, s.len() as int));
}

/// Block `i` is the first block of `fv` that holds at least `n` bytes.
pub open spec fn first_fit_at(fv: Seq<(u32, u32)>, n: int, i: int) -> bool {
    &&& 0 <= i < fv.len()
    &&& fv[i].1 >= n
    &&& forall|j: int| 0 <= j < i ==> #[trigger] fv[j].1 < n
}

/// No block of `fv` holds `n` bytes.
pub open spec fn no_fit(fv: Seq<(u32, u32)>, n: int) -> bool {
    forall|j: int| 0 <= j < fv.len() ==> #[trigger] fv[j].1 < n
}

/// The free list after `n` bytes are taken from the front of block `i`.
pub open spec fn take_from_block(fv: Seq<(u32, u32)>, i: int, n: int) -> Seq<(u32, u32)> {
    if fv[i].1 == n {
        fv.remove(i)
    } else {
        fv.update(i, ((fv[i].0 + n) as u32, (fv[i].1 - n) as u32))
    }
}

/// Blocks sorted by offset, each non-empty, no two of them touching.
pub open spec fn free_canonical(fv: Seq<(u32, u32)>) -> bool {
    &&& forall|i: int| 0 <= i < fv.len() ==> #[trigger] fv[i].1 > 0
    &&& forall|i: int, j: int|
        0 <= i < j < fv.len() ==> #[trigger] fv[i].0 + fv[i].1 < #[trigger] fv[j].0
}


/// Two duplicate-free listings of the same handles cover as many bytes.
proof fn lemma_sum_lens_perm(a: Seq<Ref>, b: Seq<Ref>)
    requires
        a.no_duplicates(),
        b.no_duplicates(),
        forall|r: Ref| #![trigger a.contains(r)] #![trigger b.contains(r)] a.contains(r) <==> b.contains(r),
    ensures
        sum_lens(a) == sum_lens(b),
    decreases a.len(),
{
    if a.len() == 0 {
        if b.len() > 0 {
            assert(b.contains(b[0]));
        }
    } else {
        let n = a.len() - 1;
        let x = a[n];
        assert(a.contains(x));
        assert(b.contains(x));
        let j = b.index_of(x);
        let a2 = a.drop_last();
        let b2 = b.remove(j);
        assert forall|i: int, k: int| 0 <= i < b2.len() && 0 <= k < b2.len() && i != k implies b2[i] != b2[k] by {
            let bi = if i < j { i } else { i + 1 };
            let bk = if k < j { k } else { k + 1 };
            assert(b2[i] == b[bi]);
            assert(b2[k] == b[bk]);
        }
        assert forall|i: int, k: int| 0 <= i < a2.len() && 0 <= k < a2.len() && i != k implies a2[i] != a2[k] by {
            assert(a2[i] == a[i]);
            assert(a2[k] == a[k]);
        }
        assert forall|r: Ref| #![trigger a2.contains(r)] #![trigger b2.contains(r)] a2.contains(r) <==> b2.contains(r) by {
            if a2.contains(r) {
                let i = a2.index_of(r);
                assert(a[i] == r);
                assert(a.contains(r));
                assert(r != x);
                let k = b.index_of(r);
                assert(k != j);
                let k2 = if k < j { k } else { k - 1 };
                assert(b2[k2] == r);
            }
            if b2.contains(r) {
                let k = b2.index_of(r);
                let bk = if k < j { k } else { k + 1 };
                assert(b[bk] == r);
                assert(b.contains(r));
                assert(r != x);
                let i = a.index_of(r);
                assert(i != n);
                assert(a2[i] == r);
            }
        }
        lemma_sum_lens_perm(a2, b2);
        lemma_sum_lens_remove(b, j);
    }
}

/// The bytes held by the free blocks `fv`.
pub open spec fn free_bytes(fv: Seq<(u32, u32)>) -> nat
    decreases fv.len(),
{
    if fv.len() == 0 {
        0
    } else {
        free_bytes(fv.drop_last()) + fv.last().1 as nat
    }
}

/// `free_bytes` of the blocks' pairs is their total size.
proof fn lemma_free_bytes(fl: Seq<FreeBlock>)
    ensures
        free_bytes(fl.map_values(|b: FreeBlock| (b.offset, b.size))) == free_total(fl),
    decreases fl.len(),
{
    if fl.len() > 0 {
        lemma_free_bytes(fl.drop_last());
        assert(fl.map_values(|b: FreeBlock| (b.offset, b.size)).drop_last() =~= fl.drop_last().map_values(
            |b: FreeBlock| (b.offset, b.size),
        ));
    }
}

/// Some block holds `n` bytes: then a first one does.
proof fn lemma_first_fit_exists(fv: Seq<(u32, u32)>, n: int, i: int)
    requires
        0 <= i < fv.len(),
        fv[i].1 >= n,
    ensures
        exists|k: int| first_fit_at(fv, n, k),
    decreases i,
{
    if forall|j: int| 0 <= j < i ==> #[trigger] fv[j].1 < n {
        assert(first_fit_at(fv, n, i));
    } else {
        let j = choose|j: int| 0 <= j < i && #[trigger] fv[j].1 >= n;
        lemma_first_fit_exists(fv, n, j);
    }
}

/// Byte `p` lies in one of the blocks `fv`.
spec fn covered(fv: Seq<(u32, u32)>, p: int) -> bool {
    exists|k: int| 0 <= k < fv.len() && #[trigger] fv[k].0 <= p < fv[k].0 + fv[k].1
}

/// In a canonical free list, a range of free bytes lies inside one block.
proof fn lemma_covering_block(fv: Seq<(u32, u32)>, lo: int, hi: int) -> (i: int)
    requires
        free_canonical(fv),
        lo < hi,
        forall|p: int| lo <= p < hi ==> #[trigger] covered(fv, p),
    ensures
        0 <= i < fv.len(),
        fv[i].0 <= lo,
        hi <= fv[i].0 + fv[i].1,
{
    assert(covered(fv, lo));
    let i = choose|k: int| 0 <= k < fv.len() && #[trigger] fv[k].0 <= lo < fv[k].0 + fv[k].1;
    let e = fv[i].0 + fv[i].1;
    if e < hi {
        assert(covered(fv, e));
        let j = choose|k: int| 0 <= k < fv.len() && #[trigger] fv[k].0 <= e < fv[k].0 + fv[k].1;
        if j < i {
            assert(fv[j].0 + fv[j].1 < fv[i].0);
        } else if i < j {
            assert(fv[i].0 + fv[i].1 < fv[j].0);
        }
    }
    i
}

/// Byte `p` lies in one of the blocks.
spec fn in_blocks(fl: Seq<FreeBlock>, p: int) -> bool {
    exists|i: int| 0 <= i < fl.len() && #[trigger] fl[i].offset <= p < fl[i].end()
}

proof fn lemma_is_free_in_blocks(a: &Arena, p: int)
    ensures
        a.is_free(p) <==> in_blocks(a.free_list@, p),
{
    let fl = a.free_list@;
    let fv = a.free_view();
    if a.is_free(p) {
        let i = choose|i: int| 0 <= i < fv.len() && #[trigger] fv[i].0 <= p < fv[i].0 + fv[i].1;
        assert(fl[i].offset <= p < fl[i].end());
    }
    if in_blocks(fl, p) {
        let i = choose|i: int| 0 <= i < fl.len() && #[trigger] fl[i].offset <= p < fl[i].end();
        assert(fv[i].0 <= p < fv[i].0 + fv[i].1);
    }
}

/// The free list after freeing `r`: the blocks before `pos` (minus the
/// previous one when it is merged), one block covering `r` and any merged
/// neighbours, then the remaining blocks.
spec fn splice_ok(
    fl0: Seq<FreeBlock>,
    lv0: Seq<Ref>,
    k: int,
    r: Ref,
    len: nat,
    pos: int,
    merge_prev: bool,
    merge_next: bool,
    blk: FreeBlock,
    fl: Seq<FreeBlock>,
) -> bool {
    &&& forall|i: int| 0 <= i < fl0.len() ==> #[trigger] fl0[i].size > 0 && fl0[i].end() <= len
    &&& forall|i: int, j: int| 0 <= i < j < fl0.len() ==> #[trigger] fl0[i].end() < #[trigger] fl0[j].offset
    &&& lv0.no_duplicates()
    &&& forall|i: int| 0 <= i < lv0.len() ==> #[trigger] lv0[i].len > 0 && lv0[i].end() <= len
    &&& forall|i: int, j: int|
        0 <= i < lv0.len() && 0 <= j < lv0.len() && i != j ==> ranges_disjoint(
            #[trigger] lv0[i].offset as int,
            lv0[i].end(),
            #[trigger] lv0[j].offset as int,
            lv0[j].end(),
        )
    &&& forall|i: int, j: int|
        0 <= i < lv0.len() && 0 <= j < fl0.len() ==> ranges_disjoint(
            #[trigger] lv0[i].offset as int,
            lv0[i].end(),
            #[trigger] fl0[j].offset as int,
            fl0[j].end(),
        )
    &&& 0 <= k < lv0.len()
    &&& lv0[k] == r
    &&& 0 <= pos <= fl0.len()
    &&& forall|j: int| 0 <= j < pos ==> #[trigger] fl0[j].end() <= r.offset
    &&& forall|j: int| pos <= j < fl0.len() ==> r.end() <= #[trigger] fl0[j].offset
    &&& merge_prev ==> pos > 0 && fl0[pos - 1].end() == r.offset
    &&& !merge_prev && pos > 0 ==> fl0[pos - 1].end() != r.offset
    &&& merge_next ==> pos < fl0.len() && fl0[pos].offset == r.end()
    &&& !merge_next && pos < fl0.len() ==> fl0[pos].offset != r.end()
    &&& blk.offset == (if merge_prev { fl0[pos - 1].offset as int } else { r.offset as int })
    &&& blk.end() == (if merge_next { fl0[pos].end() } else { r.end() })
    &&& fl == fl0.subrange(0, splice_lo(pos, merge_prev)) + seq![blk] + fl0.subrange(
        splice_hi(pos, merge_next),
        fl0.len() as int,
    )
}

spec fn splice_lo(pos: int, merge_prev: bool) -> int {
    if merge_prev { pos - 1 } else { pos }
}

spec fn splice_hi(pos: int, merge_next: bool) -> int {
    if merge_next { pos + 1 } else { pos }
}

proof fn lemma_splice_index(
    fl0: Seq<FreeBlock>, lv0: Seq<Ref>, k: int, r: Ref, len: nat, pos: int,
    merge_prev: bool, merge_next: bool, blk: FreeBlock, fl: Seq<FreeBlock>,
)
    requires
        splice_ok(fl0, lv0, k, r, len, pos, merge_prev, merge_next, blk, fl),
    ensures
        ({
            let a = splice_lo(pos, merge_prev);
            let b = splice_hi(pos, merge_next);
            &&& 0 <= a <= b <= fl0.len()
            &&& fl.len() == fl0.len() - (b - a) + 1
            &&& forall|i: int| 0 <= i < a ==> #[trigger] fl[i] == fl0[i]
            &&& fl[a] == blk
            &&& forall|i: int| a < i < fl.len() ==> #[trigger] fl[i] == fl0[i - a - 1 + b]
            &&& forall|j: int| 0 <= j < a ==> #[trigger] fl0[j].end() < blk.offset
            &&& forall|j: int| b <= j < fl0.len() ==> blk.end() < #[trigger] fl0[j].offset
        }),
{
    let a = splice_lo(pos, merge_prev);
    let b = splice_hi(pos, merge_next);
    assert forall|j: int| 0 <= j < a implies #[trigger] fl0[j].end() < blk.offset by {
        if merge_prev {
            assert(fl0[j].end() < fl0[pos - 1].offset);
        } else if j == pos - 1 {
        } else {
            assert(fl0[j].end() < fl0[pos - 1].offset);
        }
    }
    assert forall|j: int| b <= j < fl0.len() implies blk.end() < #[trigger] fl0[j].offset by {
        if merge_next {
            assert(fl0[pos].end() < fl0[j].offset);
        } else if j == pos {
        } else {
            assert(fl0[pos].end() < fl0[j].offset);
        }
    }
}

proof fn lemma_splice_shape(
    fl0: Seq<FreeBlock>, lv0: Seq<Ref>, k: int, r: Ref, len: nat, pos: int,
    merge_prev: bool, merge_next: bool, blk: FreeBlock, fl: Seq<FreeBlock>,
)
    requires
        splice_ok(fl0, lv0, k, r, len, pos, merge_prev, merge_next, blk, fl),
    ensures
        forall|i: int| 0 <= i < fl.len() ==> #[trigger] fl[i].size > 0 && fl[i].end() <= len,
        forall|i: int, j: int| 0 <= i < j < fl.len() ==> #[trigger] fl[i].end() < #[trigger] fl[j].offset,
{
    lemma_splice_index(fl0, lv0, k, r, len, pos, merge_prev, merge_next, blk, fl);
    let a = splice_lo(pos, merge_prev);
    let b = splice_hi(pos, merge_next);
    assert forall|i: int| 0 <= i < fl.len() implies #[trigger] fl[i].size > 0 && fl[i].end() <= len by {
        if i == a {
            if merge_next {
                assert(fl0[pos].end() <= len);
            } else {
                assert(lv0[k].end() <= len);
            }
        }
    }
    assert forall|i: int, j: int| 0 <= i < j < fl.len() implies #[trigger] fl[i].end() < #[trigger] fl[j].offset by {
        if j < a {
        } else if j == a {
        } else if i < a {
            assert(fl0[i].end() < blk.offset);
            assert(blk.end() < fl0[j - a - 1 + b].offset);
        } else if i == a {
        } else {
            assert(fl0[i - a - 1 + b].end() < fl0[j - a - 1 + b].offset);
        }
    }
}

proof fn lemma_splice_live(
    fl0: Seq<FreeBlock>, lv0: Seq<Ref>, k: int, r: Ref, len: nat, pos: int,
    merge_prev: bool, merge_next: bool, blk: FreeBlock, fl: Seq<FreeBlock>,
)
    requires
        splice_ok(fl0, lv0, k, r, len, pos, merge_prev, merge_next, blk, fl),
    ensures
        ({
            let lv = lv0.remove(k);
            forall|i: int, j: int|
                0 <= i < lv.len() && 0 <= j < fl.len() ==> ranges_disjoint(
                    #[trigger] lv[i].offset as int,
                    lv[i].end(),
                    #[trigger] fl[j].offset as int,
                    fl[j].end(),
                )
        }),
        lv0.remove(k).no_duplicates(),
{
    lemma_splice_index(fl0, lv0, k, r, len, pos, merge_prev, merge_next, blk, fl);
    let a = splice_lo(pos, merge_prev);
    let b = splice_hi(pos, merge_next);
    let lv = lv0.remove(k);
    assert forall|i: int, j: int|
        0 <= i < lv.len() && 0 <= j < fl.len() implies ranges_disjoint(
            #[trigger] lv[i].offset as int,
            lv[i].end(),
            #[trigger] fl[j].offset as int,
            fl[j].end(),
        ) by {
        let i0 = if i < k { i } else { i + 1 };
        assert(lv[i] == lv0[i0]);
        if j < a {
            assert(ranges_disjoint(lv0[i0].offset as int, lv0[i0].end(), fl0[j].offset as int, fl0[j].end()));
        } else if j == a {
            assert(ranges_disjoint(lv0[i0].offset as int, lv0[i0].end(), lv0[k].offset as int, lv0[k].end()));
            if merge_prev {
                assert(ranges_disjoint(lv0[i0].offset as int, lv0[i0].end(), fl0[pos - 1].offset as int, fl0[pos - 1].end()));
            }
            if merge_next {
                assert(ranges_disjoint(lv0[i0].offset as int, lv0[i0].end(), fl0[pos].offset as int, fl0[pos].end()));
            }
        } else {
            let j0 = j - a - 1 + b;
            assert(ranges_disjoint(lv0[i0].offset as int, lv0[i0].end(), fl0[j0].offset as int, fl0[j0].end()));
        }
    }
    assert forall|i: int, j: int| 0 <= i < lv.len() && 0 <= j < lv.len() && i != j implies lv[i] != lv[j] by {
        let i0 = if i < k { i } else { i + 1 };
        let j0 = if j < k { j } else { j + 1 };
        assert(lv[i] == lv0[i0] && lv[j] == lv0[j0]);
    }
}

proof fn lemma_splice_total(
    fl0: Seq<FreeBlock>, lv0: Seq<Ref>, k: int, r: Ref, len: nat, pos: int,
    merge_prev: bool, merge_next: bool, blk: FreeBlock, fl: Seq<FreeBlock>,
)
    requires
        splice_ok(fl0, lv0, k, r, len, pos, merge_prev, merge_next, blk, fl),
    ensures
        free_total(fl) == free_total(fl0) + r.len,
{
    let a = splice_lo(pos, merge_prev);
    let b = splice_hi(pos, merge_next);
    let pre = fl0.subrange(0, a);
    let mid = fl0.subrange(a, b);
    let post = fl0.subrange(b, fl0.len() as int);
    assert(fl0 =~= pre + mid + post);
    assert(fl =~= pre + seq![blk] + post);
    lemma_free_total_concat(pre + mid, post);
    lemma_free_total_concat(pre, mid);
    lemma_free_total_concat(pre + seq![blk], post);
    lemma_free_total_concat(pre, seq![blk]);
    lemma_free_total_single(blk);
    assert(free_total(mid) + r.len == blk.size) by {
        reveal_with_fuel(free_total, 3);
        if merge_prev && merge_next {
            assert(mid.drop_last() =~= seq![fl0[pos - 1]]);
            assert(mid.drop_last().drop_last() =~= Seq::<FreeBlock>::empty());
        } else if merge_prev || merge_next {
            assert(mid.drop_last() =~= Seq::<FreeBlock>::empty());
        } else {
            assert(mid =~= Seq::<FreeBlock>::empty());
        }
    }
}

#[verifier::rlimit(30)]
proof fn lemma_splice_positions(
    fl0: Seq<FreeBlock>, lv0: Seq<Ref>, k: int, r: Ref, len: nat, pos: int,
    merge_prev: bool, merge_next: bool, blk: FreeBlock, fl: Seq<FreeBlock>,
)
    requires
        splice_ok(fl0, lv0, k, r, len, pos, merge_prev, merge_next, blk, fl),
    ensures
        forall|p: int| in_blocks(fl, p) <==> (in_blocks(fl0, p) || (r.offset <= p < r.end())),
{
    lemma_splice_index(fl0, lv0, k, r, len, pos, merge_prev, merge_next, blk, fl);
    let a = splice_lo(pos, merge_prev);
    let b = splice_hi(pos, merge_next);
    assert forall|p: int| in_blocks(fl, p) <==> (in_blocks(fl0, p) || (r.offset <= p < r.end())) by {
        if in_blocks(fl, p) {
            let i = choose|i: int| 0 <= i < fl.len() && #[trigger] fl[i].offset <= p < fl[i].end();
            if i < a {
                assert(fl0[i].offset <= p < fl0[i].end());
            } else if i == a {
                if !(r.offset <= p < r.end()) {
                    if p < r.offset {
                        assert(fl0[pos - 1].offset <= p < fl0[pos - 1].end());
                    } else {
                        assert(fl0[pos].offset <= p < fl0[pos].end());
                    }
                }
            } else {
                let i0 = i - a - 1 + b;
                assert(fl0[i0].offset <= p < fl0[i0].end());
            }
        }
        if in_blocks(fl0, p) {
            let i = choose|i: int| 0 <= i < fl0.len() && #[trigger] fl0[i].offset <= p < fl0[i].end();
            if i < a {
                assert(fl[i].offset <= p < fl[i].end());
            } else if i < b {
                assert(fl[a].offset <= p < fl[a].end());
            } else {
                assert(fl[i - b + a + 1] == fl0[i]);
                assert(fl[i - b + a + 1].offset <= p < fl[i - b + a + 1].end());
            }
        }
        if r.offset <= p < r.end() {
            assert(fl[a].offset <= p < fl[a].end());
        }
    }
}

proof fn lemma_dealloc_splice(
    fl0: Seq<FreeBlock>, lv0: Seq<Ref>, k: int, r: Ref, len: nat, pos: int,
    merge_prev: bool, merge_next: bool, blk: FreeBlock, fl: Seq<FreeBlock>,
)
    requires
        splice_ok(fl0, lv0, k, r, len, pos, merge_prev, merge_next, blk, fl),
    ensures
        forall|i: int| 0 <= i < fl.len() ==> #[trigger] fl[i].size > 0 && fl[i].end() <= len,
        forall|i: int, j: int| 0 <= i < j < fl.len() ==> #[trigger] fl[i].end() < #[trigger] fl[j].offset,
        ({
            let lv = lv0.remove(k);
            forall|i: int, j: int|
                0 <= i < lv.len() && 0 <= j < fl.len() ==> ranges_disjoint(
                    #[trigger] lv[i].offset as int,
                    lv[i].end(),
                    #[trigger] fl[j].offset as int,
                    fl[j].end(),
                )
        }),
        lv0.remove(k).no_duplicates(),
        free_total(fl) == free_total(fl0) + r.len,
        forall|p: int| in_blocks(fl, p) <==> (in_blocks(fl0, p) || (r.offset <= p < r.end())),
{
    lemma_splice_shape(fl0, lv0, k, r, len, pos, merge_prev, merge_next, blk, fl);
    lemma_splice_live(fl0, lv0, k, r, len, pos, merge_prev, merge_next, blk, fl);
    lemma_splice_total(fl0, lv0, k, r, len, pos, merge_prev, merge_next, blk, fl);
    lemma_splice_positions(fl0, lv0, k, r, len, pos, merge_prev, merge_next, blk, fl);
}

proof fn lemma_remove_contains(lv0: Seq<Ref>, k: int, x: Ref)
    requires
        lv0.no_duplicates(),
        0 <= k < lv0.len(),
    ensures
        lv0.remove(k).contains(x) <==> (lv0.contains(x) && x != lv0[k]),
{
    let lv = lv0.remove(k);
    if lv.contains(x) {
        let a = lv.index_of(x);
        let a0 = if a < k { a } else { a + 1 };
        assert(lv0[a0] == x);
        assert(a0 != k);
    }
    if lv0.contains(x) && x != lv0[k] {
        let a = lv0.index_of(x);
        assert(a != k);
        if a < k {
            assert(lv[a] == x);
        } else {
            assert(lv[a - 1] == x);
        }
    }
}

/// A byte buffer from which ranges are handed out, with a free list of
/// released ranges kept sorted by offset and coalesced.
pub struct Arena {
    data: Vec<u8>,
    /// Free blocks, sorted by offset, never touching one another.
    free_list: Vec<FreeBlock>,
    pub live_bytes: usize,
    live: Ghost<Seq<Ref>>,
}

impl View for Arena {
    type V = Map<Ref, Seq<u8>>;

    /// Each live allocation and the bytes it holds.
    closed spec fn view(&self) -> Map<Ref, Seq<u8>> {
        Map::new(
            |r: Ref| self.live@.contains(r),
            |r: Ref| self.data@.subrange(r.offset as int, r.end()),
        )
    }
}

impl Arena {
    /// The whole backing buffer.
    pub closed spec fn bytes(&self) -> Seq<u8> {
        self.data@
    }

    /// The free blocks as `(offset, size)` pairs, in list order.
    pub closed spec fn free_view(&self) -> Seq<(u32, u32)> {
        self.free_list@.map_values(|b: FreeBlock| (b.offset, b.size))
    }

    /// Byte `p` of the buffer lies in a free block.
    pub open spec fn is_free(&self, p: int) -> bool {
        exists|i: int|
            0 <= i < self.free_view().len() && #[trigger] self.free_view()[i].0 <= p
                < self.free_view()[i].0 + self.free_view()[i].1
    }

    /// The bytes a handle designates: nothing for an empty handle.
    pub open spec fn contents(&self, r: Ref) -> Seq<u8> {
        if r.len == 0 {
            Seq::empty()
        } else {
            self@[r]
        }
    }

    /// The handle may be read: it is empty or it is live.
    pub open spec fn valid_ref(&self, r: Ref) -> bool {
        r.len == 0 || self@.contains_key(r)
    }

    /// Internal consistency of the arena.
    pub closed spec fn wf(&self) -> bool {
        self.wf_pending(0)
    }

    /// Internal consistency, while an allocation of `pending` bytes is
    /// recorded as live but not yet counted in `live_bytes`.
    closed spec fn wf_pending(&self, pending: nat) -> bool {
        let fl = self.free_list@;
        let lv = self.live@;
        &&& self.data@.len() <= u32::MAX
        &&& forall|i: int|
            0 <= i < fl.len() ==> #[trigger] fl[i].size > 0 && fl[i].end() <= self.data@.len()
        &&& forall|i: int, j: int|
            0 <= i < j < fl.len() ==> #[trigger] fl[i].end() < #[trigger] fl[j].offset
        &&& lv.no_duplicates()
        &&& forall|i: int| 0 <= i < lv.len() ==> #[trigger] lv[i].len > 0 && lv[i].end() <= self.data@.len()
        &&& forall|i: int, j: int|
            0 <= i < lv.len() && 0 <= j < lv.len() && i != j ==> ranges_disjoint(
                #[trigger] lv[i].offset as int,
                lv[i].end(),
                #[trigger] lv[j].offset as int,
                lv[j].end(),
            )
        &&& forall|i: int, j: int|
            0 <= i < lv.len() && 0 <= j < fl.len() ==> ranges_disjoint(
                #[trigger] lv[i].offset as int,
                lv[i].end(),
                #[trigger] fl[j].offset as int,
                fl[j].end(),
            )
        &&& self.live_bytes + pending == sum_lens(lv)
        &&& self.live_bytes + pending + free_total(fl) == self.data@.len()
    }

    /// Bytes held by live allocations, as the counter reports them.
    pub closed spec fn spec_live_bytes(&self) -> usize {
        self.live_bytes
    }

    /// Number of bytes of the backing buffer.
    pub closed spec fn spec_capacity(&self) -> nat {
        self.data@.len()
    }

    /// The live bytes are exactly the bytes of the live allocations.
    pub closed spec fn live_total(&self) -> nat {
        sum_lens(self.live@)
    }

    /// A readable handle's bytes are as many as its length.
    pub proof fn lemma_contents_len(&self, r: Ref)
        requires
            self.wf(),
            self.valid_ref(r),
        ensures
            self.contents(r).len() == r.len,
    {
        self.lemma_wf();
    }

    /// A live allocation, or two distinct ones together, take no more than
    /// the live bytes.
    pub proof fn lemma_live_bound(&self, r1: Ref, r2: Ref)
        requires
            self.wf(),
            self@.contains_key(r1),
        ensures
            r1.len <= self.spec_live_bytes(),
            self@.contains_key(r2) && r2 != r1 ==> r1.len + r2.len <= self.spec_live_bytes(),
    {
        self.lemma_wf();
        let lv = self.live@;
        let i1 = lv.index_of(r1);
        lemma_sum_lens_remove(lv, i1);
        if self@.contains_key(r2) && r2 != r1 {
            let rest = lv.remove(i1);
            let i2 = lv.index_of(r2);
            let j2 = if i2 < i1 { i2 } else { i2 - 1 };
            assert(rest[j2] == r2);
            lemma_sum_lens_remove(rest, j2);
        }
    }

    /// An empty arena.
    pub fn new() -> (a: Arena)
        ensures
            a.wf(),
            a@ == Map::<Ref, Seq<u8>>::empty(),
            a.spec_capacity() == 0,
            a.spec_live_bytes() == 0,
            a.free_view().len() == 0,
    {
        let a = Arena { data: Vec::new(), free_list: Vec::new(), live_bytes: 0, live: Ghost(Seq::empty()) };
        assert(a@ =~= Map::<Ref, Seq<u8>>::empty());
        a
    }

    /// `wf` makes the free list canonical and keeps every live handle
    /// inside the buffer.
    pub proof fn lemma_wf(&self)
        requires
            self.wf(),
        ensures
            free_canonical(self.free_view()),
            forall|r: Ref| #[trigger] self@.contains_key(r) ==> r.len > 0 && r.end() <= self.spec_capacity(),
            self.spec_live_bytes() == self.live_total(),
            self.spec_live_bytes() <= self.spec_capacity(),
            self.spec_capacity() <= u32::MAX,
    {
        assert forall|r: Ref| #[trigger] self@.contains_key(r) implies r.len > 0 && r.end() <= self.spec_capacity() by {
            let k = self.live@.index_of(r);
            assert(self.live@[k] == r);
        }
    }

    /// The free list of a well-formed arena: sorted by offset, each block
    /// non-empty and not touching the next, inside the buffer and apart from
    /// every live allocation; live and free bytes together fill the buffer.
    pub proof fn lemma_free_list(&self)
        requires
            self.wf(),
        ensures
            free_canonical(self.free_view()),
            forall|i: int|
                0 <= i < self.free_view().len() ==> #[trigger] self.free_view()[i].0 + self.free_view()[i].1
                    <= self.spec_capacity(),
            forall|r: Ref, i: int|
                #![trigger self@.contains_key(r), self.free_view()[i]]
                self@.contains_key(r) && 0 <= i < self.free_view().len() ==> ranges_disjoint(
                    r.offset as int,
                    r.end(),
                    self.free_view()[i].0 as int,
                    self.free_view()[i].0 + self.free_view()[i].1,
                ),
            self.spec_live_bytes() + free_bytes(self.free_view()) == self.spec_capacity(),
    {
        self.lemma_wf();
        lemma_free_bytes(self.free_list@);
        let fv = self.free_view();
        assert forall|i: int| 0 <= i < fv.len() implies #[trigger] fv[i].0 + fv[i].1 <= self.spec_capacity() by {
            assert(fv[i] == (self.free_list@[i].offset, self.free_list@[i].size));
        }
        assert forall|r: Ref, i: int| self@.contains_key(r) && 0 <= i < fv.len() implies ranges_disjoint(
            r.offset as int,
            r.end(),
            fv[i].0 as int,
            fv[i].0 + fv[i].1,
        ) by {
            let k = self.live@.index_of(r);
            assert(self.live@[k] == r);
            assert(fv[i] == (self.free_list@[i].offset, self.free_list@[i].size));
        }
    }

    /// The live bytes are the lengths of the live handles summed, over any
    /// listing of them without repeats.
    pub proof fn lemma_live_sum(&self, rs: Seq<Ref>)
        requires
            self.wf(),
            rs.no_duplicates(),
            forall|r: Ref| #![trigger rs.contains(r)] #![trigger self@.contains_key(r)] rs.contains(r) <==> self@.contains_key(r),
        ensures
            sum_lens(rs) == self.spec_live_bytes(),
    {
        self.lemma_wf();
        let lv = self.live@;
        assert forall|r: Ref| #![trigger lv.contains(r)] #![trigger rs.contains(r)] lv.contains(r) <==> rs.contains(r) by {
            assert(self@.contains_key(r) <==> lv.contains(r));
        }
        lemma_sum_lens_perm(lv, rs);
    }

    /// Once every byte of `r` is free, as `dealloc(r)` leaves them, an
    /// allocation of at most `r.len` bytes has a first fit in the free list,
    /// so `allocate` accepts it whatever the buffer's size and serves it from
    /// freed space without growing the buffer.
    pub proof fn lemma_freed_range_fits(&self, r: Ref, n: int)
        requires
            self.wf(),
            0 < n <= r.len,
            forall|p: int| r.offset <= p < r.end() ==> #[trigger] self.is_free(p),
        ensures
            !no_fit(self.free_view(), n),
            exists|i: int| first_fit_at(self.free_view(), n, i),
    {
        self.lemma_wf();
        let fv = self.free_view();
        assert forall|p: int| r.offset <= p < r.end() implies #[trigger] covered(fv, p) by {
            assert(self.is_free(p));
        }
        let i = lemma_covering_block(fv, r.offset as int, r.end());
        lemma_first_fit_exists(fv, n, i);
    }

    /// The bytes `r` designates: empty for the empty handle.
    pub fn read(&self, r: Ref) -> (out: &[u8])
        requires
            self.wf(),
            self.valid_ref(r) || r.end() <= self.spec_capacity(),
        ensures
            r.len == 0 ==> out@ == Seq::<u8>::empty(),
            r.len > 0 ==> out@ == self.bytes().subrange(r.offset as int, r.end()),
            self.valid_ref(r) ==> out@ == self.contents(r),
    {
        proof {
            self.lemma_wf();
        }
        if r.len == 0 {
            return &self.data.as_slice()[0..0];
        }
        let start = r.offset as usize;
        let end = start + r.len as usize;
        &self.data.as_slice()[start..end]
    }

    /// First-fit search of the free list; grows the buffer when no block is
    /// large enough. The handle of the new range is recorded as live.
    fn find_or_grow(&mut self, size: u32) -> (offset: u32)
        requires
            old(self).wf(),
            size > 0,
            old(self).data@.len() + size <= u32::MAX || !no_fit(old(self).free_view(), size as int),
        ensures
            final(self).wf_pending(size as nat),
            final(self).live@ == old(self).live@.push(Ref { offset, len: size }),
            final(self).live_bytes == old(self).live_bytes,
            final(self).data@.len() == old(self).data@.len() || final(self).data@.len() == old(self).data@.len() + size,
            final(self).data@.subrange(0, old(self).data@.len() as int) == old(self).data@,
            offset + size <= final(self).data@.len(),
            no_fit(old(self).free_view(), size as int) ==> {
                &&& offset == old(self).data@.len()
                &&& final(self).data@.len() == old(self).data@.len() + size
                &&& final(self).free_view() == old(self).free_view()
            },
            forall|i: int| #[trigger]
                first_fit_at(old(self).free_view(), size as int, i) ==> {
                    &&& offset == old(self).free_view()[i].0
                    &&& final(self).data@.len() == old(self).data@.len()
                    &&& final(self).free_view() == take_from_block(
                        old(self).free_view(),
                        i,
                        size as int,
                    )
                },
    {
        let ghost fl0 = self.free_list@;
        let ghost lv0 = self.live@;
        let mut i: usize = 0;
        while i < self.free_list.len()
            invariant
                self.wf(),
                self.free_list@ == fl0,
                self.live@ == lv0,
                self.data@ == old(self).data@,
                self.live_bytes == old(self).live_bytes,
                old(self).free_list@ == fl0,
                old(self).live@ == lv0,
                i <= fl0.len(),
                size > 0,
                forall|j: int| 0 <= j < i ==> #[trigger] fl0[j].size < size,
                old(self).data@.len() + size <= u32::MAX || !no_fit(old(self).free_view(), size as int),
            decreases fl0.len() - i,
        {
            let block = self.free_list[i];
            if block.size >= size {
                let ghost r = Ref { offset: block.offset, len: size };
                proof {
                    assert forall|j: int| 0 <= j < lv0.len() implies lv0[j] != r by {
                        assert(ranges_disjoint(lv0[j].offset as int, lv0[j].end(), fl0[i as int].offset as int, fl0[i as int].end()));
                    }
                    assert(!lv0.contains(r));
                }
                if block.size == size {
                    self.free_list.remove(i);
                    proof {
                        lemma_free_total_remove(fl0, i as int);
                        assert(self.free_list@ =~= fl0.remove(i as int));
                        assert(self.free_view() =~= take_from_block(old(self).free_view(), i as int, size as int));
                    }
                } else {
                    let nb = FreeBlock { offset: block.offset + size, size: block.size - size };
                    self.free_list.set(i, nb);
                    proof {
                        lemma_free_total_update(fl0, i as int, nb);
                        assert(self.free_list@ =~= fl0.update(i as int, nb));
                        assert(self.free_view() =~= take_from_block(old(self).free_view(), i as int, size as int));
                    }
                }
                self.live = Ghost(lv0.push(r));
                proof {
                    let fl = self.free_list@;
                    let lv = self.live@;
                    assert(lv.no_duplicates()) by {
                        assert forall|a: int, b: int| 0 <= a < lv.len() && 0 <= b < lv.len() && a != b implies lv[a] != lv[b] by {
                            if a < lv0.len() && b < lv0.len() {
                                assert(lv0[a] != lv0[b]);
                            } else if a == lv0.len() {
                                assert(lv0[b] != r);
                            } else {
                                assert(lv0[a] != r);
                            }
                        }
                    }
                    sum_lens_push(lv0, r);
                    assert forall|a: int, b: int| 0 <= a < lv.len() && 0 <= b < fl.len() implies ranges_disjoint(
                        #[trigger] lv[a].offset as int, lv[a].end(), #[trigger] fl[b].offset as int, fl[b].end()) by {
                        if a < lv0.len() {
                            if block.size == size {
                                if b < i { assert(fl[b] == fl0[b]); } else { assert(fl[b] == fl0[b + 1]); }
                            } else if b != i {
                                assert(fl[b] == fl0[b]);
                            } else {
                                assert(ranges_disjoint(lv0[a].offset as int, lv0[a].end(), fl0[b].offset as int, fl0[b].end()));
                            }
                        } else {
                            if block.size == size {
                                if b < i {
                                    assert(fl[b] == fl0[b]);
                                    assert(fl0[b].end() < fl0[i as int].offset);
                                } else {
                                    assert(fl[b] == fl0[b + 1]);
                                    assert(fl0[i as int].end() < fl0[b + 1].offset);
                                }
                            } else if b < i {
                                assert(fl0[b].end() < fl0[i as int].offset);
                            } else if b > i {
                                assert(fl0[i as int].end() < fl0[b].offset);
                            }
                        }
                    }
                    assert forall|a: int, b: int| 0 <= a < lv.len() && 0 <= b < lv.len() && a != b implies ranges_disjoint(
                        #[trigger] lv[a].offset as int, lv[a].end(), #[trigger] lv[b].offset as int, lv[b].end()) by {
                        if a < lv0.len() && b < lv0.len() {
                        } else if a == lv0.len() {
                            assert(ranges_disjoint(lv0[b].offset as int, lv0[b].end(), fl0[i as int].offset as int, fl0[i as int].end()));
                        } else {
                            assert(ranges_disjoint(lv0[a].offset as int, lv0[a].end(), fl0[i as int].offset as int, fl0[i as int].end()));
                        }
                    }
                    assert forall|a: int, b: int| 0 <= a < b < fl.len() implies #[trigger] fl[a].end() < #[trigger] fl[b].offset by {
                        if block.size == size {
                            let a0 = if a < i { a } else { a + 1 };
                            let b0 = if b < i { b } else { b + 1 };
                            assert(fl[a] == fl0[a0]);
                            assert(fl[b] == fl0[b0]);
                            assert(fl0[a0].end() < fl0[b0].offset);
                        } else {
                            assert(fl0[a].end() < fl0[b].offset);
                        }
                    }
                    assert forall|a: int| 0 <= a < fl.len() implies #[trigger] fl[a].size > 0 && fl[a].end() <= self.data@.len() by {
                        if block.size == size {
                            if a < i { assert(fl[a] == fl0[a]); } else { assert(fl[a] == fl0[a + 1]); }
                        }
                    }
                    assert(forall|j: int| #[trigger] first_fit_at(old(self).free_view(), size as int, j) ==> j == i);
                }
                return block.offset;
            }
            i += 1;
        }
        let offset = self.data.len() as u32;
        let new_len = self.data.len() + size as usize;
        self.data.resize(new_len, 0u8);
        let ghost r = Ref { offset, len: size };
        self.live = Ghost(lv0.push(r));
        proof {
            let lv = self.live@;
            let fl = self.free_list@;
            assert(self.data@.subrange(0, old(self).data@.len() as int) =~= old(self).data@);
            assert forall|j: int| 0 <= j < lv0.len() implies lv0[j] != r by {
                assert(lv0[j].end() <= offset);
            }
            assert(lv.no_duplicates()) by {
                assert forall|a: int, b: int| 0 <= a < lv.len() && 0 <= b < lv.len() && a != b implies lv[a] != lv[b] by {
                    if a < lv0.len() && b < lv0.len() {
                        assert(lv0[a] != lv0[b]);
                    } else if a == lv0.len() {
                        assert(lv0[b] != r);
                    } else {
                        assert(lv0[a] != r);
                    }
                }
            }
            sum_lens_push(lv0, r);
            assert forall|a: int, b: int| 0 <= a < lv.len() && 0 <= b < fl.len() implies ranges_disjoint(
                #[trigger] lv[a].offset as int, lv[a].end(), #[trigger] fl[b].offset as int, fl[b].end()) by {
                if a < lv0.len() {
                    assert(ranges_disjoint(lv0[a].offset as int, lv0[a].end(), fl0[b].offset as int, fl0[b].end()));
                }
            }
            assert forall|a: int, b: int| 0 <= a < lv.len() && 0 <= b < lv.len() && a != b implies ranges_disjoint(
                #[trigger] lv[a].offset as int, lv[a].end(), #[trigger] lv[b].offset as int, lv[b].end()) by {
                if a < lv0.len() && b < lv0.len() {
                    assert(ranges_disjoint(lv0[a].offset as int, lv0[a].end(), lv0[b].offset as int, lv0[b].end()));
                }
            }
            assert(no_fit(old(self).free_view(), size as int));
            assert forall|j: int| !#[trigger] first_fit_at(old(self).free_view(), size as int, j) by {}
        }
        offset
    }

    /// Copies `bytes` into a fresh range and returns its handle. An empty
    /// input yields the empty handle and changes nothing.
    pub fn allocate(&mut self, bytes: &[u8]) -> (r: Ref)
        requires
            old(self).wf(),
            old(self).spec_capacity() + bytes@.len() <= u32::MAX || !no_fit(old(self).free_view(), bytes@.len() as int),
        ensures
            final(self).wf(),
            r.len == bytes@.len(),
            final(self).spec_capacity() == old(self).spec_capacity() || final(self).spec_capacity()
                == old(self).spec_capacity() + bytes@.len(),
            bytes@.len() == 0 ==> {
                &&& r == Ref { offset: 0, len: 0 }
                &&& *final(self) == *old(self)
            },
            bytes@.len() > 0 ==> {
                &&& !old(self)@.contains_key(r)
                &&& final(self)@ == old(self)@.insert(r, bytes@)
                &&& final(self).spec_live_bytes() == old(self).spec_live_bytes() + bytes@.len()
                &&& forall|k: Ref|
                    #[trigger] old(self)@.contains_key(k) ==> ranges_disjoint(
                        k.offset as int,
                        k.end(),
                        r.offset as int,
                        r.end(),
                    )
            },
            bytes@.len() > 0 && no_fit(old(self).free_view(), bytes@.len() as int) ==> {
                &&& r.offset == old(self).spec_capacity()
                &&& final(self).spec_capacity() == old(self).spec_capacity() + bytes@.len()
                &&& final(self).free_view() == old(self).free_view()
            },
            forall|i: int|
                bytes@.len() > 0 && #[trigger] first_fit_at(old(self).free_view(), bytes@.len() as int, i) ==> {
                    &&& r.offset == old(self).free_view()[i].0
                    &&& final(self).spec_capacity() == old(self).spec_capacity()
                    &&& final(self).free_view() == take_from_block(old(self).free_view(), i, bytes@.len() as int)
                },
    {
        proof {
            if old(self).spec_capacity() + bytes@.len() > u32::MAX {
                let fv = old(self).free_view();
                let j = choose|j: int| 0 <= j < fv.len() && !(#[trigger] fv[j].1 < bytes@.len());
                assert(bytes@.len() <= fv[j].1);
            }
        }
        let size = bytes.len() as u32;
        if size == 0 {
            return Ref::null();
        }
        let offset = self.find_or_grow(size);
        let ghost mid = self.data@;
        let ghost lv = self.live@;
        let ghost flm = self.free_list@;
        let mut i: usize = 0;
        while i < bytes.len()
            invariant
                self.wf_pending(size as nat),
                self.live@ == lv,
                self.live_bytes == old(self).live_bytes,
                self.free_list@ == flm,
                self.data@.len() == mid.len(),
                size == bytes@.len(),
                offset + size <= mid.len(),
                i <= size,
                forall|p: int| 0 <= p < mid.len() && !(offset <= p < offset + i) ==> #[trigger] self.data@[p] == mid[p],
                forall|j: int| 0 <= j < i ==> #[trigger] self.data@[offset + j] == bytes@[j],
            decreases size - i,
        {
            let p = offset as usize + i;
            self.data.set(p, bytes[i]);
            i += 1;
        }
        self.live_bytes = self.live_bytes + size as usize;
        let r = Ref { offset, len: size };
        proof {
            let lv0 = old(self).live@;
            assert(lv == lv0.push(r));
            assert forall|j: int| 0 <= j < size implies #[trigger] self.data@.subrange(offset as int, r.end())[j] == bytes@[j] by {
                assert(self.data@[offset + j] == bytes@[j]);
            }
            assert(self.data@.subrange(offset as int, r.end()) =~= bytes@);
            assert forall|k: Ref| #[trigger] old(self)@.contains_key(k) implies self.data@.subrange(k.offset as int, k.end()) == old(self).data@.subrange(k.offset as int, k.end()) && ranges_disjoint(k.offset as int, k.end(), r.offset as int, r.end()) by {
                let a = lv0.index_of(k);
                assert(lv[a] == k);
                assert(lv[lv0.len() as int] == r);
                assert(ranges_disjoint(k.offset as int, k.end(), r.offset as int, r.end()));
                assert(self.data@.subrange(k.offset as int, k.end()) =~= old(self).data@.subrange(k.offset as int, k.end()));
            }
            assert(!lv0.contains(r)) by {
                if lv0.contains(r) {
                    let a = lv0.index_of(r);
                    assert(lv[a] == lv[lv0.len() as int]);
                }
            }
            assert forall|x: Ref| #[trigger] lv.contains(x) <==> (lv0.contains(x) || x == r) by {
                if lv.contains(x) {
                    let a = lv.index_of(x);
                    if a < lv0.len() {
                        assert(lv0[a] == x);
                    }
                }
                if lv0.contains(x) {
                    let a = lv0.index_of(x);
                    assert(lv[a] == x);
                }
                assert(lv[lv0.len() as int] == r);
            }
            assert forall|x: Ref| #[trigger] self@.contains_key(x) implies self@[x] == old(self)@.insert(r, bytes@)[x] by {
                if x != r {
                    assert(old(self)@.contains_key(x));
                }
            }
            assert(self@ =~= old(self)@.insert(r, bytes@));
        }
        r
    }

    /// Returns the bytes of `r` to the free list, merging the freed range
    /// with the blocks right before and right after it.
    #[verifier::rlimit(40)]
    pub fn dealloc(&mut self, r: Ref)
        requires
            old(self).wf(),
            old(self).valid_ref(r),
        ensures
            final(self).wf(),
            final(self)@ == old(self)@.remove(r),
            final(self).bytes() == old(self).bytes(),
            final(self).spec_capacity() == old(self).spec_capacity(),
            final(self).spec_live_bytes() == old(self).spec_live_bytes() - r.len,
            forall|p: int| #[trigger] final(self).is_free(p) <==> (old(self).is_free(p) || (r.len > 0 && r.offset <= p < r.end())),
    {
        if r.len == 0 {
            proof {
                assert(!old(self)@.contains_key(r)) by {
                    if old(self)@.contains_key(r) {
                        self.lemma_wf();
                    }
                }
                assert(self@ =~= old(self)@.remove(r));
            }
            return;
        }
        let ghost fl0 = self.free_list@;
        let ghost lv0 = self.live@;
        let ghost k = lv0.index_of(r);
        let pos = self.partition_point(r.offset);
        proof {
            assert(lv0[k] == r);
            lemma_sum_lens_remove(lv0, k);
            assert forall|j: int| 0 <= j < pos implies #[trigger] fl0[j].end() <= r.offset by {
                assert(ranges_disjoint(lv0[k].offset as int, lv0[k].end(), fl0[j].offset as int, fl0[j].end()));
            }
            assert forall|j: int| pos <= j < fl0.len() implies r.end() <= #[trigger] fl0[j].offset by {
                assert(ranges_disjoint(lv0[k].offset as int, lv0[k].end(), fl0[j].offset as int, fl0[j].end()));
            }
        }
        self.live_bytes -= r.len as usize;
        self.live = Ghost(lv0.remove(k));
        let mut new_block = FreeBlock { offset: r.offset, size: r.len };
        let mut merge_next = false;
        if pos < self.free_list.len() {
            let next = self.free_list[pos];
            if new_block.offset + new_block.size == next.offset {
                new_block.size = new_block.size + next.size;
                self.free_list.remove(pos);
                merge_next = true;
            }
        }
        let ghost fl1 = self.free_list@;
        proof {
            if merge_next {
                assert(fl1 =~= fl0.subrange(0, pos as int) + fl0.subrange(pos + 1, fl0.len() as int));
            } else {
                assert(fl1 =~= fl0.subrange(0, pos as int) + fl0.subrange(pos as int, fl0.len() as int));
            }
        }
        if pos > 0 {
            let prev_idx = pos - 1;
            let prev = self.free_list[prev_idx];
            if prev.offset + prev.size == new_block.offset {
                let merged = FreeBlock { offset: prev.offset, size: prev.size + new_block.size };
                self.free_list.set(prev_idx, merged);
                proof {
                    assert(prev == fl0[pos - 1]);
                    assert(self.free_list@ =~= fl0.subrange(0, splice_lo(pos as int, true)) + seq![merged]
                        + fl0.subrange(splice_hi(pos as int, merge_next), fl0.len() as int));
                    self.lemma_dealloc_result(old(self), r, k, pos as int, true, merge_next, merged);
                }
                return;
            }
        }
        self.free_list.insert(pos, new_block);
        proof {
            if pos > 0 {
                assert(fl1[pos - 1] == fl0[pos - 1]);
            }
            assert(self.free_list@ =~= fl0.subrange(0, splice_lo(pos as int, false)) + seq![new_block]
                + fl0.subrange(splice_hi(pos as int, merge_next), fl0.len() as int));
            self.lemma_dealloc_result(old(self), r, k, pos as int, false, merge_next, new_block);
        }
    }

    /// Index of the first free block whose offset is not below `off`.
    fn partition_point(&self, off: u32) -> (pos: usize)
        requires
            self.wf(),
        ensures
            pos <= self.free_list@.len(),
            forall|j: int| 0 <= j < pos ==> #[trigger] self.free_list@[j].offset < off,
            forall|j: int| pos <= j < self.free_list@.len() ==> #[trigger] self.free_list@[j].offset >= off,
    {
        let mut lo: usize = 0;
        let mut hi: usize = self.free_list.len();
        while lo < hi
            invariant
                self.wf(),
                lo <= hi <= self.free_list@.len(),
                forall|j: int| 0 <= j < lo ==> #[trigger] self.free_list@[j].offset < off,
                forall|j: int| hi <= j < self.free_list@.len() ==> #[trigger] self.free_list@[j].offset >= off,
            decreases hi - lo,
        {
            let mid = lo + (hi - lo) / 2;
            if self.free_list[mid].offset < off {
                proof {
                    assert forall|j: int| 0 <= j < mid + 1 implies #[trigger] self.free_list@[j].offset < off by {
                        if j < mid {
                            assert(self.free_list@[j].end() < self.free_list@[mid as int].offset);
                        }
                    }
                }
                lo = mid + 1;
            } else {
                proof {
                    assert forall|j: int| mid <= j < self.free_list@.len() implies #[trigger] self.free_list@[j].offset >= off by {
                        if j > mid {
                            assert(self.free_list@[mid as int].end() < self.free_list@[j].offset);
                        }
                    }
                }
                hi = mid;
            }
        }
        lo
    }

    /// The arena after `r` (the `k`-th live handle) is spliced into the free
    /// list is consistent and no longer holds `r`.
    proof fn lemma_dealloc_result(
        &self,
        old_arena: &Arena,
        r: Ref,
        k: int,
        pos: int,
        merge_prev: bool,
        merge_next: bool,
        blk: FreeBlock,
    )
        requires
            old_arena.wf(),
            r.len > 0,
            splice_ok(
                old_arena.free_list@,
                old_arena.live@,
                k,
                r,
                old_arena.data@.len(),
                pos,
                merge_prev,
                merge_next,
                blk,
                self.free_list@,
            ),
            self.live@ == old_arena.live@.remove(k),
            self.data@ == old_arena.data@,
            self.live_bytes + r.len == old_arena.live_bytes,
        ensures
            self.wf(),
            self@ == old_arena@.remove(r),
            forall|p: int| #[trigger] self.is_free(p) <==> (old_arena.is_free(p) || (r.len > 0 && r.offset <= p < r.end())),
    {
        let lv0 = old_arena.live@;
        let fl0 = old_arena.free_list@;
        lemma_dealloc_splice(fl0, lv0, k, r, self.data@.len(), pos, merge_prev, merge_next, blk, self.free_list@);
        lemma_sum_lens_remove(lv0, k);
        let lv = self.live@;
        assert forall|i: int| 0 <= i < lv.len() implies #[trigger] lv[i].len > 0 && lv[i].end() <= self.data@.len() by {
            let i0 = if i < k { i } else { i + 1 };
            assert(lv[i] == lv0[i0]);
        }
        assert forall|i: int, j: int|
            0 <= i < lv.len() && 0 <= j < lv.len() && i != j implies ranges_disjoint(
                #[trigger] lv[i].offset as int,
                lv[i].end(),
                #[trigger] lv[j].offset as int,
                lv[j].end(),
            ) by {
            let i0 = if i < k { i } else { i + 1 };
            let j0 = if j < k { j } else { j + 1 };
            assert(lv[i] == lv0[i0] && lv[j] == lv0[j0]);
        }
        assert forall|x: Ref| #[trigger] lv.contains(x) <==> (lv0.contains(x) && x != r) by {
            lemma_remove_contains(lv0, k, x);
        }
        assert(self@ =~= old_arena@.remove(r));
        self.lemma_free_positions(old_arena, r);
    }

    /// After a splice, a byte is free exactly when it was free before or
    /// lies in `r`.
    proof fn lemma_free_positions(&self, old_arena: &Arena, r: Ref)
        requires
            forall|p: int| in_blocks(self.free_list@, p) <==> (in_blocks(old_arena.free_list@, p) || (r.offset <= p < r.end())),
        ensures
            forall|p: int| #[trigger] self.is_free(p) <==> (old_arena.is_free(p) || (r.len > 0 && r.offset <= p < r.end())),
    {
        assert forall|p: int| #[trigger] self.is_free(p) <==> (old_arena.is_free(p) || (r.len > 0 && r.offset <= p < r.end())) by {
            lemma_is_free_in_blocks(self, p);
            lemma_is_free_in_blocks(old_arena, p);
        }
    }

    /// The length of the buffer, freed ranges included.
    pub fn capacity_bytes(&self) -> (n: usize)
        ensures
            n == self.spec_capacity(),
    {
        self.data.len()
    }

    /// Bytes held by live allocations.
    pub fn live_bytes(&self) -> (n: usize)
        ensures
            n == self.spec_live_bytes(),
    {
        self.live_bytes
    }

    /// Number of blocks on the free list.
    pub fn free_list_len(&self) -> (n: usize)
        ensures
            n == self.free_view().len(),
    {
        self.free_list.len()
    }

    /// The `i`-th free block as `(offset, size)`.
    pub fn free_block(&self, i: usize) -> (b: (u32, u32))
        requires
            i < self.free_view().len(),
        ensures
            b == self.free_view()[i as int],
    {
        let blk = self.free_list[i];
        (blk.offset, blk.size)
    }
}

impl Default for Arena {
    fn default() -> (a: Self)
        ensures
            a.wf(),
            a@ == Map::<Ref, Seq<u8>>::empty(),
            a.spec_capacity() == 0,
    {
        Arena::new()
    }
}

} // verus!
