//! A from-scratch B-Tree (CLRS-style, minimum degree `T`). Keys and values
//! are stored as `Ref` handles into an [`Arena`]; each node owns its
//! children. Abstractly the tree is the sorted sequence of its entries
//! (`BTree::entries`) and the map from keys to values (`BTree::view`).
use crate::arena::{sum_lens, Arena, Ref};
use crate::btree_model::{
    child_post, child_pre, cview, entry_has, frame, has_key_c, in_refs, inorder, internal_shape,
    key_pos, keys_sorted, lemma_child_decomp, lemma_frame_compose, lemma_frame_insert,
    lemma_frame_remove, lemma_frame_trans, lemma_frame_update, lemma_key_pos, lemma_node_keys,
    lemma_search_child, lemma_sorted_unique, lemma_split, lemma_sub_refs, lemma_update_child,
    lemma_update_entry, lemma_wf_child, lemma_wf_min, lemma_wf_replace_child, lemma_wf_split,
    lemma_new_root, owns_exactly, lemma_borrow_left, lemma_borrow_right, lemma_merge,
    lemma_wf_borrow_left, lemma_wf_borrow_right, lemma_wf_merge, lemma_ends, lemma_child_bounds,
    child_range, lemma_child_range_unique, lemma_key_neighbors, node_total, nodes_sum, lemma_total_le,
    lemma_sum_mono, items,
    refs_distinct, refs_ok, sorted_c, wf_node, zip, Node, MAX_KEYS, T,
};
use crate::bytes_order::{compare_bytes, lex_lt, Cmp};
use crate::glob::{glob_match, glob_matches};
use vstd::prelude::*;

verus! {

/// The map from keys to values of a sequence of entries.
pub open spec fn entries_map(s: Seq<(Seq<u8>, Seq<u8>)>) -> Map<Seq<u8>, Seq<u8>> {
    Map::new(
        |k: Seq<u8>| has_key_c(s, k),
        |k: Seq<u8>| s[key_index(s, k)].1,
    )
}

/// The bytes of keys and values of a sequence of entries.
pub open spec fn entry_bytes(s: Seq<(Seq<u8>, Seq<u8>)>) -> nat
    decreases s.len(),
{
    if s.len() == 0 {
        0
    } else {
        entry_bytes(s.drop_last()) + s.last().0.len() + s.last().1.len()
    }
}

/// The non-empty handles of the entries, in order.
spec fn nonempty_refs(s: Seq<(Ref, Ref)>) -> Seq<Ref>
    decreases s.len(),
{
    if s.len() == 0 {
        Seq::empty()
    } else {
        let e = s.last();
        let base = nonempty_refs(s.drop_last());
        let b1 = if e.0.len > 0 {
            base.push(e.0)
        } else {
            base
        };
        if e.1.len > 0 {
            b1.push(e.1)
        } else {
            b1
        }
    }
}

/// A handle is listed exactly when it is non-empty and among the entries.
proof fn lemma_nonempty_refs_contains(s: Seq<(Ref, Ref)>)
    ensures
        forall|r: Ref| #[trigger] nonempty_refs(s).contains(r) <==> (r.len > 0 && in_refs(s, r)),
    decreases s.len(),
{
    if s.len() > 0 {
        let p = s.drop_last();
        let e = s.last();
        let n = s.len() - 1;
        lemma_nonempty_refs_contains(p);
        let base = nonempty_refs(p);
        let b1 = if e.0.len > 0 {
            base.push(e.0)
        } else {
            base
        };
        assert forall|r: Ref| #[trigger] nonempty_refs(s).contains(r) <==> (r.len > 0 && in_refs(s, r)) by {
            assert(forall|x: Ref| #[trigger] b1.contains(x) <==> (base.contains(x) || (e.0.len > 0 && x == e.0))) by {
                if e.0.len > 0 {
                    assert forall|x: Ref| #[trigger] b1.contains(x) implies base.contains(x) || x == e.0 by {
                        let i = b1.index_of(x);
                        if i < base.len() {
                            assert(base[i] == x);
                        }
                    }
                    assert forall|x: Ref| base.contains(x) implies #[trigger] b1.contains(x) by {
                        let i = base.index_of(x);
                        assert(b1[i] == x);
                    }
                    assert(b1[base.len() as int] == e.0);
                }
            }
            let all = nonempty_refs(s);
            assert(forall|x: Ref| #[trigger] all.contains(x) <==> (b1.contains(x) || (e.1.len > 0 && x == e.1))) by {
                if e.1.len > 0 {
                    assert forall|x: Ref| #[trigger] all.contains(x) implies b1.contains(x) || x == e.1 by {
                        let i = all.index_of(x);
                        if i < b1.len() {
                            assert(b1[i] == x);
                        }
                    }
                    assert forall|x: Ref| b1.contains(x) implies #[trigger] all.contains(x) by {
                        let i = b1.index_of(x);
                        assert(all[i] == x);
                    }
                    assert(all[b1.len() as int] == e.1);
                }
            }
            if in_refs(s, r) {
                let q = choose|q: int| 0 <= q < s.len() && (#[trigger] s[q].0 == r || s[q].1 == r);
                if q < n {
                    assert(p[q] == s[q]);
                    assert(in_refs(p, r));
                }
            }
            if in_refs(p, r) {
                let q = choose|q: int| 0 <= q < p.len() && (#[trigger] p[q].0 == r || p[q].1 == r);
                assert(s[q] == p[q]);
            }
            assert(s[n] == e);
        }
    }
}

/// Distinct handles among the entries are listed without repeats.
proof fn lemma_nonempty_refs_distinct(s: Seq<(Ref, Ref)>)
    requires
        refs_distinct(s),
    ensures
        nonempty_refs(s).no_duplicates(),
    decreases s.len(),
{
    if s.len() > 0 {
        let p = s.drop_last();
        let e = s.last();
        let n = s.len() - 1;
        assert(refs_distinct(p)) by {
            assert forall|i: int, j: int| 0 <= i < p.len() && 0 <= j < p.len() && i != j implies {
                &&& (#[trigger] p[i]).0.len > 0 ==> p[i].0 != (#[trigger] p[j]).0 && p[i].0 != p[j].1
                &&& p[i].1.len > 0 ==> p[i].1 != p[j].1 && p[i].1 != p[j].0
            } by {
                assert(p[i] == s[i] && p[j] == s[j]);
            }
            assert forall|i: int| 0 <= i < p.len() && (#[trigger] p[i]).0.len > 0 implies p[i].0 != p[i].1 by {
                assert(p[i] == s[i]);
            }
        }
        lemma_nonempty_refs_distinct(p);
        lemma_nonempty_refs_contains(p);
        let base = nonempty_refs(p);
        assert(s[n] == e);
        assert(e.0.len > 0 ==> !base.contains(e.0)) by {
            if e.0.len > 0 && base.contains(e.0) {
                let q = choose|q: int| 0 <= q < p.len() && (#[trigger] p[q].0 == e.0 || p[q].1 == e.0);
                assert(s[q] == p[q]);
            }
        }
        assert(e.1.len > 0 ==> !base.contains(e.1)) by {
            if e.1.len > 0 && base.contains(e.1) {
                let q = choose|q: int| 0 <= q < p.len() && (#[trigger] p[q].0 == e.1 || p[q].1 == e.1);
                assert(s[q] == p[q]);
            }
        }
        let b1 = if e.0.len > 0 {
            base.push(e.0)
        } else {
            base
        };
        assert(b1.no_duplicates()) by {
            if e.0.len > 0 {
                assert forall|i: int, j: int| 0 <= i < b1.len() && 0 <= j < b1.len() && i != j implies b1[i] != b1[j] by {
                    if i < base.len() && j < base.len() {
                        assert(b1[i] == base[i] && b1[j] == base[j]);
                    } else if i < base.len() {
                        assert(b1[i] == base[i]);
                        assert(base.contains(base[i]));
                    } else if j < base.len() {
                        assert(b1[j] == base[j]);
                        assert(base.contains(base[j]));
                    }
                }
            }
        }
        assert(e.1.len > 0 ==> !b1.contains(e.1)) by {
            if e.1.len > 0 && b1.contains(e.1) {
                let i = b1.index_of(e.1);
                if i < base.len() {
                    assert(base[i] == e.1);
                    assert(base.contains(e.1));
                }
            }
        }
        let all = nonempty_refs(s);
        if e.1.len > 0 {
            assert forall|i: int, j: int| 0 <= i < all.len() && 0 <= j < all.len() && i != j implies all[i] != all[j] by {
                if i < b1.len() && j < b1.len() {
                    assert(all[i] == b1[i] && all[j] == b1[j]);
                } else if i < b1.len() {
                    assert(all[i] == b1[i]);
                    assert(b1.contains(b1[i]));
                } else if j < b1.len() {
                    assert(all[j] == b1[j]);
                    assert(b1.contains(b1[j]));
                }
            }
        }
    }
}

/// The listed handles cover as many bytes as the entries' keys and values.
proof fn lemma_nonempty_refs_bytes(a: Arena, s: Seq<(Ref, Ref)>)
    requires
        a.wf(),
        refs_ok(a, s),
    ensures
        sum_lens(nonempty_refs(s)) == entry_bytes(cview(a, s)),
    decreases s.len(),
{
    if s.len() > 0 {
        let p = s.drop_last();
        let e = s.last();
        let n = s.len() - 1;
        assert(s[n] == e);
        assert forall|q: int| 0 <= q < p.len() implies a.valid_ref(#[trigger] p[q].0) && a.valid_ref(p[q].1) by {
            assert(p[q] == s[q]);
        }
        lemma_nonempty_refs_bytes(a, p);
        a.lemma_contents_len(e.0);
        a.lemma_contents_len(e.1);
        let c = cview(a, s);
        assert(c.drop_last() =~= cview(a, p));
        assert(c.last() == (a.contents(e.0), a.contents(e.1)));
        let base = nonempty_refs(p);
        let b1 = if e.0.len > 0 {
            base.push(e.0)
        } else {
            base
        };
        assert(sum_lens(b1) == sum_lens(base) + e.0.len) by {
            if e.0.len > 0 {
                assert(base.push(e.0).drop_last() =~= base);
            }
        }
        assert(sum_lens(nonempty_refs(s)) == sum_lens(b1) + e.1.len) by {
            if e.1.len > 0 {
                assert(b1.push(e.1).drop_last() =~= b1);
            }
        }
    }
}

/// Position of an entry with key `k`.
pub open spec fn key_index(s: Seq<(Seq<u8>, Seq<u8>)>, k: Seq<u8>) -> int {
    choose|q: int| 0 <= q < s.len() && #[trigger] s[q].0 == k
}

/// In a sorted sequence, the map sends the key of entry `q` to its value.
pub proof fn lemma_entries_map(s: Seq<(Seq<u8>, Seq<u8>)>, q: int)
    requires
        sorted_c(s),
        0 <= q < s.len(),
    ensures
        entries_map(s).contains_key(s[q].0),
        entries_map(s)[s[q].0] == s[q].1,
{
    let k = s[q].0;
    assert(has_key_c(s, k));
    let q2 = key_index(s, k);
    lemma_sorted_unique(s, q, q2);
}

/// `cv1` is `cv0` with `(key, value)` inserted at its sorted position.
pub open spec fn inserted_at(
    cv0: Seq<(Seq<u8>, Seq<u8>)>,
    cv1: Seq<(Seq<u8>, Seq<u8>)>,
    key: Seq<u8>,
    value: Seq<u8>,
) -> bool {
    exists|p: int|
        0 <= p <= cv0.len() && cv1 == cv0.insert(p, (key, value)) && (forall|q: int|
            0 <= q < p ==> lex_lt(#[trigger] cv0[q].0, key)) && (forall|q: int|
            p <= q < cv0.len() ==> lex_lt(key, #[trigger] cv0[q].0))
}

/// An insertion into a middle part whose surroundings are below and above
/// the key is an insertion into the whole.
proof fn lemma_inserted_compose(
    pre: Seq<(Seq<u8>, Seq<u8>)>,
    c0: Seq<(Seq<u8>, Seq<u8>)>,
    c1: Seq<(Seq<u8>, Seq<u8>)>,
    post: Seq<(Seq<u8>, Seq<u8>)>,
    key: Seq<u8>,
    value: Seq<u8>,
)
    requires
        inserted_at(c0, c1, key, value),
        forall|q: int| 0 <= q < pre.len() ==> lex_lt(#[trigger] pre[q].0, key),
        forall|q: int| 0 <= q < post.len() ==> lex_lt(key, #[trigger] post[q].0),
    ensures
        inserted_at(pre + c0 + post, pre + c1 + post, key, value),
{
    let pc = choose|pc: int|
        0 <= pc <= c0.len() && c1 == c0.insert(pc, (key, value)) && (forall|q: int|
            0 <= q < pc ==> lex_lt(#[trigger] c0[q].0, key)) && (forall|q: int|
            pc <= q < c0.len() ==> lex_lt(key, #[trigger] c0[q].0));
    let cv0 = pre + c0 + post;
    let p = pc + pre.len();
    assert(pre + c1 + post =~= cv0.insert(p, (key, value)));
    assert forall|q: int| 0 <= q < p implies lex_lt(#[trigger] cv0[q].0, key) by {
        if q >= pre.len() {
            assert(cv0[q] == c0[q - pre.len()]);
        } else {
            assert(cv0[q] == pre[q]);
        }
    }
    assert forall|q: int| p <= q < cv0.len() implies lex_lt(key, #[trigger] cv0[q].0) by {
        if q < pre.len() + c0.len() {
            assert(cv0[q] == c0[q - pre.len()]);
        } else {
            assert(cv0[q] == post[q - pre.len() - c0.len()]);
        }
    }
}

/// Replacing the value of an existing key.
proof fn lemma_map_update(s: Seq<(Seq<u8>, Seq<u8>)>, q: int, v: Seq<u8>)
    requires
        sorted_c(s),
        0 <= q < s.len(),
    ensures
        sorted_c(s.update(q, (s[q].0, v))),
        entries_map(s.update(q, (s[q].0, v))) == entries_map(s).insert(s[q].0, v),
{
    let s1 = s.update(q, (s[q].0, v));
    assert forall|i: int, j: int| 0 <= i < j < s1.len() implies lex_lt(#[trigger] s1[i].0, #[trigger] s1[j].0) by {
        assert(s1[i].0 == s[i].0 && s1[j].0 == s[j].0);
    }
    assert forall|k: Seq<u8>| has_key_c(s1, k) <==> has_key_c(s, k) by {
        if has_key_c(s1, k) {
            let x = choose|x: int| 0 <= x < s1.len() && #[trigger] s1[x].0 == k;
            assert(s[x].0 == k);
        }
        if has_key_c(s, k) {
            let x = choose|x: int| 0 <= x < s.len() && #[trigger] s[x].0 == k;
            assert(s1[x].0 == k);
        }
    }
    let m1 = entries_map(s1);
    let m = entries_map(s).insert(s[q].0, v);
    assert forall|k: Seq<u8>| #[trigger] m1.contains_key(k) implies m1[k] == m[k] by {
        let x = key_index(s1, k);
        lemma_entries_map(s1, x);
        if x != q {
            lemma_entries_map(s, x);
            assert(s[x].0 != s[q].0) by {
                if s[x].0 == s[q].0 {
                    lemma_sorted_unique(s, x, q);
                }
            }
        }
    }
    lemma_entries_map(s, q);
    assert(m1 =~= m);
}

/// Inserting a new key at its sorted position.
proof fn lemma_map_insert(s: Seq<(Seq<u8>, Seq<u8>)>, s1: Seq<(Seq<u8>, Seq<u8>)>, k: Seq<u8>, v: Seq<u8>)
    requires
        sorted_c(s),
        inserted_at(s, s1, k, v),
    ensures
        sorted_c(s1),
        !entries_map(s).contains_key(k),
        entries_map(s1) == entries_map(s).insert(k, v),
        s1.len() == s.len() + 1,
{
    let p = choose|p: int|
        0 <= p <= s.len() && s1 == s.insert(p, (k, v)) && (forall|q: int|
            0 <= q < p ==> lex_lt(#[trigger] s[q].0, k)) && (forall|q: int|
            p <= q < s.len() ==> lex_lt(k, #[trigger] s[q].0));
    assert forall|i: int, j: int| 0 <= i < j < s1.len() implies lex_lt(#[trigger] s1[i].0, #[trigger] s1[j].0) by {
        if j < p {
        } else if j == p {
        } else if i < p {
            assert(s1[j] == s[j - 1]);
            crate::bytes_order::lemma_lex_transitive(s[i].0, k, s[j - 1].0);
        } else if i == p {
            assert(s1[j] == s[j - 1]);
        } else {
            assert(s1[i] == s[i - 1] && s1[j] == s[j - 1]);
        }
    }
    assert(!has_key_c(s, k)) by {
        if has_key_c(s, k) {
            let x = choose|x: int| 0 <= x < s.len() && #[trigger] s[x].0 == k;
            crate::bytes_order::lemma_lex_irreflexive(k);
        }
    }
    let m1 = entries_map(s1);
    let m = entries_map(s).insert(k, v);
    assert forall|kk: Seq<u8>| #[trigger] m1.contains_key(kk) <==> m.contains_key(kk) by {
        if has_key_c(s1, kk) {
            let x = choose|x: int| 0 <= x < s1.len() && #[trigger] s1[x].0 == kk;
            if x < p {
                assert(s[x].0 == kk);
            } else if x > p {
                assert(s[x - 1].0 == kk);
            }
        }
        if has_key_c(s, kk) {
            let x = choose|x: int| 0 <= x < s.len() && #[trigger] s[x].0 == kk;
            if x < p {
                assert(s1[x].0 == kk);
            } else {
                assert(s1[x + 1].0 == kk);
            }
        }
        if kk == k {
            assert(s1[p].0 == k);
        }
    }
    assert forall|kk: Seq<u8>| #[trigger] m1.contains_key(kk) implies m1[kk] == m[kk] by {
        let x = key_index(s1, kk);
        lemma_entries_map(s1, x);
        if x < p {
            lemma_entries_map(s, x);
        } else if x > p {
            lemma_entries_map(s, x - 1);
            assert(s1[x] == s[x - 1]);
        }
    }
    assert(m1 =~= m);
}

/// Removing an entry.
proof fn lemma_map_remove(s: Seq<(Seq<u8>, Seq<u8>)>, p: int)
    requires
        sorted_c(s),
        0 <= p < s.len(),
    ensures
        sorted_c(s.remove(p)),
        entries_map(s.remove(p)) == entries_map(s).remove(s[p].0),
{
    let s1 = s.remove(p);
    assert forall|i: int, j: int| 0 <= i < j < s1.len() implies lex_lt(#[trigger] s1[i].0, #[trigger] s1[j].0) by {
        let i0 = if i < p { i } else { i + 1 };
        let j0 = if j < p { j } else { j + 1 };
        assert(s1[i] == s[i0] && s1[j] == s[j0]);
    }
    let m1 = entries_map(s1);
    let m = entries_map(s).remove(s[p].0);
    assert forall|kk: Seq<u8>| #[trigger] m1.contains_key(kk) <==> m.contains_key(kk) by {
        if has_key_c(s1, kk) {
            let x = choose|x: int| 0 <= x < s1.len() && #[trigger] s1[x].0 == kk;
            let x0 = if x < p { x } else { x + 1 };
            assert(s[x0].0 == kk);
            if kk == s[p].0 {
                lemma_sorted_unique(s, x0, p);
            }
        }
        if has_key_c(s, kk) && kk != s[p].0 {
            let x = choose|x: int| 0 <= x < s.len() && #[trigger] s[x].0 == kk;
            if x < p {
                assert(s1[x].0 == kk);
            } else {
                assert(x != p);
                assert(s1[x - 1].0 == kk);
            }
        }
    }
    assert forall|kk: Seq<u8>| #[trigger] m1.contains_key(kk) implies m1[kk] == m[kk] by {
        let x = key_index(s1, kk);
        lemma_entries_map(s1, x);
        let x0 = if x < p { x } else { x + 1 };
        assert(s1[x] == s[x0]);
        lemma_entries_map(s, x0);
    }
    assert(m1 =~= m);
}

/// A frame carries exact ownership from the old entries to the new.
proof fn lemma_owns_frame(a0: Arena, a1: Arena, s0: Seq<(Ref, Ref)>, s1: Seq<(Ref, Ref)>)
    requires
        a0.wf(),
        a1.wf(),
        owns_exactly(a0, s0),
        frame(a0, a1, s0, s1),
        refs_ok(a1, s1),
    ensures
        owns_exactly(a1, s1),
{
    assert forall|r: Ref| #[trigger] a1@.contains_key(r) <==> (r.len > 0 && in_refs(s1, r)) by {
        if a1@.contains_key(r) {
            crate::btree_model::lemma_live_nonempty(a1, r);
        }
        if r.len > 0 && in_refs(s1, r) {
            let q = crate::btree_model::lemma_in_refs_witness(s1, r);
            assert(a1.valid_ref(s1[q].0) && a1.valid_ref(s1[q].1));
        }
    }
}

/// Bytes of an entry.
pub open spec fn entry_size(e: (Seq<u8>, Seq<u8>)) -> int {
    (e.0.len() + e.1.len()) as int
}

/// Arena bytes a deletion at position `p` may add: the deleted entry of an
/// internal node is replaced by a copy of one neighbour; an entry at either
/// end of a subtree always sits in a leaf and nothing is copied.
pub open spec fn delete_growth(cv: Seq<(Seq<u8>, Seq<u8>)>, p: int) -> int {
    if 0 < p < cv.len() - 1 {
        if entry_size(cv[p - 1]) >= entry_size(cv[p + 1]) {
            entry_size(cv[p - 1])
        } else {
            entry_size(cv[p + 1])
        }
    } else {
        0
    }
}

/// The arena has room for the copy a deletion of `key` may make.
pub open spec fn room_to_delete(cap: nat, cv: Seq<(Seq<u8>, Seq<u8>)>, key: Seq<u8>) -> bool {
    forall|p: int| 0 <= p < cv.len() && #[trigger] cv[p].0 == key ==> cap + delete_growth(cv, p) <= u32::MAX
}

/// `cv1` is `cv0` without the entry of `key`, whose value was `val`.
pub open spec fn deleted(
    cv0: Seq<(Seq<u8>, Seq<u8>)>,
    cv1: Seq<(Seq<u8>, Seq<u8>)>,
    key: Seq<u8>,
    val: Seq<u8>,
    cap0: nat,
    cap1: nat,
) -> bool {
    forall|p: int|
        0 <= p < cv0.len() && #[trigger] cv0[p].0 == key ==> cv1 == cv0.remove(p) && val == cv0[p].1 && cap1 <= cap0
            + delete_growth(cv0, p)
}

/// A deletion inside a middle part, seen on the whole.
proof fn lemma_deleted_compose(
    pre: Seq<(Seq<u8>, Seq<u8>)>,
    c0: Seq<(Seq<u8>, Seq<u8>)>,
    c1: Seq<(Seq<u8>, Seq<u8>)>,
    post: Seq<(Seq<u8>, Seq<u8>)>,
    key: Seq<u8>,
    val: Seq<u8>,
    cap0: nat,
    cap1: nat,
)
    requires
        sorted_c(pre + c0 + post),
        has_key_c(c0, key),
        deleted(c0, c1, key, val, cap0, cap1),
    ensures
        deleted(pre + c0 + post, pre + c1 + post, key, val, cap0, cap1),
{
    let all = pre + c0 + post;
    let pc = choose|pc: int| 0 <= pc < c0.len() && #[trigger] c0[pc].0 == key;
    let p = pc + pre.len();
    assert(all[p] == c0[pc]);
    assert(pre + c0.remove(pc) + post =~= all.remove(p));
    assert forall|x: int| 0 <= x < c0.len() && #[trigger] c0[x].0 == key implies x == pc by {
        assert(all[x + pre.len()] == c0[x]);
        lemma_sorted_unique(all, x + pre.len(), p);
    }
    assert(delete_growth(c0, pc) <= delete_growth(all, p)) by {
        if 0 < pc < c0.len() - 1 {
            assert(all[p - 1] == c0[pc - 1]);
            assert(all[p + 1] == c0[pc + 1]);
        }
    }
    assert forall|x: int| 0 <= x < all.len() && #[trigger] all[x].0 == key implies pre + c1 + post == all.remove(x)
        && val == all[x].1 && cap1 <= cap0 + delete_growth(all, x) by {
        lemma_sorted_unique(all, x, p);
    }
}

/// Room for a deletion in the whole is room for it in the part that holds
/// the key.
proof fn lemma_room_sub(
    pre: Seq<(Seq<u8>, Seq<u8>)>,
    c0: Seq<(Seq<u8>, Seq<u8>)>,
    post: Seq<(Seq<u8>, Seq<u8>)>,
    key: Seq<u8>,
    cap: nat,
)
    requires
        sorted_c(pre + c0 + post),
        room_to_delete(cap, pre + c0 + post, key),
    ensures
        room_to_delete(cap, c0, key),
{
    let all = pre + c0 + post;
    assert forall|pc: int| 0 <= pc < c0.len() && #[trigger] c0[pc].0 == key implies cap + delete_growth(c0, pc)
        <= u32::MAX by {
        let p = pc + pre.len();
        assert(all[p] == c0[pc]);
        if 0 < pc < c0.len() - 1 {
            assert(all[p - 1] == c0[pc - 1]);
            assert(all[p + 1] == c0[pc + 1]);
        }
    }
}

/// The byte contents of a list of key-value pairs.
pub open spec fn pairs_view(v: Seq<(Vec<u8>, Vec<u8>)>) -> Seq<(Seq<u8>, Seq<u8>)> {
    v.map_values(|e: (Vec<u8>, Vec<u8>)| (e.0@, e.1@))
}

/// The byte contents of a list of byte strings.
pub open spec fn bytes_view(v: Seq<Vec<u8>>) -> Seq<Seq<u8>> {
    v.map_values(|e: Vec<u8>| e@)
}

/// The keys of a sequence of entries.
pub open spec fn entry_keys(s: Seq<(Seq<u8>, Seq<u8>)>) -> Seq<Seq<u8>> {
    s.map_values(|e: (Seq<u8>, Seq<u8>)| e.0)
}

/// The arena has room for a copy of any one stored entry (a deletion may
/// copy a neighbour of the deleted key).
pub open spec fn room_for_any_entry(cap: nat, m: Map<Seq<u8>, Seq<u8>>) -> bool {
    forall|k: Seq<u8>| #[trigger] m.contains_key(k) ==> cap + k.len() + m[k].len() <= u32::MAX
}

/// Room for a copy of any stored entry is room for the copy a deletion
/// makes.
proof fn lemma_room_from_map(cap: nat, cv: Seq<(Seq<u8>, Seq<u8>)>, key: Seq<u8>)
    requires
        sorted_c(cv),
        cap <= u32::MAX,
        room_for_any_entry(cap, entries_map(cv)),
    ensures
        room_to_delete(cap, cv, key),
{
    assert forall|p: int| 0 <= p < cv.len() && #[trigger] cv[p].0 == key implies cap + delete_growth(cv, p) <= u32::MAX by {
        if 0 < p < cv.len() - 1 {
            lemma_entries_map(cv, p - 1);
            lemma_entries_map(cv, p + 1);
        }
    }
}

/// What a deletion may add to the arena is the size of a stored entry.
proof fn lemma_growth_entry(cv: Seq<(Seq<u8>, Seq<u8>)>, p: int)
    requires
        sorted_c(cv),
        0 <= p < cv.len(),
    ensures
        delete_growth(cv, p) == 0 || exists|k: Seq<u8>|
            entries_map(cv).contains_key(k) && delete_growth(cv, p) == k.len() + #[trigger] entries_map(cv)[k].len(),
{
    if 0 < p < cv.len() - 1 {
        lemma_entries_map(cv, p - 1);
        lemma_entries_map(cv, p + 1);
        if entry_size(cv[p - 1]) >= entry_size(cv[p + 1]) {
            assert(entries_map(cv)[cv[p - 1].0] == cv[p - 1].1);
        } else {
            assert(entries_map(cv)[cv[p + 1].0] == cv[p + 1].1);
        }
    }
}

/// Size figures of a tree and its arena.
pub struct BTreeStats {
    pub len: usize,
    pub arena_capacity_bytes: usize,
    pub arena_live_bytes: usize,
    pub node_count: usize,
}

/// A B-Tree of byte keys and values, whose bytes live in an arena.
pub struct BTree {
    arena: Arena,
    root: Node,
    len: usize,
    height: Ghost<nat>,
}

impl View for BTree {
    type V = Map<Seq<u8>, Seq<u8>>;

    /// Each stored key and its value.
    closed spec fn view(&self) -> Map<Seq<u8>, Seq<u8>> {
        entries_map(self.entries())
    }
}

/// Binary-searches the keys of `node` for `key`. Returns `(index, found)`
/// where `index` is either the match position or the insertion point.
fn locate(arena: &Arena, node: &Node, key: &[u8]) -> (res: (usize, bool))
    requires
        arena.wf(),
        node.keys@.len() <= MAX_KEYS,
        forall|i: int| 0 <= i < node.keys@.len() ==> arena.valid_ref(#[trigger] node.keys@[i]),
        keys_sorted(*arena, node.keys@),
    ensures
        res.0 <= node.keys@.len(),
        res.1 ==> res.0 < node.keys@.len() && arena.contents(node.keys@[res.0 as int]) == key@,
        !res.1 ==> forall|j: int| 0 <= j < res.0 ==> lex_lt(arena.contents(#[trigger] node.keys@[j]), key@),
        !res.1 ==> forall|j: int|
            res.0 <= j < node.keys@.len() ==> lex_lt(key@, arena.contents(#[trigger] node.keys@[j])),
{
    let mut lo: usize = 0;
    let mut hi: usize = node.keys.len();
    while lo < hi
        invariant
            arena.wf(),
            lo <= hi <= node.keys@.len() <= MAX_KEYS,
            forall|i: int| 0 <= i < node.keys@.len() ==> arena.valid_ref(#[trigger] node.keys@[i]),
            keys_sorted(*arena, node.keys@),
            forall|j: int| 0 <= j < lo ==> lex_lt(arena.contents(#[trigger] node.keys@[j]), key@),
            forall|j: int| hi <= j < node.keys@.len() ==> lex_lt(key@, arena.contents(#[trigger] node.keys@[j])),
        decreases hi - lo,
    {
        let mid = (lo + hi) / 2;
        let kref = node.keys[mid];
        match compare_bytes(arena.read(kref), key) {
            Cmp::Equal => {
                return (mid, true);
            },
            Cmp::Less => {
                proof {
                    assert forall|j: int| 0 <= j < mid + 1 implies lex_lt(arena.contents(#[trigger] node.keys@[j]), key@) by {
                        if j < mid {
                            crate::bytes_order::lemma_lex_transitive(
                                arena.contents(node.keys@[j]),
                                arena.contents(node.keys@[mid as int]),
                                key@,
                            );
                        }
                    }
                }
                lo = mid + 1;
            },
            Cmp::Greater => {
                proof {
                    assert forall|j: int| mid <= j < node.keys@.len() implies lex_lt(key@, arena.contents(#[trigger] node.keys@[j])) by {
                        if j > mid {
                            crate::bytes_order::lemma_lex_transitive(
                                key@,
                                arena.contents(node.keys@[mid as int]),
                                arena.contents(node.keys@[j]),
                            );
                        }
                    }
                }
                hi = mid;
            },
        }
    }
    (lo, false)
}

/// Finds the value handle stored under `key` in the subtree of `node`.
fn search_exact(arena: &Arena, node: &Node, key: &[u8], Ghost(h): Ghost<nat>) -> (res: Option<Ref>)
    requires
        arena.wf(),
        wf_node(*node, h, 0),
        sorted_c(cview(*arena, inorder(*node, h))),
        refs_ok(*arena, inorder(*node, h)),
    ensures
        res is Some <==> has_key_c(cview(*arena, inorder(*node, h)), key@),
        res matches Some(vr) ==> {
            &&& arena.valid_ref(vr)
            &&& exists|q: int|
                0 <= q < inorder(*node, h).len() && #[trigger] cview(*arena, inorder(*node, h))[q] == (
                    key@,
                    arena.contents(vr),
                )
        },
    decreases h,
{
    let ghost s = inorder(*node, h);
    let ghost cs = cview(*arena, s);
    proof {
        lemma_node_keys(*arena, *node, h);
    }
    let (idx, found) = locate(arena, node, key);
    if found {
        proof {
            lemma_key_pos(*node, h, idx as int);
            let q = crate::btree_model::key_pos(*node, h, idx as int);
            assert(cs[q] == (key@, arena.contents(node.vals@[idx as int])));
            assert(0 <= q < cs.len());
            assert(cs[q].0 == key@);
            assert(has_key_c(cs, key@));
        }
        return Some(node.vals[idx]);
    }
    if node.is_leaf {
        proof {
            if has_key_c(cs, key@) {
                let q = choose|q: int| 0 <= q < cs.len() && #[trigger] cs[q].0 == key@;
                assert(s == zip(node.keys@, node.vals@));
                assert(cs[q].0 == arena.contents(node.keys@[q]));
                crate::bytes_order::lemma_lex_irreflexive(key@);
            }
        }
        None
    } else {
        proof {
            lemma_search_child(*arena, *node, h, idx as int, key@);
            crate::btree_model::lemma_wf_child(*node, h, 0, idx as int);
            let c = inorder(node.children@[idx as int], (h - 1) as nat);
            crate::btree_model::lemma_child_decomp(*node, h, idx as int);
            let pre = crate::btree_model::child_pre(*node, h, idx as int);
            assert forall|q: int| 0 <= q < c.len() implies arena.valid_ref(#[trigger] c[q].0) && arena.valid_ref(c[q].1) by {
                assert(s[q + pre.len()] == c[q]);
            }
        }
        let res = search_exact(arena, &node.children[idx], key, Ghost((h - 1) as nat));
        proof {
            if res is Some {
                let c = inorder(node.children@[idx as int], (h - 1) as nat);
                let pre = crate::btree_model::child_pre(*node, h, idx as int);
                let q = choose|q: int|
                    0 <= q < c.len() && #[trigger] cview(*arena, c)[q] == (key@, arena.contents(res->0));
                assert(cs[q + pre.len()] == cview(*arena, c)[q]);
            }
        }
        res
    }
}

/// Replaces the value stored under `key` in the subtree of `node`, if any,
/// returning the previous value.
fn replace_value(arena: &mut Arena, node: &mut Node, key: &[u8], value: &[u8], Ghost(h): Ghost<nat>) -> (res: Option<Vec<u8>>)
    requires
        old(arena).wf(),
        wf_node(*old(node), h, 0),
        sorted_c(cview(*old(arena), inorder(*old(node), h))),
        refs_ok(*old(arena), inorder(*old(node), h)),
        refs_distinct(inorder(*old(node), h)),
        old(arena).spec_capacity() + value@.len() <= u32::MAX,
    ensures
        final(arena).wf(),
        wf_node(*final(node), h, 0),
        final(node).keys@.len() == old(node).keys@.len(),
        frame(*old(arena), *final(arena), inorder(*old(node), h), inorder(*final(node), h)),
        refs_ok(*final(arena), inorder(*final(node), h)),
        refs_distinct(inorder(*final(node), h)),
        final(arena).spec_capacity() <= old(arena).spec_capacity() + value@.len(),
        res is Some <==> has_key_c(cview(*old(arena), inorder(*old(node), h)), key@),
        res is None ==> inorder(*final(node), h) == inorder(*old(node), h) && *final(arena) == *old(arena),
        res matches Some(v) ==> exists|q: int|
            0 <= q < inorder(*old(node), h).len() && #[trigger] cview(*old(arena), inorder(*old(node), h))[q].0 == key@
                && v@ == cview(*old(arena), inorder(*old(node), h))[q].1 && cview(*final(arena), inorder(*final(node), h))
                == cview(*old(arena), inorder(*old(node), h)).update(q, (key@, value@)),
    decreases h,
{
    let ghost a0 = *arena;
    let ghost n0 = *node;
    let ghost s0 = inorder(n0, h);
    let ghost cv0 = cview(a0, s0);
    proof {
        lemma_node_keys(*arena, *node, h);
    }
    let (idx, found) = locate(arena, node, key);
    if found {
        let old_ref = node.vals[idx];
        let key_ref = node.keys[idx];
        let old_bytes = vstd::slice::slice_to_vec(arena.read(old_ref));
        arena.dealloc(old_ref);
        let ghost a_mid = *arena;
        let new_ref = arena.allocate(value);
        node.vals.set(idx, new_ref);
        proof {
            let p = key_pos(n0, h, idx as int);
            lemma_key_pos(n0, h, idx as int);
            assert(node.keys@ =~= n0.keys@.update(idx as int, key_ref));
            lemma_update_entry(n0, *node, h, idx as int, key_ref, new_ref);
            assert(entry_has(s0, p, key_ref) && entry_has(s0, p, old_ref));
            if key_ref.len > 0 {
                assert(key_ref != old_ref);
                assert(a_mid@.contains_key(key_ref));
            }
            assert forall|r: Ref| #[trigger] arena@.contains_key(r) <==> ((a0@.contains_key(r) && !entry_has(s0, p, r)) || (r.len > 0 && (r == key_ref || r == new_ref))) by {
                assert(a0.valid_ref(key_ref));
                if a0@.contains_key(r) {
                    crate::btree_model::lemma_live_nonempty(a0, r);
                }
                if arena@.contains_key(r) {
                    crate::btree_model::lemma_live_nonempty(*arena, r);
                }
            }
            assert forall|r: Ref| #[trigger] a0@.contains_key(r) && !entry_has(s0, p, r) implies arena@[r] == a0@[r] by {}
            lemma_frame_update(a0, *arena, s0, p, (key_ref, new_ref));
            assert(cv0[p].0 == key@);
            assert(cv0[p].1 == old_bytes@);
            assert(arena.contents(key_ref) == a0.contents(key_ref));
            assert(inorder(*node, h) == s0.update(p, (key_ref, new_ref)));
            assert(arena.contents(new_ref) == value@);
            assert(a0.contents(key_ref) == key@);
            let cv1 = cview(*arena, inorder(*node, h));
            assert forall|q: int| 0 <= q < cv0.len() implies #[trigger] cv1[q] == cv0.update(p, (key@, value@))[q] by {
                if q != p {
                    assert(cview(*arena, s0.update(p, (key_ref, new_ref)))[q] == cv0[q]);
                }
            }
            assert(cview(*arena, inorder(*node, h)) =~= cv0.update(p, (key@, value@)));
            assert(wf_node(*node, h, 0)) by {
                if h > 0 {
                    assert forall|j: int| 0 <= j < node.children@.len() implies wf_node(#[trigger] node.children@[j], (h - 1) as nat, (T - 1) as nat) by {
                        lemma_wf_child(n0, h, 0, j);
                    }
                }
            }
            assert(has_key_c(cv0, key@));
        }
        return Some(old_bytes);
    }
    if node.is_leaf {
        proof {
            if has_key_c(cv0, key@) {
                let q = choose|q: int| 0 <= q < cv0.len() && #[trigger] cv0[q].0 == key@;
                assert(s0 == zip(n0.keys@, n0.vals@));
                assert(cv0[q].0 == a0.contents(n0.keys@[q]));
                crate::bytes_order::lemma_lex_irreflexive(key@);
            }
        }
        return None;
    }
    proof {
        lemma_search_child(a0, n0, h, idx as int, key@);
        lemma_wf_child(n0, h, 0, idx as int);
        lemma_child_decomp(n0, h, idx as int);
        lemma_sub_refs(a0, child_pre(n0, h, idx as int), inorder(n0.children@[idx as int], (h - 1) as nat), child_post(n0, h, idx as int));
    }
    let res = replace_value(arena, &mut node.children[idx], key, value, Ghost((h - 1) as nat));
    proof {
        let pre = child_pre(n0, h, idx as int);
        let post = child_post(n0, h, idx as int);
        let c0 = inorder(n0.children@[idx as int], (h - 1) as nat);
        let c1 = inorder(node.children@[idx as int], (h - 1) as nat);
        lemma_update_child(n0, *node, h, idx as int);
        lemma_wf_min(node.children@[idx as int], (h - 1) as nat, 0, (T - 1) as nat);
        lemma_wf_replace_child(n0, *node, h, 0, idx as int);
        if res is Some {
            lemma_frame_compose(a0, *arena, pre, c0, c1, post);
            let qc = choose|qc: int|
                0 <= qc < c0.len() && #[trigger] cview(a0, c0)[qc].0 == key@ && res->0@ == cview(a0, c0)[qc].1
                    && cview(*arena, c1) == cview(a0, c0).update(qc, (key@, value@));
            let q = qc + pre.len();
            assert(cv0 =~= cview(a0, pre) + cview(a0, c0) + cview(a0, post));
            assert(cv0[q] == cview(a0, c0)[qc]);
            assert(cview(*arena, inorder(*node, h)) =~= cview(*arena, pre) + cview(*arena, c1) + cview(*arena, post));
            assert(cview(*arena, inorder(*node, h)) =~= cv0.update(q, (key@, value@)));
        } else {
            assert(inorder(*node, h) =~= s0);
        }
    }
    res
}

impl Node {
    fn empty_leaf() -> (n: Node)
        ensures
            n.is_leaf,
            n.keys@.len() == 0,
            n.vals@.len() == 0,
            n.children@.len() == 0,
            wf_node(n, 0, 0),
            inorder(n, 0) == Seq::<(Ref, Ref)>::empty(),
    {
        let n = Node { is_leaf: true, keys: Vec::new(), vals: Vec::new(), children: Vec::new() };
        assert(inorder(n, 0) =~= Seq::<(Ref, Ref)>::empty());
        n
    }
}

/// Splits the full child at `parent.children[i]` into two nodes, promoting
/// the middle key into `parent` at index `i`.
fn split_child(parent: &mut Node, i: usize, Ghost(h): Ghost<nat>)
    requires
        h > 0,
        wf_node(*old(parent), h, 0),
        old(parent).keys@.len() < MAX_KEYS,
        i <= old(parent).keys@.len(),
        old(parent).children@[i as int].keys@.len() == MAX_KEYS,
    ensures
        wf_node(*final(parent), h, 0),
        inorder(*final(parent), h) == inorder(*old(parent), h),
        final(parent).keys@ == old(parent).keys@.insert(i as int, old(parent).children@[i as int].keys@[T - 1]),
        final(parent).children@[i as int].keys@.len() == T - 1,
        final(parent).children@[i as int + 1].keys@.len() == T - 1,
{
    let ghost p0 = *parent;
    let ghost c0 = p0.children@[i as int];
    proof {
        lemma_wf_child(p0, h, 0, i as int);
    }
    let child = &mut parent.children[i];
    let is_leaf = child.is_leaf;
    let right_keys = child.keys.split_off(T);
    let mid_key = child.keys.pop().unwrap();
    let right_vals = child.vals.split_off(T);
    let mid_val = child.vals.pop().unwrap();
    let right_children = if !is_leaf {
        child.children.split_off(T)
    } else {
        Vec::new()
    };
    let right = Node { is_leaf, keys: right_keys, vals: right_vals, children: right_children };
    parent.children.insert(i + 1, right);
    parent.keys.insert(i, mid_key);
    parent.vals.insert(i, mid_val);
    proof {
        let l = parent.children@[i as int];
        let r = parent.children@[i as int + 1];
        assert(parent.children@ =~= p0.children@.update(i as int, l).insert(i as int + 1, r));
        assert(l.keys@ =~= c0.keys@.subrange(0, T - 1));
        assert(r.keys@ =~= c0.keys@.subrange(T as int, MAX_KEYS as int));
        assert(l.vals@ =~= c0.vals@.subrange(0, T - 1));
        assert(r.vals@ =~= c0.vals@.subrange(T as int, MAX_KEYS as int));
        if h > 1 {
            assert(l.children@ =~= c0.children@.subrange(0, T as int));
            assert(r.children@ =~= c0.children@.subrange(T as int, MAX_KEYS + 1));
        }
        lemma_wf_split(p0, *parent, c0, l, r, h, i as int);
        lemma_split(p0, *parent, c0, l, r, h, i as int);
    }
}

/// Insertion into a leaf at `pos`, seen on the entries.
proof fn lemma_insert_leaf(
    a0: Arena,
    a1: Arena,
    n0: Node,
    n1: Node,
    pos: int,
    key_ref: Ref,
    val_ref: Ref,
    key: Seq<u8>,
    value: Seq<u8>,
)
    requires
        a0.wf(),
        a1.wf(),
        wf_node(n0, 0, 0),
        n0.keys@.len() < MAX_KEYS,
        refs_ok(a0, inorder(n0, 0)),
        refs_distinct(inorder(n0, 0)),
        0 <= pos <= n0.keys@.len(),
        forall|j: int| 0 <= j < pos ==> lex_lt(a0.contents(#[trigger] n0.keys@[j]), key),
        forall|j: int| pos <= j < n0.keys@.len() ==> lex_lt(key, a0.contents(#[trigger] n0.keys@[j])),
        n1.is_leaf,
        n1.children@.len() == 0,
        n1.keys@ == n0.keys@.insert(pos, key_ref),
        n1.vals@ == n0.vals@.insert(pos, val_ref),
        key_ref.len > 0 ==> !a0@.contains_key(key_ref) && key_ref != val_ref,
        val_ref.len > 0 ==> !a0@.contains_key(val_ref),
        forall|r: Ref|
            #[trigger] a1@.contains_key(r) <==> (a0@.contains_key(r) || (r.len > 0 && (r == key_ref || r == val_ref))),
        forall|r: Ref| #[trigger] a0@.contains_key(r) ==> a1@[r] == a0@[r],
        a1.contents(key_ref) == key,
        a1.contents(val_ref) == value,
    ensures
        wf_node(n1, 0, 0),
        frame(a0, a1, inorder(n0, 0), inorder(n1, 0)),
        refs_ok(a1, inorder(n1, 0)),
        refs_distinct(inorder(n1, 0)),
        inserted_at(cview(a0, inorder(n0, 0)), cview(a1, inorder(n1, 0)), key, value),
{
    let s0 = inorder(n0, 0);
    let cv0 = cview(a0, s0);
    assert(inorder(n1, 0) =~= s0.insert(pos, (key_ref, val_ref)));
    lemma_frame_insert(a0, a1, s0, pos, (key_ref, val_ref));
    assert forall|q: int| 0 <= q < pos implies lex_lt(#[trigger] cv0[q].0, key) by {
        assert(cv0[q].0 == a0.contents(n0.keys@[q]));
    }
    assert forall|q: int| pos <= q < s0.len() implies lex_lt(key, #[trigger] cv0[q].0) by {
        assert(cv0[q].0 == a0.contents(n0.keys@[q]));
    }
    assert(cview(a1, inorder(n1, 0)) == cv0.insert(pos, (key, value)));
}

/// After an insertion into child `ci` of `n1` (giving `n2`), the node's
/// entries received the insertion.
proof fn lemma_insert_child_done(a0: Arena, a1: Arena, n1: Node, n2: Node, h: nat, ci: int, key: Seq<u8>, value: Seq<u8>)
    requires
        a0.wf(),
        a1.wf(),
        h > 0,
        wf_node(n1, h, 0),
        0 <= ci <= n1.keys@.len(),
        n2.keys@ == n1.keys@,
        n2.vals@ == n1.vals@,
        n2.is_leaf == n1.is_leaf,
        n2.children@ == n1.children@.update(ci, n2.children@[ci]),
        wf_node(n2.children@[ci], (h - 1) as nat, 0),
        n2.children@[ci].keys@.len() >= n1.children@[ci].keys@.len(),
        refs_ok(a0, inorder(n1, h)),
        refs_distinct(inorder(n1, h)),
        frame(a0, a1, inorder(n1.children@[ci], (h - 1) as nat), inorder(n2.children@[ci], (h - 1) as nat)),
        refs_ok(a1, inorder(n2.children@[ci], (h - 1) as nat)),
        refs_distinct(inorder(n2.children@[ci], (h - 1) as nat)),
        inserted_at(
            cview(a0, inorder(n1.children@[ci], (h - 1) as nat)),
            cview(a1, inorder(n2.children@[ci], (h - 1) as nat)),
            key,
            value,
        ),
        forall|q: int| 0 <= q < child_pre(n1, h, ci).len() ==> lex_lt(#[trigger] cview(a0, child_pre(n1, h, ci))[q].0, key),
        forall|q: int| 0 <= q < child_post(n1, h, ci).len() ==> lex_lt(key, #[trigger] cview(a0, child_post(n1, h, ci))[q].0),
    ensures
        wf_node(n2, h, 0),
        frame(a0, a1, inorder(n1, h), inorder(n2, h)),
        refs_ok(a1, inorder(n2, h)),
        refs_distinct(inorder(n2, h)),
        inserted_at(cview(a0, inorder(n1, h)), cview(a1, inorder(n2, h)), key, value),
{
    let pre = child_pre(n1, h, ci);
    let post = child_post(n1, h, ci);
    let c0 = inorder(n1.children@[ci], (h - 1) as nat);
    let c1 = inorder(n2.children@[ci], (h - 1) as nat);
    lemma_update_child(n1, n2, h, ci);
    lemma_wf_child(n1, h, 0, ci);
    lemma_wf_min(n2.children@[ci], (h - 1) as nat, 0, (T - 1) as nat);
    lemma_wf_replace_child(n1, n2, h, 0, ci);
    lemma_frame_compose(a0, a1, pre, c0, c1, post);
    assert(cview(a0, inorder(n1, h)) =~= cview(a0, pre) + cview(a0, c0) + cview(a0, post));
    assert(cview(a1, inorder(n2, h)) =~= cview(a1, pre) + cview(a1, c1) + cview(a1, post));
    lemma_inserted_compose(cview(a0, pre), cview(a0, c0), cview(a1, c1), cview(a0, post), key, value);
}

/// Inserts the new `key -> value` into the subtree of a non-full node.
fn insert_nonfull(arena: &mut Arena, node: &mut Node, key: &[u8], value: &[u8], Ghost(h): Ghost<nat>)
    requires
        old(arena).wf(),
        wf_node(*old(node), h, 0),
        old(node).keys@.len() < MAX_KEYS,
        sorted_c(cview(*old(arena), inorder(*old(node), h))),
        refs_ok(*old(arena), inorder(*old(node), h)),
        refs_distinct(inorder(*old(node), h)),
        !has_key_c(cview(*old(arena), inorder(*old(node), h)), key@),
        old(arena).spec_capacity() + key@.len() + value@.len() <= u32::MAX,
    ensures
        final(arena).wf(),
        wf_node(*final(node), h, 0),
        final(node).keys@.len() >= old(node).keys@.len(),
        frame(*old(arena), *final(arena), inorder(*old(node), h), inorder(*final(node), h)),
        refs_ok(*final(arena), inorder(*final(node), h)),
        refs_distinct(inorder(*final(node), h)),
        final(arena).spec_capacity() <= old(arena).spec_capacity() + key@.len() + value@.len(),
        inserted_at(
            cview(*old(arena), inorder(*old(node), h)),
            cview(*final(arena), inorder(*final(node), h)),
            key@,
            value@,
        ),
    decreases h,
{
    let ghost a0 = *arena;
    let ghost n0 = *node;
    let ghost s0 = inorder(n0, h);
    let ghost cv0 = cview(a0, s0);
    proof {
        lemma_node_keys(*arena, *node, h);
    }
    let (pos, found) = locate(arena, node, key);
    proof {
        if found {
            lemma_key_pos(n0, h, pos as int);
            assert(cv0[key_pos(n0, h, pos as int)].0 == key@);
        }
    }
    if node.is_leaf {
        let key_ref = arena.allocate(key);
        let val_ref = arena.allocate(value);
        node.keys.insert(pos, key_ref);
        node.vals.insert(pos, val_ref);
        proof {
            assert forall|r: Ref| #[trigger] arena@.contains_key(r) <==> (a0@.contains_key(r) || (r.len > 0 && (r == key_ref || r == val_ref))) by {}
            if value@.len() == 0 {
                assert(value@ =~= Seq::<u8>::empty());
            }
            if key@.len() == 0 {
                assert(key@ =~= Seq::<u8>::empty());
            }
            lemma_insert_leaf(a0, *arena, n0, *node, pos as int, key_ref, val_ref, key@, value@);
        }
        return;
    }
    let mut child_idx = pos;
    proof {
        lemma_wf_child(n0, h, 0, pos as int);
    }
    if node.children[child_idx].keys.len() == MAX_KEYS {
        split_child(node, child_idx, Ghost(h));
        let promoted = node.keys[child_idx];
        proof {
            lemma_node_keys(*arena, *node, h);
            lemma_key_pos(*node, h, child_idx as int);
            let q = key_pos(*node, h, child_idx as int);
            assert(cv0[q].0 == arena.contents(promoted));
            crate::bytes_order::lemma_lex_total(arena.contents(promoted), key@);
        }
        if compare_bytes(arena.read(promoted), key) == Cmp::Less {
            child_idx += 1;
        }
    }
    let ghost n1 = *node;
    proof {
        lemma_node_keys(*arena, n1, h);
        assert(child_idx > 0 ==> lex_lt(arena.contents(n1.keys@[child_idx - 1]), key@));
        assert(child_idx < n1.keys@.len() ==> lex_lt(key@, arena.contents(n1.keys@[child_idx as int])));
        lemma_search_child(a0, n1, h, child_idx as int, key@);
        lemma_wf_child(n1, h, 0, child_idx as int);
        lemma_child_decomp(n1, h, child_idx as int);
        lemma_sub_refs(a0, child_pre(n1, h, child_idx as int), inorder(n1.children@[child_idx as int], (h - 1) as nat), child_post(n1, h, child_idx as int));
    }
    insert_nonfull(arena, &mut node.children[child_idx], key, value, Ghost((h - 1) as nat));
    proof {
        lemma_insert_child_done(a0, *arena, n1, *node, h, child_idx as int, key@, value@);
    }
}

/// The last entry of a non-root subtree.
fn subtree_max(node: &Node, Ghost(h): Ghost<nat>) -> (res: (Ref, Ref))
    requires
        wf_node(*node, h, (T - 1) as nat),
    ensures
        inorder(*node, h).len() > 0,
        res == inorder(*node, h).last(),
{
    let mut cur = node;
    let ghost mut hc = h;
    loop
        invariant
            wf_node(*cur, hc, (T - 1) as nat),
            inorder(*cur, hc).len() > 0,
            inorder(*node, h).len() > 0,
            inorder(*cur, hc).last() == inorder(*node, h).last(),
        decreases hc,
    {
        proof {
            lemma_ends(*cur, hc, (T - 1) as nat);
        }
        if cur.is_leaf {
            let last = cur.keys.len() - 1;
            return (cur.keys[last], cur.vals[last]);
        }
        proof {
            let k = cur.keys@.len() as int;
            lemma_wf_child(*cur, hc, (T - 1) as nat, k);
            lemma_ends(cur.children@[k], (hc - 1) as nat, (T - 1) as nat);
        }
        let k = cur.children.len() - 1;
        cur = &cur.children[k];
        proof {
            hc = (hc - 1) as nat;
        }
    }
}

/// The first entry of a non-root subtree.
fn subtree_min(node: &Node, Ghost(h): Ghost<nat>) -> (res: (Ref, Ref))
    requires
        wf_node(*node, h, (T - 1) as nat),
    ensures
        inorder(*node, h).len() > 0,
        res == inorder(*node, h)[0],
{
    let mut cur = node;
    let ghost mut hc = h;
    loop
        invariant
            wf_node(*cur, hc, (T - 1) as nat),
            inorder(*cur, hc).len() > 0,
            inorder(*node, h).len() > 0,
            inorder(*cur, hc)[0] == inorder(*node, h)[0],
        decreases hc,
    {
        proof {
            lemma_ends(*cur, hc, (T - 1) as nat);
        }
        if cur.is_leaf {
            return (cur.keys[0], cur.vals[0]);
        }
        proof {
            lemma_wf_child(*cur, hc, (T - 1) as nat, 0);
            lemma_ends(cur.children@[0], (hc - 1) as nat, (T - 1) as nat);
        }
        cur = &cur.children[0];
        proof {
            hc = (hc - 1) as nat;
        }
    }
}

/// Moves the separator `keys[idx - 1]` down into child `idx` and the last
/// key of the left sibling up in its place.
fn borrow_from_left(node: &mut Node, idx: usize, Ghost(h): Ghost<nat>, Ghost(min): Ghost<nat>)
    requires
        h > 0,
        wf_node(*old(node), h, min),
        1 <= idx <= old(node).keys@.len(),
        old(node).children@[idx - 1].keys@.len() >= T,
        old(node).children@[idx as int].keys@.len() < MAX_KEYS,
    ensures
        wf_node(*final(node), h, min),
        inorder(*final(node), h) == inorder(*old(node), h),
        final(node).keys@ == old(node).keys@.update(idx - 1, old(node).children@[idx - 1].keys@.last()),
        final(node).children@[idx as int].keys@.len() == old(node).children@[idx as int].keys@.len() + 1,
{
    let ghost p0 = *node;
    proof {
        lemma_wf_child(p0, h, min, idx - 1);
        lemma_wf_child(p0, h, min, idx as int);
    }
    let sep_key = node.keys[idx - 1];
    let sep_val = node.vals[idx - 1];
    node.children[idx].keys.insert(0, sep_key);
    node.children[idx].vals.insert(0, sep_val);
    let left_last_key = node.children[idx - 1].keys.pop().unwrap();
    let left_last_val = node.children[idx - 1].vals.pop().unwrap();
    node.keys.set(idx - 1, left_last_key);
    node.vals.set(idx - 1, left_last_val);
    if !node.children[idx - 1].is_leaf {
        let moved_child = node.children[idx - 1].children.pop().unwrap();
        node.children[idx].children.insert(0, moved_child);
    }
    proof {
        let l2 = node.children@[idx - 1];
        let c2 = node.children@[idx as int];
        let l = p0.children@[idx - 1];
        let c = p0.children@[idx as int];
        assert(node.children@ =~= p0.children@.update(idx - 1, l2).update(idx as int, c2));
        assert(l2.keys@ =~= l.keys@.drop_last());
        assert(l2.vals@ =~= l.vals@.drop_last());
        assert(c2.keys@ =~= seq![p0.keys@[idx - 1]] + c.keys@);
        assert(c2.vals@ =~= seq![p0.vals@[idx - 1]] + c.vals@);
        if h > 1 {
            assert(l2.children@ =~= l.children@.drop_last());
            assert(c2.children@ =~= seq![l.children@.last()] + c.children@);
        }
        assert(node.keys@ =~= p0.keys@.update(idx - 1, l.keys@.last()));
        assert(node.vals@ =~= p0.vals@.update(idx - 1, l.vals@.last()));
        lemma_wf_borrow_left(p0, *node, h, min, idx as int, l2, c2);
        lemma_borrow_left(p0, *node, h, idx as int, l2, c2);
    }
}

/// Moves the separator `keys[idx]` down into child `idx` and the first
/// key of the right sibling up in its place.
fn borrow_from_right(node: &mut Node, idx: usize, Ghost(h): Ghost<nat>, Ghost(min): Ghost<nat>)
    requires
        h > 0,
        wf_node(*old(node), h, min),
        idx < old(node).keys@.len(),
        old(node).children@[idx + 1].keys@.len() >= T,
        old(node).children@[idx as int].keys@.len() < MAX_KEYS,
    ensures
        wf_node(*final(node), h, min),
        inorder(*final(node), h) == inorder(*old(node), h),
        final(node).keys@ == old(node).keys@.update(idx as int, old(node).children@[idx + 1].keys@[0]),
        final(node).children@[idx as int].keys@.len() == old(node).children@[idx as int].keys@.len() + 1,
{
    let ghost p0 = *node;
    proof {
        lemma_wf_child(p0, h, min, idx + 1);
        lemma_wf_child(p0, h, min, idx as int);
    }
    let sep_key = node.keys[idx];
    let sep_val = node.vals[idx];
    node.children[idx].keys.push(sep_key);
    node.children[idx].vals.push(sep_val);
    let right_first_key = node.children[idx + 1].keys.remove(0);
    let right_first_val = node.children[idx + 1].vals.remove(0);
    node.keys.set(idx, right_first_key);
    node.vals.set(idx, right_first_val);
    if !node.children[idx + 1].is_leaf {
        let moved_child = node.children[idx + 1].children.remove(0);
        node.children[idx].children.push(moved_child);
    }
    proof {
        let c2 = node.children@[idx as int];
        let r2 = node.children@[idx + 1];
        let c = p0.children@[idx as int];
        let r = p0.children@[idx + 1];
        let n = r.keys@.len() as int;
        assert(node.children@ =~= p0.children@.update(idx as int, c2).update(idx + 1, r2));
        assert(r2.keys@ =~= r.keys@.subrange(1, n));
        assert(r2.vals@ =~= r.vals@.subrange(1, n));
        assert(c2.keys@ =~= c.keys@.push(p0.keys@[idx as int]));
        assert(c2.vals@ =~= c.vals@.push(p0.vals@[idx as int]));
        if h > 1 {
            assert(r2.children@ =~= r.children@.subrange(1, n + 1));
            assert(c2.children@ =~= c.children@.push(r.children@[0]));
        }
        assert(node.keys@ =~= p0.keys@.update(idx as int, r.keys@[0]));
        assert(node.vals@ =~= p0.vals@.update(idx as int, r.vals@[0]));
        lemma_wf_borrow_right(p0, *node, h, min, idx as int, c2, r2);
        lemma_borrow_right(p0, *node, h, idx as int, c2, r2);
    }
}

/// Merges `children[idx]`, the separator `keys[idx]`, and
/// `children[idx + 1]` into a single node stored at `children[idx]`.
fn merge_children(node: &mut Node, idx: usize, Ghost(h): Ghost<nat>, Ghost(min): Ghost<nat>)
    requires
        h > 0,
        wf_node(*old(node), h, min),
        idx < old(node).keys@.len(),
        old(node).children@[idx as int].keys@.len() == T - 1,
        old(node).children@[idx + 1].keys@.len() == T - 1,
    ensures
        wf_node(*final(node), h, 0),
        inorder(*final(node), h) == inorder(*old(node), h),
        final(node).keys@ == old(node).keys@.remove(idx as int),
        final(node).children@[idx as int].keys@.len() == MAX_KEYS,
        inorder(final(node).children@[idx as int], (h - 1) as nat) == inorder(old(node).children@[idx as int], (h - 1) as nat)
            + seq![(old(node).keys@[idx as int], old(node).vals@[idx as int])] + inorder(
            old(node).children@[idx + 1],
            (h - 1) as nat,
        ),
{
    let ghost p0 = *node;
    proof {
        lemma_wf_child(p0, h, min, idx as int);
        lemma_wf_child(p0, h, min, idx + 1);
    }
    let sep_key = node.keys.remove(idx);
    let sep_val = node.vals.remove(idx);
    let mut right_node = node.children.remove(idx + 1);
    node.children[idx].keys.push(sep_key);
    node.children[idx].vals.push(sep_val);
    node.children[idx].keys.append(&mut right_node.keys);
    node.children[idx].vals.append(&mut right_node.vals);
    node.children[idx].children.append(&mut right_node.children);
    proof {
        let m = node.children@[idx as int];
        let c = p0.children@[idx as int];
        let r = p0.children@[idx + 1];
        assert(node.children@ =~= p0.children@.update(idx as int, m).remove(idx + 1));
        assert(m.keys@ =~= c.keys@ + seq![p0.keys@[idx as int]] + r.keys@);
        assert(m.vals@ =~= c.vals@ + seq![p0.vals@[idx as int]] + r.vals@);
        assert(m.children@ =~= c.children@ + r.children@);
        assert(node.keys@ =~= p0.keys@.remove(idx as int));
        assert(node.vals@ =~= p0.vals@.remove(idx as int));
        lemma_wf_merge(p0, *node, h, min, idx as int, m);
        lemma_merge(p0, *node, h, idx as int, m);
    }
}

/// Makes sure the child whose key range holds `key` has at least `T` keys
/// before the descent, by borrowing from a sibling or merging with one.
fn ensure_child_has_min_keys(
    node: &mut Node,
    idx: usize,
    Ghost(h): Ghost<nat>,
    Ghost(a): Ghost<Arena>,
    Ghost(key): Ghost<Seq<u8>>,
)
    requires
        h > 0,
        wf_node(*old(node), h, 0),
        old(node).keys@.len() >= 1,
        sorted_c(cview(a, inorder(*old(node), h))),
        refs_ok(a, inorder(*old(node), h)),
        child_range(a, *old(node), idx as int, key),
    ensures
        wf_node(*final(node), h, 0),
        final(node).keys@.len() + 1 >= old(node).keys@.len(),
        inorder(*final(node), h) == inorder(*old(node), h),
        forall|k: Seq<u8>|
            #[trigger] child_range(a, *old(node), idx as int, k) ==> exists|j: int|
                child_range(a, *final(node), j, k) && #[trigger] final(node).children@[j].keys@.len() >= T,
{
    let ghost p0 = *node;
    proof {
        lemma_node_keys(a, p0, h);
        lemma_wf_child(p0, h, 0, idx as int);
    }
    if node.children[idx].keys.len() >= T {
        proof {
            assert forall|k: Seq<u8>| #[trigger] child_range(a, p0, idx as int, k) implies exists|j: int|
                child_range(a, *node, j, k) && #[trigger] node.children@[j].keys@.len() >= T by {
                assert(child_range(a, *node, idx as int, k) && node.children@[idx as int].keys@.len() >= T);
            }
        }
        return;
    }
    let num_children = node.children.len();
    let has_left_sib = idx > 0;
    let has_right_sib = idx + 1 < num_children;
    let left_len = if has_left_sib {
        node.children[idx - 1].keys.len()
    } else {
        0
    };
    let right_len = if has_right_sib {
        node.children[idx + 1].keys.len()
    } else {
        0
    };
    if has_left_sib && left_len >= T {
        borrow_from_left(node, idx, Ghost(h), Ghost(0));
        proof {
            let l = p0.children@[idx - 1];
            lemma_wf_child(p0, h, 0, idx - 1);
            lemma_key_pos(l, (h - 1) as nat, l.keys@.len() - 1);
            lemma_child_bounds(a, p0, h, idx - 1);
            let q = crate::btree_model::key_pos(l, (h - 1) as nat, l.keys@.len() - 1);
            assert(cview(a, inorder(l, (h - 1) as nat))[q].0 == a.contents(l.keys@.last()));
            assert forall|k: Seq<u8>| #[trigger] child_range(a, p0, idx as int, k) implies exists|j: int|
                child_range(a, *node, j, k) && #[trigger] node.children@[j].keys@.len() >= T by {
                crate::bytes_order::lemma_lex_transitive(a.contents(l.keys@.last()), a.contents(p0.keys@[idx - 1]), k);
                assert(child_range(a, *node, idx as int, k));
                assert(node.children@[idx as int].keys@.len() >= T);
            }
        }
    } else if has_right_sib && right_len >= T {
        borrow_from_right(node, idx, Ghost(h), Ghost(0));
        proof {
            let r = p0.children@[idx + 1];
            lemma_wf_child(p0, h, 0, idx + 1);
            lemma_key_pos(r, (h - 1) as nat, 0);
            lemma_child_bounds(a, p0, h, idx + 1);
            let q = crate::btree_model::key_pos(r, (h - 1) as nat, 0);
            assert(cview(a, inorder(r, (h - 1) as nat))[q].0 == a.contents(r.keys@[0]));
            assert forall|k: Seq<u8>| #[trigger] child_range(a, p0, idx as int, k) implies exists|j: int|
                child_range(a, *node, j, k) && #[trigger] node.children@[j].keys@.len() >= T by {
                crate::bytes_order::lemma_lex_transitive(k, a.contents(p0.keys@[idx as int]), a.contents(r.keys@[0]));
                assert(child_range(a, *node, idx as int, k));
                assert(node.children@[idx as int].keys@.len() >= T);
            }
        }
    } else if has_left_sib {
        proof {
            lemma_wf_child(p0, h, 0, idx - 1);
        }
        merge_children(node, idx - 1, Ghost(h), Ghost(0));
        proof {
            let j = idx - 1;
            assert forall|k: Seq<u8>| #[trigger] child_range(a, p0, idx as int, k) implies exists|j2: int|
                child_range(a, *node, j2, k) && #[trigger] node.children@[j2].keys@.len() >= T by {
                if j > 0 {
                    crate::bytes_order::lemma_lex_transitive(a.contents(p0.keys@[j - 1]), a.contents(p0.keys@[j as int]), k);
                }
                assert(child_range(a, *node, j as int, k));
                assert(node.children@[j as int].keys@.len() >= T);
            }
        }
    } else {
        proof {
            lemma_wf_child(p0, h, 0, 1);
        }
        merge_children(node, idx, Ghost(h), Ghost(0));
        proof {
            assert forall|k: Seq<u8>| #[trigger] child_range(a, p0, idx as int, k) implies exists|j: int|
                child_range(a, *node, j, k) && #[trigger] node.children@[j].keys@.len() >= T by {
                if node.keys@.len() > 0 {
                    crate::bytes_order::lemma_lex_transitive(k, a.contents(p0.keys@[0]), a.contents(p0.keys@[1]));
                }
                assert(child_range(a, *node, 0, k));
                assert(node.children@[0].keys@.len() >= T);
            }
        }
    }
}

/// After a deletion inside child `ci` of `n1` (giving `n2`), the node lost
/// that entry.
proof fn lemma_delete_child_done(
    a0: Arena,
    a1: Arena,
    n1: Node,
    n2: Node,
    h: nat,
    ci: int,
    key: Seq<u8>,
    val: Seq<u8>,
)
    requires
        a0.wf(),
        a1.wf(),
        h > 0,
        wf_node(n1, h, 0),
        0 <= ci <= n1.keys@.len(),
        n2.keys@ == n1.keys@,
        n2.vals@ == n1.vals@,
        n2.is_leaf == n1.is_leaf,
        n2.children@ == n1.children@.update(ci, n2.children@[ci]),
        wf_node(n2.children@[ci], (h - 1) as nat, 0),
        n2.children@[ci].keys@.len() + 1 >= n1.children@[ci].keys@.len(),
        n1.children@[ci].keys@.len() >= T,
        sorted_c(cview(a0, inorder(n1, h))),
        refs_ok(a0, inorder(n1, h)),
        refs_distinct(inorder(n1, h)),
        frame(a0, a1, inorder(n1.children@[ci], (h - 1) as nat), inorder(n2.children@[ci], (h - 1) as nat)),
        refs_ok(a1, inorder(n2.children@[ci], (h - 1) as nat)),
        refs_distinct(inorder(n2.children@[ci], (h - 1) as nat)),
        has_key_c(cview(a0, inorder(n1.children@[ci], (h - 1) as nat)), key),
        deleted(
            cview(a0, inorder(n1.children@[ci], (h - 1) as nat)),
            cview(a1, inorder(n2.children@[ci], (h - 1) as nat)),
            key,
            val,
            a0.spec_capacity(),
            a1.spec_capacity(),
        ),
    ensures
        wf_node(n2, h, 0),
        frame(a0, a1, inorder(n1, h), inorder(n2, h)),
        refs_ok(a1, inorder(n2, h)),
        refs_distinct(inorder(n2, h)),
        deleted(cview(a0, inorder(n1, h)), cview(a1, inorder(n2, h)), key, val, a0.spec_capacity(), a1.spec_capacity()),
{
    let pre = child_pre(n1, h, ci);
    let post = child_post(n1, h, ci);
    let c0 = inorder(n1.children@[ci], (h - 1) as nat);
    let c1 = inorder(n2.children@[ci], (h - 1) as nat);
    lemma_update_child(n1, n2, h, ci);
    lemma_wf_child(n1, h, 0, ci);
    lemma_wf_min(n2.children@[ci], (h - 1) as nat, 0, (T - 1) as nat);
    lemma_wf_replace_child(n1, n2, h, 0, ci);
    lemma_frame_compose(a0, a1, pre, c0, c1, post);
    assert(cview(a0, inorder(n1, h)) =~= cview(a0, pre) + cview(a0, c0) + cview(a0, post));
    assert(cview(a1, inorder(n2, h)) =~= cview(a1, pre) + cview(a1, c1) + cview(a1, post));
    lemma_deleted_compose(cview(a0, pre), cview(a0, c0), cview(a1, c1), cview(a0, post), key, val, a0.spec_capacity(), a1.spec_capacity());
}

/// Deletes `key`, present in the subtree of `node`; the node has a key to
/// spare unless it is the root.
fn delete(arena: &mut Arena, node: &mut Node, key: &[u8], Ghost(h): Ghost<nat>, Ghost(is_root): Ghost<bool>) -> (res: Option<Vec<u8>>)
    requires
        old(arena).wf(),
        wf_node(*old(node), h, 0),
        old(node).keys@.len() >= T || (is_root && (h > 0 ==> old(node).keys@.len() >= 1)),
        sorted_c(cview(*old(arena), inorder(*old(node), h))),
        refs_ok(*old(arena), inorder(*old(node), h)),
        refs_distinct(inorder(*old(node), h)),
        has_key_c(cview(*old(arena), inorder(*old(node), h)), key@),
        room_to_delete(old(arena).spec_capacity(), cview(*old(arena), inorder(*old(node), h)), key@),
    ensures
        final(arena).wf(),
        wf_node(*final(node), h, 0),
        final(node).keys@.len() + 1 >= old(node).keys@.len(),
        frame(*old(arena), *final(arena), inorder(*old(node), h), inorder(*final(node), h)),
        refs_ok(*final(arena), inorder(*final(node), h)),
        refs_distinct(inorder(*final(node), h)),
        res is Some,
        deleted(
            cview(*old(arena), inorder(*old(node), h)),
            cview(*final(arena), inorder(*final(node), h)),
            key@,
            res->0@,
            old(arena).spec_capacity(),
            final(arena).spec_capacity(),
        ),
    decreases h, 1nat,
{
    let ghost a0 = *arena;
    let ghost n0 = *node;
    let ghost s0 = inorder(n0, h);
    let ghost cv0 = cview(a0, s0);
    proof {
        lemma_node_keys(*arena, *node, h);
    }
    let (idx, found) = locate(arena, node, key);
    let is_leaf = node.is_leaf;
    if found {
        if is_leaf {
            let k = node.keys.remove(idx);
            let v = node.vals.remove(idx);
            let bytes = vstd::slice::slice_to_vec(arena.read(v));
            proof {
                assert(s0 == zip(n0.keys@, n0.vals@));
                assert(s0[idx as int] == (k, v));
                if v.len > 0 {
                    assert(k != v);
                }
            }
            arena.dealloc(k);
            arena.dealloc(v);
            proof {
                assert(s0 == zip(n0.keys@, n0.vals@));
                assert(inorder(*node, h) =~= s0.remove(idx as int));
                assert(entry_has(s0, idx as int, k) && entry_has(s0, idx as int, v));
                if k.len > 0 {
                    assert(k != v);
                }
                lemma_frame_remove(a0, *arena, s0, idx as int);
                assert forall|x: int| 0 <= x < cv0.len() && #[trigger] cv0[x].0 == key@ implies x == idx by {
                    assert(cv0[idx as int].0 == key@);
                    lemma_sorted_unique(cv0, x, idx as int);
                }
            }
            Some(bytes)
        } else {
            delete_internal(arena, node, idx, key, Ghost(h))
        }
    } else {
        if is_leaf {
            proof {
                let q = choose|q: int| 0 <= q < cv0.len() && #[trigger] cv0[q].0 == key@;
                assert(s0 == zip(n0.keys@, n0.vals@));
                assert(cv0[q].0 == a0.contents(n0.keys@[q]));
                crate::bytes_order::lemma_lex_irreflexive(key@);
            }
            return None;
        }
        proof {
            lemma_search_child(a0, n0, h, idx as int, key@);
            assert(child_range(a0, n0, idx as int, key@));
        }
        ensure_child_has_min_keys(node, idx, Ghost(h), Ghost(a0), Ghost(key@));
        let ghost n1 = *node;
        proof {
            lemma_node_keys(a0, n1, h);
        }
        let (idx2, found2) = locate(arena, node, key);
        proof {
            let j = choose|j: int| child_range(a0, n1, j, key@) && #[trigger] n1.children@[j].keys@.len() >= T;
            if found2 {
                if j > idx2 {
                    assert(lex_lt(a0.contents(n1.keys@[j - 1]), key@));
                    if j - 1 > idx2 {
                        crate::bytes_order::lemma_lex_transitive(a0.contents(n1.keys@[idx2 as int]), a0.contents(n1.keys@[j - 1]), key@);
                    }
                    crate::bytes_order::lemma_lex_irreflexive(key@);
                } else {
                    assert(lex_lt(key@, a0.contents(n1.keys@[j])));
                    if j < idx2 {
                        crate::bytes_order::lemma_lex_transitive(key@, a0.contents(n1.keys@[j]), a0.contents(n1.keys@[idx2 as int]));
                    }
                    crate::bytes_order::lemma_lex_irreflexive(key@);
                }
            }
            assert(child_range(a0, n1, idx2 as int, key@));
            lemma_child_range_unique(a0, n1, idx2 as int, j, key@);
            lemma_search_child(a0, n1, h, idx2 as int, key@);
            lemma_wf_child(n1, h, 0, idx2 as int);
            lemma_child_decomp(n1, h, idx2 as int);
            lemma_sub_refs(a0, child_pre(n1, h, idx2 as int), inorder(n1.children@[idx2 as int], (h - 1) as nat), child_post(n1, h, idx2 as int));
            let pre = cview(a0, child_pre(n1, h, idx2 as int));
            let c0 = cview(a0, inorder(n1.children@[idx2 as int], (h - 1) as nat));
            let post = cview(a0, child_post(n1, h, idx2 as int));
            lemma_room_sub(pre, c0, post, key@, a0.spec_capacity());
        }
        let res = delete(arena, &mut node.children[idx2], key, Ghost((h - 1) as nat), Ghost(false));
        proof {
            lemma_delete_child_done(a0, *arena, n1, *node, h, idx2 as int, key@, res->0@);
        }
        res
    }
}

/// Appends the entries of the subtree rooted at `node` to `out`, in key
/// order.
fn collect_refs(node: &Node, Ghost(h): Ghost<nat>, out: &mut Vec<(Ref, Ref)>)
    requires
        wf_node(*node, h, 0),
    ensures
        final(out)@ == old(out)@ + inorder(*node, h),
    decreases h,
{
    let ghost ks = node.keys@;
    let ghost vs = node.vals@;
    let ghost cs = node.children@;
    if node.is_leaf {
        let mut i: usize = 0;
        while i < node.keys.len()
            invariant
                h == 0,
                ks == node.keys@,
                vs == node.vals@,
                ks.len() == vs.len(),
                i <= ks.len(),
                out@ == old(out)@ + zip(ks, vs).subrange(0, i as int),
            decreases ks.len() - i,
        {
            out.push((node.keys[i], node.vals[i]));
            proof {
                assert(zip(ks, vs).subrange(0, i + 1) =~= zip(ks, vs).subrange(0, i as int).push((ks[i as int], vs[i as int])));
            }
            i = i + 1;
        }
        proof {
            assert(zip(ks, vs).subrange(0, ks.len() as int) =~= zip(ks, vs));
        }
    } else {
        proof {
            lemma_wf_child(*node, h, 0, 0);
            lemma_wf_min(cs[0], (h - 1) as nat, 0, (T - 1) as nat);
            assert(ks.subrange(0, 0) =~= Seq::<Ref>::empty());
        }
        collect_refs(&node.children[0], Ghost((h - 1) as nat), out);
        let mut i: usize = 0;
        while i < node.keys.len()
            invariant
                h > 0,
                wf_node(*node, h, 0),
                ks == node.keys@,
                vs == node.vals@,
                cs == node.children@,
                i <= ks.len(),
                out@ == old(out)@ + items(ks.subrange(0, i as int), vs.subrange(0, i as int), cs, h),
            decreases ks.len() - i,
        {
            out.push((node.keys[i], node.vals[i]));
            proof {
                lemma_wf_child(*node, h, 0, i + 1);
                lemma_wf_min(cs[i + 1], (h - 1) as nat, 0, (T - 1) as nat);
            }
            collect_refs(&node.children[i + 1], Ghost((h - 1) as nat), out);
            proof {
                let ks1 = ks.subrange(0, i + 1);
                let vs1 = vs.subrange(0, i + 1);
                assert(ks1.drop_last() =~= ks.subrange(0, i as int));
                assert(vs1.subrange(0, i as int) =~= vs.subrange(0, i as int));
                assert(items(ks1, vs1, cs, h) == items(ks.subrange(0, i as int), vs.subrange(0, i as int), cs, h) + seq![
                    (ks[i as int], vs[i as int]),
                ] + inorder(cs[i + 1], (h - 1) as nat));
                assert(out@ =~= old(out)@ + items(ks1, vs1, cs, h));
            }
            i = i + 1;
        }
        proof {
            assert(ks.subrange(0, ks.len() as int) =~= ks);
            assert(vs.subrange(0, vs.len() as int) =~= vs);
        }
    }
}

/// Counts the nodes of the subtree rooted at `node`.
fn count_nodes(node: &Node, Ghost(h): Ghost<nat>) -> (c: usize)
    requires
        wf_node(*node, h, 0),
        node_total(*node, h) <= usize::MAX,
    ensures
        c == node_total(*node, h),
    decreases h,
{
    if node.is_leaf {
        return 1;
    }
    let ghost cs = node.children@;
    let ghost k = node.keys@.len();
    let mut total: usize = 1;
    let mut i: usize = 0;
    while i < node.children.len()
        invariant
            h > 0,
            wf_node(*node, h, 0),
            cs == node.children@,
            k == node.keys@.len(),
            cs.len() == k + 1,
            node_total(*node, h) <= usize::MAX,
            i <= cs.len(),
            total == 1 + (if i == 0 { 0 } else { nodes_sum(cs, (i - 1) as nat, h) }),
        decreases cs.len() - i,
    {
        proof {
            lemma_sum_mono(cs, i as nat, k, h);
            lemma_wf_child(*node, h, 0, i as int);
            lemma_wf_min(cs[i as int], (h - 1) as nat, 0, (T - 1) as nat);
        }
        let c = count_nodes(&node.children[i], Ghost((h - 1) as nat));
        total = total + c;
        i = i + 1;
    }
    total
}

/// Puts fresh copies of `kb` / `vb` in place of entry `idx` of `node` and
/// returns the bytes of the value it held.
fn replace_entry(arena: &mut Arena, node: &mut Node, idx: usize, kb: &[u8], vb: &[u8], Ghost(h): Ghost<nat>) -> (removed: Vec<u8>)
    requires
        old(arena).wf(),
        wf_node(*old(node), h, 0),
        idx < old(node).keys@.len(),
        refs_ok(*old(arena), inorder(*old(node), h)),
        refs_distinct(inorder(*old(node), h)),
        old(arena).spec_capacity() + kb@.len() + vb@.len() <= u32::MAX,
    ensures
        final(arena).wf(),
        wf_node(*final(node), h, 0),
        final(node).is_leaf == old(node).is_leaf,
        final(node).keys@.len() == old(node).keys@.len(),
        final(node).children@ == old(node).children@,
        key_pos(*final(node), h, idx as int) == key_pos(*old(node), h, idx as int),
        frame(*old(arena), *final(arena), inorder(*old(node), h), inorder(*final(node), h)),
        refs_ok(*final(arena), inorder(*final(node), h)),
        refs_distinct(inorder(*final(node), h)),
        cview(*final(arena), inorder(*final(node), h)) == cview(*old(arena), inorder(*old(node), h)).update(
            key_pos(*old(node), h, idx as int),
            (kb@, vb@),
        ),
        removed@ == cview(*old(arena), inorder(*old(node), h))[key_pos(*old(node), h, idx as int)].1,
        final(arena).spec_capacity() <= old(arena).spec_capacity() + kb@.len() + vb@.len(),
{
    let ghost a0 = *arena;
    let ghost n0 = *node;
    let ghost s0 = inorder(n0, h);
    let ghost p = key_pos(n0, h, idx as int);
    proof {
        lemma_key_pos(n0, h, idx as int);
        lemma_node_keys(a0, n0, h);
    }
    let old_key = node.keys[idx];
    let old_val = node.vals[idx];
    let removed = vstd::slice::slice_to_vec(arena.read(old_val));
    proof {
        assert(entry_has(s0, p, old_key) && entry_has(s0, p, old_val));
        if old_val.len > 0 {
            assert(old_key != old_val);
        }
    }
    arena.dealloc(old_key);
    arena.dealloc(old_val);
    let ghost a_mid = *arena;
    let nk = arena.allocate(kb);
    let ghost a_k = *arena;
    let nv = arena.allocate(vb);
    node.keys.set(idx, nk);
    node.vals.set(idx, nv);
    proof {
        let a1 = *arena;
        lemma_update_entry(n0, *node, h, idx as int, nk, nv);
        assert forall|r: Ref| #[trigger] a1@.contains_key(r) <==> ((a0@.contains_key(r) && !entry_has(s0, p, r)) || (
        r.len > 0 && (r == nk || r == nv))) by {
            if a0@.contains_key(r) {
                crate::btree_model::lemma_live_nonempty(a0, r);
            }
            if a1@.contains_key(r) {
                crate::btree_model::lemma_live_nonempty(a1, r);
            }
        }
        assert forall|r: Ref| #[trigger] a0@.contains_key(r) && !entry_has(s0, p, r) implies a1@[r] == a0@[r] by {}
        if nk.len > 0 {
            assert(a_k@.contains_key(nk));
        }
        lemma_frame_update(a0, a1, s0, p, (nk, nv));
        assert(a1.contents(nk) == kb@);
        assert(a1.contents(nv) == vb@);
        let cv0 = cview(a0, s0);
        let cv1 = cview(a1, inorder(*node, h));
        assert(cv1 =~= cv0.update(p, (kb@, vb@)));
        assert(wf_node(*node, h, 0)) by {
            if h > 0 {
                assert forall|j: int| 0 <= j < node.children@.len() implies wf_node(#[trigger] node.children@[j], (h - 1) as nat, (T - 1) as nat) by {
                    lemma_wf_child(n0, h, 0, j);
                }
            }
        }
    }
    removed
}

/// Position of the neighbour of key `idx` that replaces it: its predecessor
/// when `left`, else its successor.
pub open spec fn moved_pos(n: Node, h: nat, idx: int, left: bool) -> int {
    if left {
        key_pos(n, h, idx) - 1
    } else {
        key_pos(n, h, idx) + 1
    }
}

/// The child holding that neighbour.
pub open spec fn moved_child(idx: int, left: bool) -> int {
    if left {
        idx
    } else {
        idx + 1
    }
}

/// Where entry `idx` of `n1` holds a copy of its neighbour, the child that
/// holds the neighbour is an untouched, sorted stretch of `cv0` with the
/// neighbour at one end.
proof fn lemma_moved_in_child(a1: Arena, n1: Node, h: nat, idx: int, left: bool, cv0: Seq<(Seq<u8>, Seq<u8>)>)
    requires
        a1.wf(),
        h > 0,
        wf_node(n1, h, 0),
        0 <= idx < n1.keys@.len(),
        sorted_c(cv0),
        cv0.len() == inorder(n1, h).len(),
        refs_ok(a1, inorder(n1, h)),
        refs_distinct(inorder(n1, h)),
        cview(a1, inorder(n1, h)) == cv0.update(key_pos(n1, h, idx), cv0[moved_pos(n1, h, idx, left)]),
    ensures
        0 < key_pos(n1, h, idx) < cv0.len() - 1,
        ({
            let c = inorder(n1.children@[moved_child(idx, left)], (h - 1) as nat);
            let cc = cview(a1, c);
            let o = child_pre(n1, h, moved_child(idx, left)).len() as int;
            let e = if left { cc.len() - 1 } else { 0 };
            &&& cc.len() > 0
            &&& o + e == moved_pos(n1, h, idx, left)
            &&& forall|j: int| 0 <= j < cc.len() ==> #[trigger] cc[j] == cv0[o + j]
            &&& sorted_c(cc)
            &&& refs_ok(a1, c)
            &&& refs_distinct(c)
            &&& cc[e] == cv0[moved_pos(n1, h, idx, left)]
            &&& has_key_c(cc, cv0[moved_pos(n1, h, idx, left)].0)
            &&& room_to_delete(a1.spec_capacity(), cc, cv0[moved_pos(n1, h, idx, left)].0)
        }),
{
    let hc = (h - 1) as nat;
    let ci = moved_child(idx, left);
    let p = key_pos(n1, h, idx);
    let nb = moved_pos(n1, h, idx, left);
    lemma_key_neighbors(n1, h, idx);
    lemma_child_decomp(n1, h, ci);
    let s1 = inorder(n1, h);
    let pre = child_pre(n1, h, ci);
    let c = inorder(n1.children@[ci], hc);
    let post = child_post(n1, h, ci);
    lemma_sub_refs(a1, pre, c, post);
    let cv1 = cview(a1, s1);
    let cc = cview(a1, c);
    let o = pre.len() as int;
    assert forall|j: int| 0 <= j < cc.len() implies #[trigger] cc[j] == cv0[o + j] by {
        assert(s1[o + j] == c[j]);
        assert(cv1[o + j] == cc[j]);
    }
    assert forall|i: int, j: int| 0 <= i < j < cc.len() implies lex_lt(#[trigger] cc[i].0, #[trigger] cc[j].0) by {
        assert(cc[i] == cv0[o + i] && cc[j] == cv0[o + j]);
    }
    let e = if left { cc.len() - 1 } else { 0 };
    assert(cc[e] == cv0[nb]);
    assert(has_key_c(cc, cv0[nb].0));
    a1.lemma_wf();
    assert forall|x: int| 0 <= x < cc.len() && #[trigger] cc[x].0 == cv0[nb].0 implies a1.spec_capacity() + delete_growth(cc, x) <= u32::MAX by {
        lemma_sorted_unique(cc, x, e);
    }
}

/// Where position `p` of `s` holds a copy of its neighbour and the
/// neighbour's own place, at one end of the middle part `c`, is removed, the
/// result is `s` without position `p`.
proof fn lemma_remove_shifted<A>(s: Seq<A>, pre: Seq<A>, c: Seq<A>, post: Seq<A>, p: int, left: bool)
    requires
        0 < p < s.len() - 1,
        c.len() > 0,
        pre + c + post == s.update(p, s[if left { p - 1 } else { p + 1 }]),
        left ==> pre.len() + c.len() == p,
        !left ==> pre.len() == p + 1,
    ensures
        pre + c.remove(if left { c.len() - 1 } else { 0 }) + post == s.remove(p),
{
    let s1 = pre + c + post;
    let e = if left { c.len() - 1 } else { 0 };
    let s2 = pre + c.remove(e) + post;
    let r = s.remove(p);
    let o = pre.len() as int;
    let l = c.len() as int;
    assert(s1.len() == s.len());
    assert forall|x: int| 0 <= x < s2.len() implies #[trigger] s2[x] == r[x] by {
        if x < o {
            assert(s2[x] == pre[x] && s1[x] == pre[x]);
        } else if x < o + l - 1 {
            assert(s2[x] == c.remove(e)[x - o]);
            if left {
                assert(s1[x] == c[x - o]);
            } else {
                assert(s1[x + 1] == c[x - o + 1]);
            }
        } else {
            assert(s2[x] == post[x - o - l + 1]);
            assert(s1[x + 1] == post[x - o - l + 1]);
        }
    }
    assert(s2 =~= r);
}

/// After the neighbour copied into entry `idx` of `n1` was deleted from its
/// child (giving `n2`), the node has lost the entry at the key's position.
#[verifier::rlimit(30)]
proof fn lemma_delete_moved_done(
    a1: Arena,
    a2: Arena,
    n1: Node,
    n2: Node,
    h: nat,
    idx: int,
    left: bool,
    cv0: Seq<(Seq<u8>, Seq<u8>)>,
    nval: Seq<u8>,
)
    requires
        a1.wf(),
        a2.wf(),
        h > 0,
        wf_node(n1, h, 0),
        0 <= idx < n1.keys@.len(),
        sorted_c(cv0),
        cv0.len() == inorder(n1, h).len(),
        refs_ok(a1, inorder(n1, h)),
        refs_distinct(inorder(n1, h)),
        cview(a1, inorder(n1, h)) == cv0.update(key_pos(n1, h, idx), cv0[moved_pos(n1, h, idx, left)]),
        n2.keys@ == n1.keys@,
        n2.vals@ == n1.vals@,
        n2.is_leaf == n1.is_leaf,
        n2.children@ == n1.children@.update(moved_child(idx, left), n2.children@[moved_child(idx, left)]),
        wf_node(n2.children@[moved_child(idx, left)], (h - 1) as nat, 0),
        n2.children@[moved_child(idx, left)].keys@.len() + 1 >= n1.children@[moved_child(idx, left)].keys@.len(),
        n1.children@[moved_child(idx, left)].keys@.len() >= T,
        frame(
            a1,
            a2,
            inorder(n1.children@[moved_child(idx, left)], (h - 1) as nat),
            inorder(n2.children@[moved_child(idx, left)], (h - 1) as nat),
        ),
        refs_ok(a2, inorder(n2.children@[moved_child(idx, left)], (h - 1) as nat)),
        refs_distinct(inorder(n2.children@[moved_child(idx, left)], (h - 1) as nat)),
        deleted(
            cview(a1, inorder(n1.children@[moved_child(idx, left)], (h - 1) as nat)),
            cview(a2, inorder(n2.children@[moved_child(idx, left)], (h - 1) as nat)),
            cv0[moved_pos(n1, h, idx, left)].0,
            nval,
            a1.spec_capacity(),
            a2.spec_capacity(),
        ),
    ensures
        wf_node(n2, h, 0),
        frame(a1, a2, inorder(n1, h), inorder(n2, h)),
        refs_ok(a2, inorder(n2, h)),
        refs_distinct(inorder(n2, h)),
        cview(a2, inorder(n2, h)) == cv0.remove(key_pos(n1, h, idx)),
        a2.spec_capacity() <= a1.spec_capacity(),
{
    let hc = (h - 1) as nat;
    let ci = moved_child(idx, left);
    let p = key_pos(n1, h, idx);
    let nb = moved_pos(n1, h, idx, left);
    lemma_moved_in_child(a1, n1, h, idx, left, cv0);
    let pre = child_pre(n1, h, ci);
    let post = child_post(n1, h, ci);
    let c1 = inorder(n1.children@[ci], hc);
    let c2 = inorder(n2.children@[ci], hc);
    let cc1 = cview(a1, c1);
    let cc2 = cview(a2, c2);
    let o = pre.len() as int;
    let l1 = cc1.len() as int;
    let e = if left { l1 - 1 } else { 0 };
    lemma_update_child(n1, n2, h, ci);
    lemma_wf_child(n1, h, 0, ci);
    lemma_wf_min(n2.children@[ci], hc, 0, (T - 1) as nat);
    lemma_wf_replace_child(n1, n2, h, 0, ci);
    lemma_frame_compose(a1, a2, pre, c1, c2, post);
    assert(cc1[e].0 == cv0[nb].0);
    assert(cc2 == cc1.remove(e));
    assert(delete_growth(cc1, e) == 0);
    let cv1 = cview(a1, inorder(n1, h));
    let cv2 = cview(a2, inorder(n2, h));
    let pv = cview(a1, pre);
    let qv = cview(a1, post);
    assert(cv1 =~= pv + cc1 + qv);
    assert(cv2 =~= pv + cc2 + qv);
    lemma_remove_shifted(cv0, pv, cc1, qv, p, left);
}

/// Deletes the key of entry `idx` of an internal `node`: it takes a copy of
/// its predecessor or successor from a child that can spare one, or the two
/// children around it merge and the deletion continues in the merged child.
fn delete_internal(arena: &mut Arena, node: &mut Node, idx: usize, key: &[u8], Ghost(h): Ghost<nat>) -> (res: Option<Vec<u8>>)
    requires
        old(arena).wf(),
        h > 0,
        wf_node(*old(node), h, 0),
        idx < old(node).keys@.len(),
        old(arena).contents(old(node).keys@[idx as int]) == key@,
        sorted_c(cview(*old(arena), inorder(*old(node), h))),
        refs_ok(*old(arena), inorder(*old(node), h)),
        refs_distinct(inorder(*old(node), h)),
        room_to_delete(old(arena).spec_capacity(), cview(*old(arena), inorder(*old(node), h)), key@),
    ensures
        final(arena).wf(),
        wf_node(*final(node), h, 0),
        final(node).keys@.len() + 1 >= old(node).keys@.len(),
        frame(*old(arena), *final(arena), inorder(*old(node), h), inorder(*final(node), h)),
        refs_ok(*final(arena), inorder(*final(node), h)),
        refs_distinct(inorder(*final(node), h)),
        res is Some,
        deleted(
            cview(*old(arena), inorder(*old(node), h)),
            cview(*final(arena), inorder(*final(node), h)),
            key@,
            res->0@,
            old(arena).spec_capacity(),
            final(arena).spec_capacity(),
        ),
    decreases h, 0nat,
{
    let ghost a0 = *arena;
    let ghost n0 = *node;
    let ghost s0 = inorder(n0, h);
    let ghost cv0 = cview(a0, s0);
    let ghost p = key_pos(n0, h, idx as int);
    let ghost hc = (h - 1) as nat;
    proof {
        lemma_key_neighbors(n0, h, idx as int);
        lemma_key_pos(n0, h, idx as int);
        lemma_wf_child(n0, h, 0, idx as int);
        lemma_wf_child(n0, h, 0, idx + 1);
        assert(cv0[p].0 == key@);
        assert(a0.spec_capacity() + delete_growth(cv0, p) <= u32::MAX);
        assert forall|x: int| 0 <= x < cv0.len() && #[trigger] cv0[x].0 == key@ implies x == p by {
            lemma_sorted_unique(cv0, x, p);
        }
    }
    if node.children[idx].keys.len() >= T {
        let (pk, pv) = subtree_max(&node.children[idx], Ghost(hc));
        let pk_bytes = vstd::slice::slice_to_vec(arena.read(pk));
        let pv_bytes = vstd::slice::slice_to_vec(arena.read(pv));
        proof {
            assert(s0[p - 1] == (pk, pv));
            assert(cv0[p - 1] == (pk_bytes@, pv_bytes@));
        }
        let removed = replace_entry(arena, node, idx, &pk_bytes, &pv_bytes, Ghost(h));
        let ghost a1 = *arena;
        let ghost n1 = *node;
        proof {
            assert(moved_pos(n1, h, idx as int, true) == p - 1);
            assert(cview(a1, inorder(n1, h)).len() == cv0.len());
            assert(inorder(n1, h).len() == cview(a1, inorder(n1, h)).len());
            lemma_moved_in_child(a1, n1, h, idx as int, true, cv0);
        }
        let r = delete(arena, &mut node.children[idx], &pk_bytes, Ghost(hc), Ghost(false));
        proof {
            lemma_delete_moved_done(a1, *arena, n1, *node, h, idx as int, true, cv0, r->0@);
            lemma_frame_trans(a0, a1, *arena, s0, inorder(n1, h), inorder(*node, h));
        }
        Some(removed)
    } else if node.children[idx + 1].keys.len() >= T {
        let (sk, sv) = subtree_min(&node.children[idx + 1], Ghost(hc));
        let sk_bytes = vstd::slice::slice_to_vec(arena.read(sk));
        let sv_bytes = vstd::slice::slice_to_vec(arena.read(sv));
        proof {
            assert(s0[p + 1] == (sk, sv));
            assert(cv0[p + 1] == (sk_bytes@, sv_bytes@));
        }
        let removed = replace_entry(arena, node, idx, &sk_bytes, &sv_bytes, Ghost(h));
        let ghost a1 = *arena;
        let ghost n1 = *node;
        proof {
            assert(moved_pos(n1, h, idx as int, false) == p + 1);
            assert(cview(a1, inorder(n1, h)).len() == cv0.len());
            assert(inorder(n1, h).len() == cview(a1, inorder(n1, h)).len());
            lemma_moved_in_child(a1, n1, h, idx as int, false, cv0);
        }
        let r = delete(arena, &mut node.children[idx + 1], &sk_bytes, Ghost(hc), Ghost(false));
        proof {
            lemma_delete_moved_done(a1, *arena, n1, *node, h, idx as int, false, cv0, r->0@);
            lemma_frame_trans(a0, a1, *arena, s0, inorder(n1, h), inorder(*node, h));
        }
        Some(removed)
    } else {
        merge_children(node, idx, Ghost(h), Ghost(0));
        let ghost n1 = *node;
        proof {
            lemma_node_keys(a0, n0, h);
            let m = n1.children@[idx as int];
            let l = inorder(n0.children@[idx as int], hc);
            assert(inorder(m, hc)[l.len() as int] == (n0.keys@[idx as int], n0.vals@[idx as int]));
            assert(cview(a0, inorder(m, hc))[l.len() as int].0 == key@);
            if idx > 0 {
                assert(n1.keys@[idx - 1] == n0.keys@[idx - 1]);
            }
            if idx < n1.keys@.len() {
                assert(n1.keys@[idx as int] == n0.keys@[idx + 1]);
            }
            lemma_search_child(a0, n1, h, idx as int, key@);
            lemma_wf_child(n1, h, 0, idx as int);
            lemma_child_decomp(n1, h, idx as int);
            lemma_sub_refs(a0, child_pre(n1, h, idx as int), inorder(m, hc), child_post(n1, h, idx as int));
            lemma_room_sub(
                cview(a0, child_pre(n1, h, idx as int)),
                cview(a0, inorder(m, hc)),
                cview(a0, child_post(n1, h, idx as int)),
                key@,
                a0.spec_capacity(),
            );
        }
        let res = delete(arena, &mut node.children[idx], key, Ghost(hc), Ghost(false));
        proof {
            lemma_delete_child_done(a0, *arena, n1, *node, h, idx as int, key@, res->0@);
        }
        res
    }
}

impl BTree {
    /// The entries in key order, as bytes.
    pub closed spec fn entries(&self) -> Seq<(Seq<u8>, Seq<u8>)> {
        cview(self.arena, inorder(self.root, self.height@))
    }

    /// Internal consistency of the tree.
    pub closed spec fn wf(&self) -> bool {
        let s = inorder(self.root, self.height@);
        &&& self.arena.wf()
        &&& wf_node(self.root, self.height@, 0)
        &&& self.height@ > 0 ==> self.root.keys@.len() >= 1
        &&& sorted_c(self.entries())
        &&& refs_ok(self.arena, s)
        &&& refs_distinct(s)
        &&& owns_exactly(self.arena, s)
        &&& self.len == s.len()
    }

    /// Entries are sorted by key and the map view agrees with them.
    pub proof fn lemma_entries(&self)
        requires
            self.wf(),
        ensures
            sorted_c(self.entries()),
            forall|q: int|
                0 <= q < self.entries().len() ==> self@.contains_key(#[trigger] self.entries()[q].0),
            forall|q: int|
                0 <= q < self.entries().len() ==> self@[#[trigger] self.entries()[q].0] == self.entries()[q].1,
            forall|k: Seq<u8>| #[trigger] self@.contains_key(k) <==> has_key_c(self.entries(), k),
            self@.dom().finite(),
            self@.len() == self.entries().len(),
    {
        let s = self.entries();
        assert(self@ == entries_map(s));
        assert forall|q: int| 0 <= q < s.len() implies self@.contains_key(#[trigger] s[q].0) && self@[s[q].0] == s[q].1 by {
            lemma_entries_map(s, q);
        }
        lemma_map_len(s);
    }

    /// Every stored key and value fits the arena's 32-bit lengths.
    pub proof fn lemma_entry_sizes(&self)
        requires
            self.wf(),
        ensures
            forall|q: int|
                0 <= q < self.entries().len() ==> #[trigger] self.entries()[q].0.len() + self.entries()[q].1.len()
                    <= u32::MAX,
            self.entries().len() <= usize::MAX,
    {
        self.arena.lemma_wf();
        let s = inorder(self.root, self.height@);
        assert forall|q: int| 0 <= q < self.entries().len() implies #[trigger] self.entries()[q].0.len()
            + self.entries()[q].1.len() <= u32::MAX by {
            let (kr, vr) = s[q];
            assert(self.arena.valid_ref(kr) && self.arena.valid_ref(vr));
            self.arena.lemma_contents_len(kr);
            self.arena.lemma_contents_len(vr);
            if kr.len > 0 {
                self.arena.lemma_live_bound(kr, vr);
                assert(kr != vr);
            } else if vr.len > 0 {
                self.arena.lemma_live_bound(vr, kr);
            }
        }
    }

    /// The root node.
    pub closed spec fn root_node(&self) -> Node {
        self.root
    }

    /// The number of levels below the root.
    pub closed spec fn height(&self) -> nat {
        self.height@
    }

    /// The shape of a well-formed tree: all leaves at the same depth, each
    /// inner node with one more child than keys, every node but the root
    /// holding between `T - 1` and `2T - 1` keys, an inner root holding at
    /// least one key, and the entries sorted by key.
    pub proof fn lemma_shape(&self)
        requires
            self.wf(),
        ensures
            wf_node(self.root_node(), self.height(), 0),
            self.height() > 0 ==> self.root_node().keys@.len() >= 1,
            sorted_c(self.entries()),
            self.node_count() == node_total(self.root_node(), self.height()),
    {
    }

    /// The arena's live bytes are exactly the bytes of the stored keys and
    /// values, which therefore fit the arena's 32-bit offsets.
    pub proof fn lemma_live_bytes(&self)
        requires
            self.wf(),
        ensures
            self.arena_live() == entry_bytes(self.entries()),
            entry_bytes(self.entries()) <= self.arena_capacity() <= u32::MAX,
    {
        self.arena.lemma_wf();
        let s = inorder(self.root, self.height@);
        lemma_nonempty_refs_contains(s);
        lemma_nonempty_refs_distinct(s);
        lemma_nonempty_refs_bytes(self.arena, s);
        self.arena.lemma_live_sum(nonempty_refs(s));
    }

    /// Bytes of the arena buffer.
    pub closed spec fn arena_capacity(&self) -> nat {
        self.arena.spec_capacity()
    }

    /// An empty tree.
    pub fn new() -> (t: BTree)
        ensures
            t.wf(),
            t@ == Map::<Seq<u8>, Seq<u8>>::empty(),
            t.entries() == Seq::<(Seq<u8>, Seq<u8>)>::empty(),
            t.arena_capacity() == 0,
            t.arena_live() == 0,
            t.node_count() == 1,
    {
        let t = BTree {
            arena: Arena::new(),
            root: Node::empty_leaf(),
            len: 0,
            height: Ghost(0),
        };
        proof {
            assert(t.entries() =~= Seq::<(Seq<u8>, Seq<u8>)>::empty());
            assert(t@ =~= Map::<Seq<u8>, Seq<u8>>::empty());
            assert(owns_exactly(t.arena, inorder(t.root, 0)));
        }
        t
    }

    /// Inserts or replaces `key -> value`. Returns the previous value, if any.
    pub fn set(&mut self, key: &[u8], value: &[u8]) -> (res: Option<Vec<u8>>)
        requires
            old(self).wf(),
            old(self).arena_capacity() + key@.len() + value@.len() <= u32::MAX,
            old(self)@.len() < usize::MAX,
        ensures
            final(self).wf(),
            final(self)@ == old(self)@.insert(key@, value@),
            res is Some <==> old(self)@.contains_key(key@),
            res matches Some(v) ==> v@ == old(self)@[key@],
            final(self).arena_capacity() <= old(self).arena_capacity() + key@.len() + value@.len(),
    {
        let ghost h = self.height@;
        let ghost a0 = self.arena;
        let ghost s0 = inorder(self.root, h);
        proof {
            self.lemma_entries();
        }
        match replace_value(&mut self.arena, &mut self.root, key, value, Ghost(h)) {
            Some(old) => {
                proof {
                    let cv0 = cview(a0, s0);
                    let q = choose|q: int|
                        0 <= q < s0.len() && #[trigger] cv0[q].0 == key@ && old@ == cv0[q].1 && cview(self.arena, inorder(self.root, h))
                            == cv0.update(q, (key@, value@));
                    lemma_map_update(cv0, q, value@);
                    lemma_owns_frame(a0, self.arena, s0, inorder(self.root, h));
                    assert(cview(self.arena, inorder(self.root, h)) == cv0.update(q, (cv0[q].0, value@)));
                    lemma_entries_map(cv0, q);
                    let s1 = inorder(self.root, h);
                    assert(cview(self.arena, s1).len() == s1.len());
                    assert(cv0.len() == s0.len());
                    assert(s1.len() == s0.len());
                    assert(sorted_c(self.entries()));
                }
                return Some(old);
            },
            None => {},
        }
        proof {
            self.lemma_entries();
        }
        if self.root.keys.len() == MAX_KEYS {
            let mut old_root = Node::empty_leaf();
            std::mem::swap(&mut old_root, &mut self.root);
            let mut new_root = Node { is_leaf: false, keys: Vec::new(), vals: Vec::new(), children: vec![old_root] };
            proof {
                assert(new_root.children@ =~= seq![old_root]);
                lemma_new_root(new_root, old_root, h);
            }
            split_child(&mut new_root, 0, Ghost(h + 1));
            insert_nonfull(&mut self.arena, &mut new_root, key, value, Ghost(h + 1));
            self.root = new_root;
            self.height = Ghost(h + 1);
        } else {
            insert_nonfull(&mut self.arena, &mut self.root, key, value, Ghost(h));
        }
        proof {
            let s1 = inorder(self.root, self.height@);
            lemma_map_insert(cview(a0, s0), cview(self.arena, s1), key@, value@);
            lemma_owns_frame(a0, self.arena, s0, s1);
        }
        self.len += 1;
        None
    }

    /// Number of nodes of the tree.
    pub closed spec fn node_count(&self) -> nat {
        node_total(self.root, self.height@)
    }

    /// Bytes of the arena held by live allocations.
    pub closed spec fn arena_live(&self) -> nat {
        self.arena.spec_live_bytes() as nat
    }

    /// Size figures of the tree and its arena.
    pub fn stats(&self) -> (st: BTreeStats)
        requires
            self.wf(),
        ensures
            st.len == self@.len(),
            st.arena_capacity_bytes == self.arena_capacity(),
            st.arena_live_bytes == self.arena_live(),
            st.arena_live_bytes == entry_bytes(self.entries()),
            st.node_count == self.node_count(),
    {
        proof {
            self.lemma_entries();
            self.lemma_live_bytes();
            if self.height@ > 0 || self.root.keys@.len() > 0 {
                lemma_wf_min(self.root, self.height@, 0, 1);
                lemma_total_le(self.root, self.height@);
            }
        }
        BTreeStats {
            len: self.len,
            arena_capacity_bytes: self.arena.capacity_bytes(),
            arena_live_bytes: self.arena.live_bytes(),
            node_count: count_nodes(&self.root, Ghost(self.height@)),
        }
    }

    /// Visits every entry in key order: the list of keys, each with its
    /// value, for the caller to walk.
    pub fn for_each(&self) -> (out: Vec<(Vec<u8>, Vec<u8>)>)
        requires
            self.wf(),
        ensures
            pairs_view(out@) == self.entries(),
    {
        let ghost s = inorder(self.root, self.height@);
        let mut refs: Vec<(Ref, Ref)> = Vec::new();
        collect_refs(&self.root, Ghost(self.height@), &mut refs);
        proof {
            assert(refs@ =~= s);
        }
        let mut out: Vec<(Vec<u8>, Vec<u8>)> = Vec::new();
        let mut i: usize = 0;
        while i < refs.len()
            invariant
                self.wf(),
                s == inorder(self.root, self.height@),
                refs@ == s,
                i <= refs@.len(),
                pairs_view(out@) == self.entries().subrange(0, i as int),
            decreases refs@.len() - i,
        {
            let (k, v) = refs[i];
            proof {
                assert(self.arena.valid_ref(s[i as int].0) && self.arena.valid_ref(s[i as int].1));
            }
            let kb = vstd::slice::slice_to_vec(self.arena.read(k));
            let vb = vstd::slice::slice_to_vec(self.arena.read(v));
            let ghost before = out@;
            out.push((kb, vb));
            proof {
                assert(k == s[i as int].0 && v == s[i as int].1);
                assert(self.entries()[i as int] == (kb@, vb@));
                assert(out@ == before.push((kb, vb)));
                assert(pairs_view(out@) =~= pairs_view(before).push((kb@, vb@)));
                assert(pairs_view(out@) =~= self.entries().subrange(0, i + 1));
            }
            i = i + 1;
        }
        proof {
            assert(self.entries().subrange(0, s.len() as int) =~= self.entries());
        }
        out
    }

    /// Returns all keys, in order, whose bytes match the glob `pattern`.
    pub fn keys_matching(&self, pattern: &[u8]) -> (out: Vec<Vec<u8>>)
        requires
            self.wf(),
        ensures
            bytes_view(out@) == entry_keys(self.entries()).filter(|k: Seq<u8>| glob_matches(pattern@, k)),
    {
        let ghost s = inorder(self.root, self.height@);
        let ghost ks = entry_keys(self.entries());
        let ghost pred = |k: Seq<u8>| glob_matches(pattern@, k);
        let mut refs: Vec<(Ref, Ref)> = Vec::new();
        collect_refs(&self.root, Ghost(self.height@), &mut refs);
        proof {
            assert(refs@ =~= s);
            reveal(Seq::filter);
            assert(ks.subrange(0, 0).filter(pred) =~= Seq::<Seq<u8>>::empty());
        }
        let mut out: Vec<Vec<u8>> = Vec::new();
        let mut i: usize = 0;
        while i < refs.len()
            invariant
                self.wf(),
                s == inorder(self.root, self.height@),
                ks == entry_keys(self.entries()),
                pred == (|k: Seq<u8>| glob_matches(pattern@, k)),
                refs@ == s,
                i <= refs@.len(),
                bytes_view(out@) == ks.subrange(0, i as int).filter(pred),
            decreases refs@.len() - i,
        {
            let k = refs[i].0;
            proof {
                assert(self.arena.valid_ref(s[i as int].0));
            }
            let kb = self.arena.read(k);
            let ghost before = out@;
            if glob_match(pattern, kb) {
                out.push(vstd::slice::slice_to_vec(kb));
            }
            proof {
                let ks1 = ks.subrange(0, i + 1);
                assert(ks1.drop_last() =~= ks.subrange(0, i as int));
                assert(ks1.last() == kb@);
                reveal(Seq::filter);
                assert(bytes_view(out@) =~= ks1.filter(pred));
            }
            i = i + 1;
        }
        proof {
            assert(ks.subrange(0, s.len() as int) =~= ks);
        }
        out
    }

    /// Whether the arena has room for `key` and `value` (its offsets are
    /// 32-bit).
    pub fn has_room_to_set(&self, key: &[u8], value: &[u8]) -> (b: bool)
        requires
            self.wf(),
        ensures
            b == (self.arena_capacity() + key@.len() + value@.len() <= u32::MAX),
    {
        let cap = self.arena.capacity_bytes() as u64;
        proof {
            self.arena.lemma_wf();
        }
        (key.len() as u64) <= 0xffff_ffff - cap && (value.len() as u64) <= 0xffff_ffff - cap - (key.len() as u64)
    }

    /// Whether the arena has room for the copy of an entry that a deletion
    /// may make: true when its capacity plus its live bytes fit in 32 bits.
    pub fn has_room_to_delete(&self) -> (b: bool)
        requires
            self.wf(),
        ensures
            b == (self.arena_capacity() + self.arena_live() <= u32::MAX),
            b ==> room_for_any_entry(self.arena_capacity(), self@),
    {
        let cap = self.arena.capacity_bytes() as u64;
        let live = self.arena.live_bytes() as u64;
        proof {
            self.arena.lemma_wf();
            self.lemma_entries();
            let s = inorder(self.root, self.height@);
            assert forall|k: Seq<u8>| #[trigger] self@.contains_key(k) implies k.len() + self@[k].len()
                <= self.arena_live() by {
                let q = choose|q: int| 0 <= q < self.entries().len() && #[trigger] self.entries()[q].0 == k;
                assert(self@[self.entries()[q].0] == self.entries()[q].1);
                let (kr, vr) = s[q];
                assert(self.arena.valid_ref(kr) && self.arena.valid_ref(vr));
                self.arena.lemma_contents_len(kr);
                self.arena.lemma_contents_len(vr);
                if kr.len > 0 {
                    self.arena.lemma_live_bound(kr, vr);
                    assert(kr != vr);
                } else if vr.len > 0 {
                    self.arena.lemma_live_bound(vr, kr);
                }
            }
        }
        cap <= 0xffff_ffff && live <= 0xffff_ffff - cap
    }

    /// Removes `key`. Returns its value, if it was present.
    #[verifier::rlimit(40)]
    pub fn del(&mut self, key: &[u8]) -> (res: Option<Vec<u8>>)
        requires
            old(self).wf(),
            room_for_any_entry(old(self).arena_capacity(), old(self)@),
        ensures
            final(self).wf(),
            final(self)@ == old(self)@.remove(key@),
            res is Some <==> old(self)@.contains_key(key@),
            res matches Some(v) ==> v@ == old(self)@[key@],
            res is None ==> *final(self) == *old(self),
            res is Some ==> exists|q: int|
                0 <= q < old(self).entries().len() && #[trigger] old(self).entries()[q].0 == key@
                    && final(self).entries() == old(self).entries().remove(q) && final(self).arena_capacity()
                    <= old(self).arena_capacity() + delete_growth(old(self).entries(), q),
            final(self).arena_capacity() == old(self).arena_capacity() || exists|k: Seq<u8>|
                old(self)@.contains_key(k) && final(self).arena_capacity() <= old(self).arena_capacity() + k.len()
                    + #[trigger] old(self)@[k].len(),
    {
        let ghost h = self.height@;
        let ghost a0 = self.arena;
        let ghost s0 = inorder(self.root, h);
        let ghost cv0 = cview(a0, s0);
        proof {
            self.lemma_entries();
            a0.lemma_wf();
            lemma_room_from_map(a0.spec_capacity(), cv0, key@);
        }
        if search_exact(&self.arena, &self.root, key, Ghost(h)).is_none() {
            return None;
        }
        let removed = delete(&mut self.arena, &mut self.root, key, Ghost(h), Ghost(true));
        let ghost p = choose|p: int| 0 <= p < cv0.len() && #[trigger] cv0[p].0 == key@;
        proof {
            assert(cview(self.arena, inorder(self.root, h)) == cv0.remove(p));
            lemma_growth_entry(cv0, p);
            lemma_map_remove(cv0, p);
            lemma_entries_map(cv0, p);
            lemma_owns_frame(a0, self.arena, s0, inorder(self.root, h));
        }
        if !self.root.is_leaf && self.root.keys.len() == 0 {
            let ghost r = self.root;
            let child = self.root.children.pop().unwrap();
            proof {
                assert(r.children@.len() == 1);
                assert(child == r.children@[0]);
                assert(inorder(r, h) == inorder(child, (h - 1) as nat));
                lemma_wf_child(r, h, 0, 0);
                lemma_wf_min(child, (h - 1) as nat, 0, (T - 1) as nat);
            }
            self.root = child;
            self.height = Ghost((h - 1) as nat);
        }
        self.len = self.len - 1;
        removed
    }

    /// Looks up `key`.
    pub fn get(&self, key: &[u8]) -> (res: Option<Vec<u8>>)
        requires
            self.wf(),
        ensures
            res is Some <==> self@.contains_key(key@),
            res matches Some(v) ==> v@ == self@[key@],
    {
        let ghost s = inorder(self.root, self.height@);
        proof {
            self.lemma_entries();
        }
        match search_exact(&self.arena, &self.root, key, Ghost(self.height@)) {
            Some(vr) => {
                proof {
                    let q = choose|q: int| 0 <= q < s.len() && #[trigger] self.entries()[q] == (key@, self.arena.contents(vr));
                    assert(self.entries()[q].0 == key@);
                    assert(self@[self.entries()[q].0] == self.entries()[q].1);
                }
                Some(vstd::slice::slice_to_vec(self.arena.read(vr)))
            },
            None => None,
        }
    }

    /// Whether `key` is stored.
    pub fn contains(&self, key: &[u8]) -> (res: bool)
        requires
            self.wf(),
        ensures
            res == self@.contains_key(key@),
    {
        proof {
            self.lemma_entries();
        }
        search_exact(&self.arena, &self.root, key, Ghost(self.height@)).is_some()
    }

    /// Number of stored keys.
    pub fn len(&self) -> (n: usize)
        requires
            self.wf(),
        ensures
            n == self@.len(),
    {
        proof {
            self.lemma_entries();
        }
        self.len
    }

    /// Whether the tree holds no key.
    pub fn is_empty(&self) -> (b: bool)
        requires
            self.wf(),
        ensures
            b == (self@.len() == 0),
    {
        proof {
            self.lemma_entries();
        }
        self.len == 0
    }
}

impl Default for BTree {
    fn default() -> (t: Self)
        ensures
            t.wf(),
            t@ == Map::<Seq<u8>, Seq<u8>>::empty(),
    {
        BTree::new()
    }
}

/// The map of a sorted sequence has one key per entry.
proof fn lemma_map_len(s: Seq<(Seq<u8>, Seq<u8>)>)
    requires
        sorted_c(s),
    ensures
        entries_map(s).dom().finite(),
        entries_map(s).len() == s.len(),
{
    let ks = s.map_values(|e: (Seq<u8>, Seq<u8>)| e.0);
    assert(ks.no_duplicates()) by {
        assert forall|i: int, j: int| 0 <= i < ks.len() && 0 <= j < ks.len() && i != j implies ks[i] != ks[j] by {
            if ks[i] == ks[j] {
                lemma_sorted_unique(s, i, j);
            }
        }
    }
    assert forall|k: Seq<u8>| #[trigger] entries_map(s).dom().contains(k) <==> ks.to_set().contains(k) by {
        if has_key_c(s, k) {
            let q = choose|q: int| 0 <= q < s.len() && #[trigger] s[q].0 == k;
            assert(ks[q] == k);
        }
        if ks.contains(k) {
            let q = choose|q: int| 0 <= q < ks.len() && ks[q] == k;
            assert(s[q].0 == k);
        }
    }
    assert(entries_map(s).dom() =~= ks.to_set());
    ks.unique_seq_to_set();
    vstd::seq_lib::seq_to_set_is_finite(ks);
}

} // verus!
