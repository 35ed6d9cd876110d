//! The mathematical model of the B-Tree: nodes, their in-order entry
//! sequence, the shape invariant, and the lemmas that relate structural
//! edits (split, borrow, merge) to the in-order sequence.
use crate::arena::{Arena, Ref};
use crate::bytes_order::{lex_lt, lemma_lex_transitive, lemma_lex_irreflexive, lemma_lex_asymmetric};
use vstd::prelude::*;

verus! {

/// Minimum degree. Max keys per node = 2T-1, min keys per non-root node = T-1.
pub const T: usize = 32;

pub const MAX_KEYS: usize = 2 * T - 1;

/// A B-Tree node: `keys[i]` / `vals[i]` are arena handles; an internal node
/// has one more child than keys.
pub struct Node {
    pub is_leaf: bool,
    pub keys: Vec<Ref>,
    pub vals: Vec<Ref>,
    pub children: Vec<Node>,
}

/// Pairs up keys and values.
pub open spec fn zip(ks: Seq<Ref>, vs: Seq<Ref>) -> Seq<(Ref, Ref)> {
    Seq::new(ks.len(), |i: int| (ks[i], vs[i]))
}

/// The entries of the subtree rooted at `n` (of height `h`), in key order.
pub open spec fn inorder(n: Node, h: nat) -> Seq<(Ref, Ref)>
    decreases h, 1nat, 0nat,
{
    if h == 0 {
        zip(n.keys@, n.vals@)
    } else {
        items(n.keys@, n.vals@, n.children@, h)
    }
}

/// The entries of children `cs[0..=ks.len()]` interleaved with the keys
/// `ks` (and values `vs`) of an internal node of height `h`.
pub open spec fn items(ks: Seq<Ref>, vs: Seq<Ref>, cs: Seq<Node>, h: nat) -> Seq<(Ref, Ref)>
    decreases h, 0nat, ks.len(),
{
    if h == 0 {
        Seq::empty()
    } else if ks.len() == 0 {
        inorder(cs[0], (h - 1) as nat)
    } else {
        items(ks.drop_last(), vs.subrange(0, ks.len() - 1), cs, h) + seq![
            (ks.last(), vs[ks.len() - 1]),
        ] + inorder(cs[ks.len() as int], (h - 1) as nat)
    }
}

/// Shape invariant of a node of height `h` holding at least `min` keys:
/// every leaf at height 0, children one more than keys, every non-root
/// node between `T - 1` and `2T - 1` keys.
pub open spec fn wf_node(n: Node, h: nat, min: nat) -> bool
    decreases h,
{
    &&& n.keys@.len() == n.vals@.len()
    &&& min <= n.keys@.len() <= MAX_KEYS
    &&& n.is_leaf == (h == 0)
    &&& if h == 0 {
        n.children@.len() == 0
    } else {
        &&& n.children@.len() == n.keys@.len() + 1
        &&& forall|i: int|
            0 <= i < n.children@.len() ==> wf_node(#[trigger] n.children@[i], (h - 1) as nat, (T - 1) as nat)
    }
}

/// Splits the interleaving at key `m`.
pub proof fn lemma_items_split(ks: Seq<Ref>, vs: Seq<Ref>, cs: Seq<Node>, h: nat, m: int)
    requires
        h > 0,
        ks.len() == vs.len(),
        cs.len() >= ks.len() + 1,
        0 <= m < ks.len(),
    ensures
        items(ks, vs, cs, h) == items(ks.subrange(0, m), vs.subrange(0, m), cs, h) + seq![(ks[m], vs[m])]
            + items(
            ks.subrange(m + 1, ks.len() as int),
            vs.subrange(m + 1, vs.len() as int),
            cs.subrange(m + 1, cs.len() as int),
            h,
        ),
    decreases ks.len(),
{
    let n = ks.len() as int;
    let ks1 = ks.subrange(m + 1, n);
    let vs1 = vs.subrange(m + 1, n);
    let cs1 = cs.subrange(m + 1, cs.len() as int);
    assert(ks.drop_last() =~= ks.subrange(0, n - 1));
    if m == n - 1 {
        assert(ks1.len() == 0);
        assert(cs1[0] == cs[n]);
        assert(ks.subrange(0, m) =~= ks.drop_last());
        assert(vs.subrange(0, m) =~= vs.subrange(0, n - 1));
    } else {
        let kd = ks.drop_last();
        let vd = vs.subrange(0, n - 1);
        lemma_items_split(kd, vd, cs, h, m);
        assert(kd.subrange(0, m) =~= ks.subrange(0, m));
        assert(vd.subrange(0, m) =~= vs.subrange(0, m));
        assert(kd[m] == ks[m]);
        assert(vd[m] == vs[m]);
        assert(kd.subrange(m + 1, kd.len() as int) =~= ks1.drop_last());
        assert(vd.subrange(m + 1, vd.len() as int) =~= vs1.subrange(0, ks1.len() - 1));
        assert(ks1.last() == ks.last());
        assert(vs1[ks1.len() - 1] == vs[n - 1]);
        assert(cs1[ks1.len() as int] == cs[n]);
        assert(items(ks1, vs1, cs1, h) == items(ks1.drop_last(), vs1.subrange(0, ks1.len() - 1), cs1, h)
            + seq![(ks1.last(), vs1[ks1.len() - 1])] + inorder(cs1[ks1.len() as int], (h - 1) as nat));
        let a = items(ks.subrange(0, m), vs.subrange(0, m), cs, h);
        let b = items(ks1.drop_last(), vs1.subrange(0, ks1.len() - 1), cs1, h);
        let e = seq![(ks[m], vs[m])];
        let l = seq![(ks.last(), vs[n - 1])];
        let c = inorder(cs[n], (h - 1) as nat);
        assert((a + e + b) + l + c =~= a + e + (b + l + c));
    }
}

/// The interleaving only reads children `0..=ks.len()`.
pub proof fn lemma_items_agree(ks: Seq<Ref>, vs: Seq<Ref>, cs: Seq<Node>, cs2: Seq<Node>, h: nat)
    requires
        ks.len() == vs.len(),
        cs.len() >= ks.len() + 1,
        cs2.len() >= ks.len() + 1,
        forall|j: int| 0 <= j <= ks.len() ==> cs[j] == cs2[j],
    ensures
        items(ks, vs, cs, h) == items(ks, vs, cs2, h),
    decreases ks.len(),
{
    if h > 0 && ks.len() > 0 {
        lemma_items_agree(ks.drop_last(), vs.subrange(0, ks.len() - 1), cs, cs2, h);
        assert(cs[ks.len() as int] == cs2[ks.len() as int]);
    } else if h > 0 {
        assert(cs[0] == cs2[0]);
    }
}

/// Interleaving of a concatenation: `(ks1, k, ks2)` with children `cs1 ++ cs2`.
pub proof fn lemma_items_concat(
    ks1: Seq<Ref>,
    vs1: Seq<Ref>,
    cs1: Seq<Node>,
    k: Ref,
    v: Ref,
    ks2: Seq<Ref>,
    vs2: Seq<Ref>,
    cs2: Seq<Node>,
    h: nat,
)
    requires
        h > 0,
        ks1.len() == vs1.len(),
        ks2.len() == vs2.len(),
        cs1.len() == ks1.len() + 1,
        cs2.len() == ks2.len() + 1,
    ensures
        items(ks1 + seq![k] + ks2, vs1 + seq![v] + vs2, cs1 + cs2, h) == items(ks1, vs1, cs1, h) + seq![(k, v)]
            + items(ks2, vs2, cs2, h),
{
    let ks = ks1 + seq![k] + ks2;
    let vs = vs1 + seq![v] + vs2;
    let cs = cs1 + cs2;
    let m = ks1.len() as int;
    lemma_items_split(ks, vs, cs, h, m);
    assert(ks.subrange(0, m) =~= ks1);
    assert(vs.subrange(0, m) =~= vs1);
    assert(ks.subrange(m + 1, ks.len() as int) =~= ks2);
    assert(vs.subrange(m + 1, vs.len() as int) =~= vs2);
    assert(cs.subrange(m + 1, cs.len() as int) =~= cs2);
    lemma_items_agree(ks1, vs1, cs, cs1, h);
}

/// Zip of a concatenation.
pub proof fn lemma_zip_concat(ks1: Seq<Ref>, vs1: Seq<Ref>, k: Ref, v: Ref, ks2: Seq<Ref>, vs2: Seq<Ref>)
    requires
        ks1.len() == vs1.len(),
        ks2.len() == vs2.len(),
    ensures
        zip(ks1 + seq![k] + ks2, vs1 + seq![v] + vs2) == zip(ks1, vs1) + seq![(k, v)] + zip(ks2, vs2),
{
    assert(zip(ks1 + seq![k] + ks2, vs1 + seq![v] + vs2) =~= zip(ks1, vs1) + seq![(k, v)] + zip(ks2, vs2));
}

/// The entries of node `n` before its child `i`.
pub open spec fn child_pre(n: Node, h: nat, i: int) -> Seq<(Ref, Ref)> {
    if i == 0 {
        Seq::empty()
    } else {
        items(n.keys@.subrange(0, i - 1), n.vals@.subrange(0, i - 1), n.children@, h) + seq![
            (n.keys@[i - 1], n.vals@[i - 1]),
        ]
    }
}

/// The entries of node `n` after its child `i`.
pub open spec fn child_post(n: Node, h: nat, i: int) -> Seq<(Ref, Ref)> {
    if i == n.keys@.len() {
        Seq::empty()
    } else {
        seq![(n.keys@[i], n.vals@[i])] + items(
            n.keys@.subrange(i + 1, n.keys@.len() as int),
            n.vals@.subrange(i + 1, n.vals@.len() as int),
            n.children@.subrange(i + 1, n.children@.len() as int),
            h,
        )
    }
}

/// Lengths of an internal node agree.
pub open spec fn internal_shape(n: Node) -> bool {
    &&& n.keys@.len() == n.vals@.len()
    &&& n.children@.len() == n.keys@.len() + 1
}

/// The entries of an internal node around its child `i`.
pub proof fn lemma_child_decomp(n: Node, h: nat, i: int)
    requires
        h > 0,
        internal_shape(n),
        0 <= i <= n.keys@.len(),
    ensures
        inorder(n, h) == child_pre(n, h, i) + inorder(n.children@[i], (h - 1) as nat) + child_post(n, h, i),
{
    let ks = n.keys@;
    let vs = n.vals@;
    let cs = n.children@;
    let k = ks.len() as int;
    if i < k {
        lemma_items_split(ks, vs, cs, h, i);
        let pre_items = items(ks.subrange(0, i), vs.subrange(0, i), cs, h);
        if i == 0 {
            assert(pre_items == inorder(cs[0], (h - 1) as nat));
        } else {
            let ks0 = ks.subrange(0, i);
            let vs0 = vs.subrange(0, i);
            assert(ks0.drop_last() =~= ks.subrange(0, i - 1));
            assert(vs0.subrange(0, i - 1) =~= vs.subrange(0, i - 1));
        }
        assert(inorder(n, h) =~= child_pre(n, h, i) + inorder(cs[i], (h - 1) as nat) + child_post(n, h, i));
    } else {
        if k == 0 {
        } else {
            assert(ks.drop_last() =~= ks.subrange(0, k - 1));
        }
        assert(inorder(n, h) =~= child_pre(n, h, i) + inorder(cs[i], (h - 1) as nat) + child_post(n, h, i));
    }
}

/// Position of key `i` of node `n` within the entries of `n`.
pub open spec fn key_pos(n: Node, h: nat, i: int) -> int {
    if h == 0 {
        i
    } else {
        items(n.keys@.subrange(0, i), n.vals@.subrange(0, i), n.children@, h).len() as int
    }
}

/// Key `i` of a node sits at `key_pos` among its entries.
pub proof fn lemma_key_pos(n: Node, h: nat, i: int)
    requires
        h > 0 ==> internal_shape(n),
        n.keys@.len() == n.vals@.len(),
        0 <= i < n.keys@.len(),
    ensures
        0 <= key_pos(n, h, i) < inorder(n, h).len(),
        inorder(n, h)[key_pos(n, h, i)] == (n.keys@[i], n.vals@[i]),
        h > 0 ==> child_pre(n, h, i + 1).len() == key_pos(n, h, i) + 1,
{
    if h > 0 {
        lemma_child_decomp(n, h, i + 1);
        let ks0 = n.keys@.subrange(0, i + 1);
        assert(n.keys@.subrange(0, i) =~= n.keys@.subrange(0, i + 1 - 1));
        assert(n.vals@.subrange(0, i) =~= n.vals@.subrange(0, i + 1 - 1));
    }
}

/// Later keys of a node sit later among its entries.
pub proof fn lemma_key_pos_mono(n: Node, h: nat, i: int, j: int)
    requires
        h > 0 ==> internal_shape(n),
        n.keys@.len() == n.vals@.len(),
        0 <= i < j < n.keys@.len(),
    ensures
        key_pos(n, h, i) < key_pos(n, h, j),
{
    if h > 0 {
        let ksj = n.keys@.subrange(0, j);
        let vsj = n.vals@.subrange(0, j);
        lemma_items_split(ksj, vsj, n.children@, h, i);
        assert(ksj.subrange(0, i) =~= n.keys@.subrange(0, i));
        assert(vsj.subrange(0, i) =~= n.vals@.subrange(0, i));
    }
}

/// Byte contents of a sequence of entries.
pub open spec fn cview(a: Arena, s: Seq<(Ref, Ref)>) -> Seq<(Seq<u8>, Seq<u8>)> {
    s.map_values(|e: (Ref, Ref)| (a.contents(e.0), a.contents(e.1)))
}

/// Keys strictly increasing.
pub open spec fn sorted_c(s: Seq<(Seq<u8>, Seq<u8>)>) -> bool {
    forall|i: int, j: int| 0 <= i < j < s.len() ==> lex_lt(#[trigger] s[i].0, #[trigger] s[j].0)
}

/// Some entry has key `key`.
pub open spec fn has_key_c(s: Seq<(Seq<u8>, Seq<u8>)>, key: Seq<u8>) -> bool {
    exists|q: int| 0 <= q < s.len() && #[trigger] s[q].0 == key
}

/// Every handle of the entries can be read from the arena.
pub open spec fn refs_ok(a: Arena, s: Seq<(Ref, Ref)>) -> bool {
    forall|q: int| 0 <= q < s.len() ==> a.valid_ref(#[trigger] s[q].0) && a.valid_ref(s[q].1)
}

/// Node keys strictly increasing by contents.
pub open spec fn keys_sorted(a: Arena, ks: Seq<Ref>) -> bool {
    forall|i: int, j: int| 0 <= i < j < ks.len() ==> lex_lt(a.contents(#[trigger] ks[i]), a.contents(#[trigger] ks[j]))
}

/// In a sorted sequence a key occurs at most once.
pub proof fn lemma_sorted_unique(s: Seq<(Seq<u8>, Seq<u8>)>, q1: int, q2: int)
    requires
        sorted_c(s),
        0 <= q1 < s.len(),
        0 <= q2 < s.len(),
        s[q1].0 == s[q2].0,
    ensures
        q1 == q2,
{
    lemma_lex_irreflexive(s[q1].0);
    if q1 < q2 {
        assert(lex_lt(s[q1].0, s[q2].0));
    } else if q2 < q1 {
        assert(lex_lt(s[q2].0, s[q1].0));
    }
}

/// The node's own handles are readable and its keys sorted when its
/// entries are.
pub proof fn lemma_node_keys(a: Arena, n: Node, h: nat)
    requires
        h > 0 ==> internal_shape(n),
        n.keys@.len() == n.vals@.len(),
        refs_ok(a, inorder(n, h)),
    ensures
        forall|i: int| 0 <= i < n.keys@.len() ==> a.valid_ref(#[trigger] n.keys@[i]) && a.valid_ref(n.vals@[i]),
        sorted_c(cview(a, inorder(n, h))) ==> keys_sorted(a, n.keys@),
{
    let s = inorder(n, h);
    assert forall|i: int| 0 <= i < n.keys@.len() implies a.valid_ref(#[trigger] n.keys@[i]) && a.valid_ref(n.vals@[i]) by {
        lemma_key_pos(n, h, i);
        assert(s[key_pos(n, h, i)] == (n.keys@[i], n.vals@[i]));
        assert(a.valid_ref(s[key_pos(n, h, i)].0) && a.valid_ref(s[key_pos(n, h, i)].1));
    }
    if sorted_c(cview(a, s)) {
        assert forall|i: int, j: int| 0 <= i < j < n.keys@.len() implies lex_lt(a.contents(#[trigger] n.keys@[i]), a.contents(#[trigger] n.keys@[j])) by {
            lemma_key_pos(n, h, i);
            lemma_key_pos(n, h, j);
            lemma_key_pos_mono(n, h, i, j);
            let pi = key_pos(n, h, i);
            let pj = key_pos(n, h, j);
            assert(cview(a, s)[pi].0 == a.contents(n.keys@[i]));
            assert(cview(a, s)[pj].0 == a.contents(n.keys@[j]));
        }
    }
}

/// A key strictly between keys `idx - 1` and `idx` of a node can only sit in
/// child `idx`: all entries before that child are smaller, all after larger.
pub proof fn lemma_search_child(a: Arena, n: Node, h: nat, idx: int, key: Seq<u8>)
    requires
        h > 0,
        internal_shape(n),
        0 <= idx <= n.keys@.len(),
        sorted_c(cview(a, inorder(n, h))),
        idx > 0 ==> lex_lt(a.contents(n.keys@[idx - 1]), key),
        idx < n.keys@.len() ==> lex_lt(key, a.contents(n.keys@[idx])),
    ensures
        cview(a, inorder(n, h)) == cview(a, child_pre(n, h, idx)) + cview(a, inorder(n.children@[idx], (h - 1) as nat))
            + cview(a, child_post(n, h, idx)),
        forall|q: int| 0 <= q < child_pre(n, h, idx).len() ==> lex_lt(#[trigger] cview(a, child_pre(n, h, idx))[q].0, key),
        forall|q: int| 0 <= q < child_post(n, h, idx).len() ==> lex_lt(key, #[trigger] cview(a, child_post(n, h, idx))[q].0),
        has_key_c(cview(a, inorder(n, h)), key) <==> has_key_c(cview(a, inorder(n.children@[idx], (h - 1) as nat)), key),
        sorted_c(cview(a, inorder(n.children@[idx], (h - 1) as nat))),
{
    lemma_child_decomp(n, h, idx);
    let pre = cview(a, child_pre(n, h, idx));
    let c = cview(a, inorder(n.children@[idx], (h - 1) as nat));
    let post = cview(a, child_post(n, h, idx));
    let all = cview(a, inorder(n, h));
    assert(all =~= pre + c + post);
    assert forall|q: int| 0 <= q < pre.len() implies lex_lt(#[trigger] pre[q].0, key) by {
        let last = pre.len() - 1;
        assert(pre[last].0 == a.contents(n.keys@[idx - 1]));
        if q < last {
            assert(all[q] == pre[q] && all[last] == pre[last]);
            lemma_lex_transitive(pre[q].0, pre[last].0, key);
        }
    }
    assert forall|q: int| 0 <= q < post.len() implies lex_lt(key, #[trigger] post[q].0) by {
        assert(post[0].0 == a.contents(n.keys@[idx]));
        if q > 0 {
            let o = (pre.len() + c.len()) as int;
            assert(all[o] == post[0] && all[o + q] == post[q]);
            lemma_lex_transitive(key, post[0].0, post[q].0);
        }
    }
    if has_key_c(all, key) {
        let q = choose|q: int| 0 <= q < all.len() && #[trigger] all[q].0 == key;
        if q < pre.len() {
            assert(all[q] == pre[q]);
            lemma_lex_irreflexive(key);
        } else if q >= pre.len() + c.len() {
            assert(all[q] == post[q - pre.len() - c.len()]);
            lemma_lex_irreflexive(key);
        } else {
            assert(all[q] == c[q - pre.len()]);
        }
    }
    if has_key_c(c, key) {
        let q = choose|q: int| 0 <= q < c.len() && #[trigger] c[q].0 == key;
        assert(all[q + pre.len()] == c[q]);
    }
    assert forall|i: int, j: int| 0 <= i < j < c.len() implies lex_lt(#[trigger] c[i].0, #[trigger] c[j].0) by {
        assert(all[i + pre.len()] == c[i] && all[j + pre.len()] == c[j]);
    }
}

/// Children of a well-formed internal node are well formed.
pub proof fn lemma_wf_child(n: Node, h: nat, min: nat, i: int)
    requires
        wf_node(n, h, min),
        h > 0,
        0 <= i < n.children@.len(),
    ensures
        wf_node(n.children@[i], (h - 1) as nat, (T - 1) as nat),
        wf_node(n.children@[i], (h - 1) as nat, 0),
{
    assert(wf_node(n.children@[i], (h - 1) as nat, (T - 1) as nat));
}

/// Whether `r` is one of the handles of the entries.
pub open spec fn in_refs(s: Seq<(Ref, Ref)>, r: Ref) -> bool {
    exists|q: int| 0 <= q < s.len() && (#[trigger] s[q].0 == r || s[q].1 == r)
}

/// No non-empty handle is used twice among the entries.
pub open spec fn refs_distinct(s: Seq<(Ref, Ref)>) -> bool {
    &&& forall|i: int, j: int|
        0 <= i < s.len() && 0 <= j < s.len() && i != j ==> {
            &&& (#[trigger] s[i].0).len > 0 ==> s[i].0 != (#[trigger] s[j]).0 && s[i].0 != s[j].1
            &&& s[i].1.len > 0 ==> s[i].1 != s[j].1 && s[i].1 != s[j].0
        }
    &&& forall|i: int| 0 <= i < s.len() ==> (#[trigger] s[i]).0.len > 0 ==> s[i].0 != s[i].1
}

/// The arena holds exactly the non-empty handles of the entries.
pub open spec fn owns_exactly(a: Arena, s: Seq<(Ref, Ref)>) -> bool {
    forall|r: Ref| #[trigger] a@.contains_key(r) <==> (r.len > 0 && in_refs(s, r))
}

/// The arena change made by an edit of a subtree whose entries went from
/// `s0` to `s1`: handles outside the subtree keep their bytes, nothing
/// outside the new subtree is newly live, and new handles are fresh.
pub open spec fn frame(a0: Arena, a1: Arena, s0: Seq<(Ref, Ref)>, s1: Seq<(Ref, Ref)>) -> bool {
    &&& forall|r: Ref|
        #[trigger] a0@.contains_key(r) && !in_refs(s0, r) ==> a1@.contains_key(r) && a1@[r] == a0@[r]
    &&& forall|r: Ref| #[trigger] a1@.contains_key(r) && !in_refs(s1, r) ==> a0@.contains_key(r) && !in_refs(s0, r)
    &&& forall|r: Ref| r.len > 0 && #[trigger] in_refs(s1, r) ==> in_refs(s0, r) || !a0@.contains_key(r)
}

/// The handles of entry `q`.
pub open spec fn entry_has(s: Seq<(Ref, Ref)>, q: int, r: Ref) -> bool {
    s[q].0 == r || s[q].1 == r
}

/// A handle among the entries belongs to some entry.
pub proof fn lemma_in_refs_witness(s: Seq<(Ref, Ref)>, r: Ref) -> (q: int)
    requires
        in_refs(s, r),
    ensures
        0 <= q < s.len(),
        s[q].0 == r || s[q].1 == r,
{
    choose|q: int| 0 <= q < s.len() && (#[trigger] s[q].0 == r || s[q].1 == r)
}

/// A handle of entry `q` is among the entries.
pub proof fn lemma_in_refs_intro(s: Seq<(Ref, Ref)>, r: Ref, q: int)
    requires
        0 <= q < s.len(),
        s[q].0 == r || s[q].1 == r,
    ensures
        in_refs(s, r),
{
    assert(s[q].0 == r || s[q].1 == r);
}

/// A live handle of the arena is non-empty.
pub proof fn lemma_live_nonempty(a: Arena, r: Ref)
    requires
        a.wf(),
        a@.contains_key(r),
    ensures
        r.len > 0,
{
    a.lemma_wf();
}

/// Entry `p` is replaced by `e1`, whose non-empty handles are fresh or reused
/// from the old entry; the arena dropped the old handles and holds the new.
pub proof fn lemma_frame_update(a0: Arena, a1: Arena, s0: Seq<(Ref, Ref)>, p: int, e1: (Ref, Ref))
    requires
        a0.wf(),
        a1.wf(),
        refs_ok(a0, s0),
        refs_distinct(s0),
        0 <= p < s0.len(),
        e1.0.len > 0 ==> e1.0 != e1.1,
        e1.0.len > 0 ==> !a0@.contains_key(e1.0) || entry_has(s0, p, e1.0),
        e1.1.len > 0 ==> !a0@.contains_key(e1.1) || entry_has(s0, p, e1.1),
        forall|r: Ref|
            #[trigger] a1@.contains_key(r) <==> ((a0@.contains_key(r) && !entry_has(s0, p, r)) || (r.len > 0 && (
            r == e1.0 || r == e1.1))),
        forall|r: Ref| #[trigger] a0@.contains_key(r) && !entry_has(s0, p, r) ==> a1@[r] == a0@[r],
    ensures
        frame(a0, a1, s0, s0.update(p, e1)),
        refs_ok(a1, s0.update(p, e1)),
        refs_distinct(s0.update(p, e1)),
        forall|q: int| 0 <= q < s0.len() && q != p ==> #[trigger] cview(a1, s0.update(p, e1))[q] == cview(a0, s0)[q],
        cview(a1, s0.update(p, e1))[p] == (a1.contents(e1.0), a1.contents(e1.1)),
        cview(a1, s0.update(p, e1)).len() == s0.len(),
{
    let s1 = s0.update(p, e1);
    // Handles of other entries are live in `a0` and differ from the old entry's.
    assert forall|q: int, r: Ref| 0 <= q < s0.len() && q != p && r.len > 0 && entry_has(s0, q, r) implies a0@.contains_key(r) && !entry_has(s0, p, r) by {
        assert(a0.valid_ref(s0[q].0) && a0.valid_ref(s0[q].1));
    }
    assert forall|q: int| 0 <= q < s1.len() implies a1.valid_ref(#[trigger] s1[q].0) && a1.valid_ref(s1[q].1) by {
        if q != p {
            assert(a0.valid_ref(s0[q].0) && a0.valid_ref(s0[q].1));
        }
    }
    assert forall|i: int, j: int| 0 <= i < s1.len() && 0 <= j < s1.len() && i != j implies {
        &&& (#[trigger] s1[i].0).len > 0 ==> s1[i].0 != (#[trigger] s1[j]).0 && s1[i].0 != s1[j].1
        &&& s1[i].1.len > 0 ==> s1[i].1 != s1[j].1 && s1[i].1 != s1[j].0
    } by {
        assert(s0[i].0.len > 0 ==> s0[i].0 != s0[j].0 && s0[i].0 != s0[j].1);
        assert(s0[i].1.len > 0 ==> s0[i].1 != s0[j].1 && s0[i].1 != s0[j].0);
        assert(s0[j].0.len > 0 ==> s0[j].0 != s0[i].0 && s0[j].0 != s0[i].1);
        assert(s0[j].1.len > 0 ==> s0[j].1 != s0[i].1 && s0[j].1 != s0[i].0);
        if i != p && j != p {
        } else if i == p {
            assert(a0.valid_ref(s0[j].0) && a0.valid_ref(s0[j].1));
        } else {
            assert(a0.valid_ref(s0[i].0) && a0.valid_ref(s0[i].1));
        }
    }
    assert forall|i: int| 0 <= i < s1.len() && (#[trigger] s1[i]).0.len > 0 implies s1[i].0 != s1[i].1 by {
        assert(s0[i].0.len > 0 ==> s0[i].0 != s0[i].1);
    }
    assert forall|r: Ref| #[trigger] a0@.contains_key(r) && !in_refs(s0, r) implies a1@.contains_key(r) && a1@[r] == a0@[r] by {
        lemma_live_nonempty(a0, r);
        if entry_has(s0, p, r) {
            lemma_in_refs_intro(s0, r, p);
        }
    }
    assert forall|r: Ref| #[trigger] a1@.contains_key(r) && !in_refs(s1, r) implies a0@.contains_key(r) && !in_refs(s0, r) by {
        if r.len > 0 && (r == e1.0 || r == e1.1) {
            lemma_in_refs_intro(s1, r, p);
        }
        if in_refs(s0, r) {
            let q = lemma_in_refs_witness(s0, r);
            if q != p {
                lemma_in_refs_intro(s1, r, q);
            }
        }
    }
    assert forall|r: Ref| r.len > 0 && #[trigger] in_refs(s1, r) implies in_refs(s0, r) || !a0@.contains_key(r) by {
        let q = lemma_in_refs_witness(s1, r);
        if q != p {
            lemma_in_refs_intro(s0, r, q);
        } else if a0@.contains_key(r) {
            lemma_in_refs_intro(s0, r, p);
        }
    }
    assert forall|q: int| 0 <= q < s0.len() && q != p implies #[trigger] cview(a1, s1)[q] == cview(a0, s0)[q] by {
        assert(a0.valid_ref(s0[q].0) && a0.valid_ref(s0[q].1));
        if s0[q].0.len > 0 {
            assert(!entry_has(s0, p, s0[q].0));
        }
        if s0[q].1.len > 0 {
            assert(!entry_has(s0, p, s0[q].1));
        }
    }
}


/// Entry `e` is inserted at `p`; its non-empty handles are fresh and now live.
pub proof fn lemma_frame_insert(a0: Arena, a1: Arena, s0: Seq<(Ref, Ref)>, p: int, e: (Ref, Ref))
    requires
        a0.wf(),
        a1.wf(),
        refs_ok(a0, s0),
        refs_distinct(s0),
        0 <= p <= s0.len(),
        e.0.len > 0 ==> !a0@.contains_key(e.0) && e.0 != e.1,
        e.1.len > 0 ==> !a0@.contains_key(e.1),
        forall|r: Ref|
            #[trigger] a1@.contains_key(r) <==> (a0@.contains_key(r) || (r.len > 0 && (r == e.0 || r == e.1))),
        forall|r: Ref| #[trigger] a0@.contains_key(r) ==> a1@[r] == a0@[r],
    ensures
        frame(a0, a1, s0, s0.insert(p, e)),
        refs_ok(a1, s0.insert(p, e)),
        refs_distinct(s0.insert(p, e)),
        cview(a1, s0.insert(p, e)) == cview(a0, s0).insert(p, (a1.contents(e.0), a1.contents(e.1))),
{
    let s1 = s0.insert(p, e);
    assert forall|q: int| 0 <= q < s0.len() implies a1.valid_ref(#[trigger] s0[q].0) && a1.valid_ref(s0[q].1)
        && a1.contents(s0[q].0) == a0.contents(s0[q].0) && a1.contents(s0[q].1) == a0.contents(s0[q].1) by {
        assert(a0.valid_ref(s0[q].0) && a0.valid_ref(s0[q].1));
    }
    assert forall|q: int| 0 <= q < s1.len() implies a1.valid_ref(#[trigger] s1[q].0) && a1.valid_ref(s1[q].1) by {
        if q < p {
            assert(s1[q] == s0[q]);
        } else if q > p {
            assert(s1[q] == s0[q - 1]);
        }
    }
    assert forall|i: int, j: int| 0 <= i < s1.len() && 0 <= j < s1.len() && i != j implies {
        &&& (#[trigger] s1[i].0).len > 0 ==> s1[i].0 != (#[trigger] s1[j]).0 && s1[i].0 != s1[j].1
        &&& s1[i].1.len > 0 ==> s1[i].1 != s1[j].1 && s1[i].1 != s1[j].0
    } by {
        let i0 = if i < p { i } else { i - 1 };
        let j0 = if j < p { j } else { j - 1 };
        if i != p && j != p {
            assert(s1[i] == s0[i0] && s1[j] == s0[j0]);
            assert(s0[i0].0.len > 0 ==> s0[i0].0 != s0[j0].0 && s0[i0].0 != s0[j0].1);
            assert(s0[i0].1.len > 0 ==> s0[i0].1 != s0[j0].1 && s0[i0].1 != s0[j0].0);
        } else if i == p {
            assert(s1[j] == s0[j0]);
            assert(a0.valid_ref(s0[j0].0) && a0.valid_ref(s0[j0].1));
        } else {
            assert(s1[i] == s0[i0]);
            assert(a0.valid_ref(s0[i0].0) && a0.valid_ref(s0[i0].1));
        }
    }
    assert forall|i: int| 0 <= i < s1.len() && (#[trigger] s1[i]).0.len > 0 implies s1[i].0 != s1[i].1 by {
        if i < p {
            assert(s1[i] == s0[i]);
            assert(s0[i].0.len > 0 ==> s0[i].0 != s0[i].1);
        } else if i > p {
            assert(s1[i] == s0[i - 1]);
            assert(s0[i - 1].0.len > 0 ==> s0[i - 1].0 != s0[i - 1].1);
        }
    }
    assert forall|r: Ref| #[trigger] a1@.contains_key(r) && !in_refs(s1, r) implies a0@.contains_key(r) && !in_refs(s0, r) by {
        if r.len > 0 && (r == e.0 || r == e.1) {
            lemma_in_refs_intro(s1, r, p);
        }
        if in_refs(s0, r) {
            let q = lemma_in_refs_witness(s0, r);
            if q < p {
                lemma_in_refs_intro(s1, r, q);
            } else {
                assert(s1[q + 1] == s0[q]);
                lemma_in_refs_intro(s1, r, q + 1);
            }
        }
    }
    assert forall|r: Ref| r.len > 0 && #[trigger] in_refs(s1, r) implies in_refs(s0, r) || !a0@.contains_key(r) by {
        let q = lemma_in_refs_witness(s1, r);
        if q < p {
            lemma_in_refs_intro(s0, r, q);
        } else if q > p {
            assert(s1[q] == s0[q - 1]);
            lemma_in_refs_intro(s0, r, q - 1);
        }
    }
    assert(cview(a1, s1) =~= cview(a0, s0).insert(p, (a1.contents(e.0), a1.contents(e.1))));
}

/// Entry `p` is removed and its handles freed.
pub proof fn lemma_frame_remove(a0: Arena, a1: Arena, s0: Seq<(Ref, Ref)>, p: int)
    requires
        a0.wf(),
        a1.wf(),
        refs_ok(a0, s0),
        refs_distinct(s0),
        0 <= p < s0.len(),
        forall|r: Ref| #[trigger] a1@.contains_key(r) <==> (a0@.contains_key(r) && !entry_has(s0, p, r)),
        forall|r: Ref| #[trigger] a1@.contains_key(r) ==> a1@[r] == a0@[r],
    ensures
        frame(a0, a1, s0, s0.remove(p)),
        refs_ok(a1, s0.remove(p)),
        refs_distinct(s0.remove(p)),
        cview(a1, s0.remove(p)) == cview(a0, s0).remove(p),
{
    let s1 = s0.remove(p);
    assert forall|q: int| 0 <= q < s0.len() && q != p implies a1.valid_ref(#[trigger] s0[q].0) && a1.valid_ref(s0[q].1)
        && a1.contents(s0[q].0) == a0.contents(s0[q].0) && a1.contents(s0[q].1) == a0.contents(s0[q].1) by {
        assert(a0.valid_ref(s0[q].0) && a0.valid_ref(s0[q].1));
        assert(s0[q].0.len > 0 ==> s0[q].0 != s0[p].0 && s0[q].0 != s0[p].1);
        assert(s0[q].1.len > 0 ==> s0[q].1 != s0[p].1 && s0[q].1 != s0[p].0);
        let k = s0[q].0;
        let v = s0[q].1;
        if k.len > 0 {
            assert(!entry_has(s0, p, k));
            assert(a1@.contains_key(k));
            assert(a1@[k] == a0@[k]);
        }
        if v.len > 0 {
            assert(!entry_has(s0, p, v));
            assert(a1@.contains_key(v));
            assert(a1@[v] == a0@[v]);
        }
    }
    assert forall|q: int| 0 <= q < s1.len() implies a1.valid_ref(#[trigger] s1[q].0) && a1.valid_ref(s1[q].1) by {
        if q < p {
            assert(s1[q] == s0[q]);
        } else {
            assert(s1[q] == s0[q + 1]);
        }
    }
    assert forall|i: int, j: int| 0 <= i < s1.len() && 0 <= j < s1.len() && i != j implies {
        &&& (#[trigger] s1[i].0).len > 0 ==> s1[i].0 != (#[trigger] s1[j]).0 && s1[i].0 != s1[j].1
        &&& s1[i].1.len > 0 ==> s1[i].1 != s1[j].1 && s1[i].1 != s1[j].0
    } by {
        let i0 = if i < p { i } else { i + 1 };
        let j0 = if j < p { j } else { j + 1 };
        assert(s1[i] == s0[i0] && s1[j] == s0[j0]);
        assert(s0[i0].0.len > 0 ==> s0[i0].0 != s0[j0].0 && s0[i0].0 != s0[j0].1);
        assert(s0[i0].1.len > 0 ==> s0[i0].1 != s0[j0].1 && s0[i0].1 != s0[j0].0);
    }
    assert forall|i: int| 0 <= i < s1.len() && (#[trigger] s1[i]).0.len > 0 implies s1[i].0 != s1[i].1 by {
        let i0 = if i < p { i } else { i + 1 };
        assert(s1[i] == s0[i0]);
        assert(s0[i0].0.len > 0 ==> s0[i0].0 != s0[i0].1);
    }
    assert forall|r: Ref| #[trigger] a0@.contains_key(r) && !in_refs(s0, r) implies a1@.contains_key(r) && a1@[r] == a0@[r] by {
        if entry_has(s0, p, r) {
            lemma_in_refs_intro(s0, r, p);
        }
    }
    assert forall|r: Ref| #[trigger] a1@.contains_key(r) && !in_refs(s1, r) implies a0@.contains_key(r) && !in_refs(s0, r) by {
        if in_refs(s0, r) {
            let q = lemma_in_refs_witness(s0, r);
            if q < p {
                lemma_in_refs_intro(s1, r, q);
            } else if q > p {
                assert(s1[q - 1] == s0[q]);
                lemma_in_refs_intro(s1, r, q - 1);
            }
        }
    }
    assert forall|r: Ref| r.len > 0 && #[trigger] in_refs(s1, r) implies in_refs(s0, r) || !a0@.contains_key(r) by {
        let q = lemma_in_refs_witness(s1, r);
        let q0 = if q < p { q } else { q + 1 };
        assert(s1[q] == s0[q0]);
        lemma_in_refs_intro(s0, r, q0);
    }
    assert(cview(a1, s1) =~= cview(a0, s0).remove(p));
}

/// Frames compose in sequence.
pub proof fn lemma_frame_trans(
    a0: Arena,
    a1: Arena,
    a2: Arena,
    s0: Seq<(Ref, Ref)>,
    s1: Seq<(Ref, Ref)>,
    s2: Seq<(Ref, Ref)>,
)
    requires
        a0.wf(),
        a1.wf(),
        frame(a0, a1, s0, s1),
        frame(a1, a2, s1, s2),
    ensures
        frame(a0, a2, s0, s2),
{
    assert forall|r: Ref| #[trigger] a0@.contains_key(r) && !in_refs(s0, r) implies a2@.contains_key(r) && a2@[r] == a0@[r] by {
        lemma_live_nonempty(a0, r);
        assert(a1@.contains_key(r));
        if in_refs(s1, r) {
            assert(in_refs(s0, r) || !a0@.contains_key(r));
        }
    }
    assert forall|r: Ref| r.len > 0 && #[trigger] in_refs(s2, r) implies in_refs(s0, r) || !a0@.contains_key(r) by {
        if in_refs(s1, r) {
        } else if a0@.contains_key(r) && !in_refs(s0, r) {
            assert(a1@.contains_key(r));
        }
    }
}

/// An edit of one child's entries, seen from the whole sequence.
pub proof fn lemma_frame_compose(
    a0: Arena,
    a1: Arena,
    pre: Seq<(Ref, Ref)>,
    c0: Seq<(Ref, Ref)>,
    c1: Seq<(Ref, Ref)>,
    post: Seq<(Ref, Ref)>,
)
    requires
        a0.wf(),
        a1.wf(),
        refs_ok(a0, pre + c0 + post),
        refs_distinct(pre + c0 + post),
        frame(a0, a1, c0, c1),
        refs_ok(a1, c1),
        refs_distinct(c1),
    ensures
        frame(a0, a1, pre + c0 + post, pre + c1 + post),
        refs_ok(a1, pre + c1 + post),
        refs_distinct(pre + c1 + post),
        cview(a1, pre) == cview(a0, pre),
        cview(a1, post) == cview(a0, post),
{
    let s0 = pre + c0 + post;
    let s1 = pre + c1 + post;
    let lp = pre.len() as int;
    let l0 = c0.len() as int;
    let l1 = c1.len() as int;
    // Index of an outside entry of s1 within s0.
    assert forall|q: int| 0 <= q < s1.len() && !(lp <= q < lp + l1) implies #[trigger] s1[q] == s0[
        if q < lp { q } else { q - l1 + l0 }] by {}
    assert forall|q: int| 0 <= q < s1.len() && lp <= q < lp + l1 implies #[trigger] s1[q] == c1[q - lp] by {}
    assert forall|q: int| 0 <= q < l0 implies #[trigger] c0[q] == s0[q + lp] by {}
    // Outside handles are live, untouched and not in c0.
    assert forall|q0: int, r: Ref|
        0 <= q0 < s0.len() && !(lp <= q0 < lp + l0) && r.len > 0 && entry_has(s0, q0, r) implies a0@.contains_key(r)
        && !in_refs(c0, r) && a1@.contains_key(r) && a1@[r] == a0@[r] by {
        assert(a0.valid_ref(s0[q0].0) && a0.valid_ref(s0[q0].1));
        if in_refs(c0, r) {
            let q = lemma_in_refs_witness(c0, r);
            let qq = q + lp;
            assert(s0[qq] == c0[q]);
            assert(s0[q0].0.len > 0 ==> s0[q0].0 != s0[qq].0 && s0[q0].0 != s0[qq].1);
            assert(s0[q0].1.len > 0 ==> s0[q0].1 != s0[qq].1 && s0[q0].1 != s0[qq].0);
        }
    }
    assert forall|q: int| 0 <= q < s1.len() implies a1.valid_ref(#[trigger] s1[q].0) && a1.valid_ref(s1[q].1) by {
        if lp <= q < lp + l1 {
            assert(a1.valid_ref(c1[q - lp].0) && a1.valid_ref(c1[q - lp].1));
        } else {
            let q0 = if q < lp { q } else { q - l1 + l0 };
            assert(s1[q] == s0[q0]);
            assert(entry_has(s0, q0, s0[q0].0) && entry_has(s0, q0, s0[q0].1));
        }
    }
    assert forall|i: int, j: int| 0 <= i < s1.len() && 0 <= j < s1.len() && i != j implies {
        &&& (#[trigger] s1[i].0).len > 0 ==> s1[i].0 != (#[trigger] s1[j]).0 && s1[i].0 != s1[j].1
        &&& s1[i].1.len > 0 ==> s1[i].1 != s1[j].1 && s1[i].1 != s1[j].0
    } by {
        let ini = lp <= i < lp + l1;
        let inj = lp <= j < lp + l1;
        let i0 = if i < lp { i } else { i - l1 + l0 };
        let j0 = if j < lp { j } else { j - l1 + l0 };
        if ini && inj {
            assert(s1[i] == c1[i - lp] && s1[j] == c1[j - lp]);
            assert(c1[i - lp].0.len > 0 ==> c1[i - lp].0 != c1[j - lp].0 && c1[i - lp].0 != c1[j - lp].1);
            assert(c1[i - lp].1.len > 0 ==> c1[i - lp].1 != c1[j - lp].1 && c1[i - lp].1 != c1[j - lp].0);
        } else if !ini && !inj {
            assert(s1[i] == s0[i0] && s1[j] == s0[j0]);
            assert(s0[i0].0.len > 0 ==> s0[i0].0 != s0[j0].0 && s0[i0].0 != s0[j0].1);
            assert(s0[i0].1.len > 0 ==> s0[i0].1 != s0[j0].1 && s0[i0].1 != s0[j0].0);
        } else {
            // One inside the edited child, one outside.
            let (x, y, y0) = if ini { (i - lp, j, j0) } else { (j - lp, i, i0) };
            assert(s1[y] == s0[y0]);
            assert forall|r: Ref| r.len > 0 && entry_has(c1, x, r) && entry_has(s0, y0, r) implies false by {
                lemma_in_refs_intro(c1, r, x);
                assert(a0@.contains_key(r) && !in_refs(c0, r));
            }
            assert(entry_has(c1, x, c1[x].0) && entry_has(c1, x, c1[x].1));
            assert(entry_has(s0, y0, s0[y0].0) && entry_has(s0, y0, s0[y0].1));
        }
    }
    assert forall|i: int| 0 <= i < s1.len() && (#[trigger] s1[i]).0.len > 0 implies s1[i].0 != s1[i].1 by {
        if lp <= i < lp + l1 {
            assert(s1[i] == c1[i - lp]);
            assert(c1[i - lp].0.len > 0 ==> c1[i - lp].0 != c1[i - lp].1);
        } else {
            let i0 = if i < lp { i } else { i - l1 + l0 };
            assert(s1[i] == s0[i0]);
            assert(s0[i0].0.len > 0 ==> s0[i0].0 != s0[i0].1);
        }
    }
    assert forall|r: Ref| #[trigger] a0@.contains_key(r) && !in_refs(s0, r) implies a1@.contains_key(r) && a1@[r] == a0@[r] by {
        if in_refs(c0, r) {
            let q = lemma_in_refs_witness(c0, r);
            lemma_in_refs_intro(s0, r, q + lp);
        }
    }
    assert forall|r: Ref| #[trigger] a1@.contains_key(r) && !in_refs(s1, r) implies a0@.contains_key(r) && !in_refs(s0, r) by {
        if in_refs(c1, r) {
            let q = lemma_in_refs_witness(c1, r);
            lemma_in_refs_intro(s1, r, q + lp);
        }
        if in_refs(s0, r) {
            let q0 = lemma_in_refs_witness(s0, r);
            if lp <= q0 < lp + l0 {
                lemma_in_refs_intro(c0, r, q0 - lp);
            } else {
                let q = if q0 < lp { q0 } else { q0 + l1 - l0 };
                assert(s1[q] == s0[q0]);
                lemma_in_refs_intro(s1, r, q);
            }
        }
    }
    assert forall|r: Ref| r.len > 0 && #[trigger] in_refs(s1, r) implies in_refs(s0, r) || !a0@.contains_key(r) by {
        let q = lemma_in_refs_witness(s1, r);
        if lp <= q < lp + l1 {
            lemma_in_refs_intro(c1, r, q - lp);
            if in_refs(c0, r) {
                let q2 = lemma_in_refs_witness(c0, r);
                lemma_in_refs_intro(s0, r, q2 + lp);
            }
        } else {
            let q0 = if q < lp { q } else { q - l1 + l0 };
            assert(s1[q] == s0[q0]);
            lemma_in_refs_intro(s0, r, q0);
        }
    }
    assert forall|q: int| 0 <= q < pre.len() implies #[trigger] cview(a1, pre)[q] == cview(a0, pre)[q] by {
        assert(s0[q] == pre[q]);
        assert(entry_has(s0, q, s0[q].0) && entry_has(s0, q, s0[q].1));
        assert(a0.valid_ref(s0[q].0) && a0.valid_ref(s0[q].1));
    }
    assert forall|q: int| 0 <= q < post.len() implies #[trigger] cview(a1, post)[q] == cview(a0, post)[q] by {
        let q0 = q + lp + l0;
        assert(s0[q0] == post[q]);
        assert(entry_has(s0, q0, s0[q0].0) && entry_has(s0, q0, s0[q0].1));
        assert(a0.valid_ref(s0[q0].0) && a0.valid_ref(s0[q0].1));
    }
    assert(cview(a1, pre) =~= cview(a0, pre));
    assert(cview(a1, post) =~= cview(a0, post));
}


/// `child_pre` only reads the keys, values and children before child `j`.
pub proof fn lemma_pre_agree(p: Node, q: Node, h: nat, j: int)
    requires
        h > 0,
        internal_shape(p),
        internal_shape(q),
        0 <= j <= p.keys@.len(),
        j <= q.keys@.len(),
        p.keys@.subrange(0, j) == q.keys@.subrange(0, j),
        p.vals@.subrange(0, j) == q.vals@.subrange(0, j),
        p.children@.subrange(0, j) == q.children@.subrange(0, j),
    ensures
        child_pre(p, h, j) == child_pre(q, h, j),
{
    if j > 0 {
        assert(p.keys@.subrange(0, j - 1) =~= p.keys@.subrange(0, j).subrange(0, j - 1));
        assert(q.keys@.subrange(0, j - 1) =~= q.keys@.subrange(0, j).subrange(0, j - 1));
        assert(p.vals@.subrange(0, j - 1) =~= p.vals@.subrange(0, j).subrange(0, j - 1));
        assert(q.vals@.subrange(0, j - 1) =~= q.vals@.subrange(0, j).subrange(0, j - 1));
        assert(p.keys@[j - 1] == p.keys@.subrange(0, j)[j - 1]);
        assert(q.keys@[j - 1] == q.keys@.subrange(0, j)[j - 1]);
        assert(p.vals@[j - 1] == p.vals@.subrange(0, j)[j - 1]);
        assert(q.vals@[j - 1] == q.vals@.subrange(0, j)[j - 1]);
        assert forall|x: int| 0 <= x <= j - 1 implies p.children@[x] == q.children@[x] by {
            assert(p.children@[x] == p.children@.subrange(0, j)[x]);
            assert(q.children@[x] == q.children@.subrange(0, j)[x]);
        }
        lemma_items_agree(
            p.keys@.subrange(0, j - 1),
            p.vals@.subrange(0, j - 1),
            p.children@,
            q.children@,
            h,
        );
    }
}

/// `child_post` only reads the keys, values and children after child `j`.
pub proof fn lemma_post_agree(p: Node, q: Node, h: nat, j: int, j2: int)
    requires
        internal_shape(p),
        internal_shape(q),
        0 <= j <= p.keys@.len(),
        0 <= j2 <= q.keys@.len(),
        p.keys@.subrange(j, p.keys@.len() as int) == q.keys@.subrange(j2, q.keys@.len() as int),
        p.vals@.subrange(j, p.vals@.len() as int) == q.vals@.subrange(j2, q.vals@.len() as int),
        p.children@.subrange(j + 1, p.children@.len() as int) == q.children@.subrange(j2 + 1, q.children@.len() as int),
    ensures
        child_post(p, h, j) == child_post(q, h, j2),
{
    let pk = p.keys@.subrange(j, p.keys@.len() as int);
    let qk = q.keys@.subrange(j2, q.keys@.len() as int);
    assert(pk.len() == qk.len());
    if j < p.keys@.len() {
        assert(p.keys@[j] == pk[0] && q.keys@[j2] == qk[0]);
        assert(p.vals@[j] == p.vals@.subrange(j, p.vals@.len() as int)[0]);
        assert(q.vals@[j2] == q.vals@.subrange(j2, q.vals@.len() as int)[0]);
        assert(p.keys@.subrange(j + 1, p.keys@.len() as int) =~= pk.subrange(1, pk.len() as int));
        assert(q.keys@.subrange(j2 + 1, q.keys@.len() as int) =~= qk.subrange(1, qk.len() as int));
        assert(p.vals@.subrange(j + 1, p.vals@.len() as int) =~= p.vals@.subrange(j, p.vals@.len() as int).subrange(1, pk.len() as int));
        assert(q.vals@.subrange(j2 + 1, q.vals@.len() as int) =~= q.vals@.subrange(j2, q.vals@.len() as int).subrange(1, qk.len() as int));
    }
}

/// The entries of an internal node around children `i - 1` and `i`.
pub proof fn lemma_two_children(p: Node, h: nat, i: int)
    requires
        h > 0,
        internal_shape(p),
        1 <= i <= p.keys@.len(),
    ensures
        inorder(p, h) == child_pre(p, h, i - 1) + inorder(p.children@[i - 1], (h - 1) as nat) + seq![
            (p.keys@[i - 1], p.vals@[i - 1]),
        ] + inorder(p.children@[i], (h - 1) as nat) + child_post(p, h, i),
{
    lemma_child_decomp(p, h, i - 1);
    let k = p.keys@.len() as int;
    let ks2 = p.keys@.subrange(i, k);
    let vs2 = p.vals@.subrange(i, k);
    let cs2 = p.children@.subrange(i, k + 1);
    assert(p.keys@.subrange(i - 1 + 1, k) =~= ks2);
    assert(p.vals@.subrange(i - 1 + 1, k) =~= vs2);
    assert(p.children@.subrange(i - 1 + 1, k + 1) =~= cs2);
    if i == k {
        assert(cs2[0] == p.children@[i]);
        assert(items(ks2, vs2, cs2, h) == inorder(p.children@[i], (h - 1) as nat));
    } else {
        let e = Seq::<Ref>::empty();
        lemma_items_concat(
            e,
            e,
            seq![p.children@[i]],
            p.keys@[i],
            p.vals@[i],
            p.keys@.subrange(i + 1, k),
            p.vals@.subrange(i + 1, k),
            p.children@.subrange(i + 1, k + 1),
            h,
        );
        assert(e + seq![p.keys@[i]] + p.keys@.subrange(i + 1, k) =~= ks2);
        assert(e + seq![p.vals@[i]] + p.vals@.subrange(i + 1, k) =~= vs2);
        assert(seq![p.children@[i]] + p.children@.subrange(i + 1, k + 1) =~= cs2);
        assert(items(e, e, seq![p.children@[i]], h) == inorder(p.children@[i], (h - 1) as nat));
    }
    let x = child_pre(p, h, i - 1);
    let y = inorder(p.children@[i - 1], (h - 1) as nat);
    let z = seq![(p.keys@[i - 1], p.vals@[i - 1])];
    let w = inorder(p.children@[i], (h - 1) as nat);
    let v = child_post(p, h, i);
    assert(x + y + (z + (w + v)) =~= x + y + z + w + v);
}

/// Replacing key and value `i` of a node replaces one entry.
pub proof fn lemma_update_entry(p: Node, q: Node, h: nat, i: int, k: Ref, v: Ref)
    requires
        h > 0 ==> internal_shape(p),
        p.keys@.len() == p.vals@.len(),
        0 <= i < p.keys@.len(),
        q.keys@ == p.keys@.update(i, k),
        q.vals@ == p.vals@.update(i, v),
        q.children@ == p.children@,
    ensures
        inorder(q, h) == inorder(p, h).update(key_pos(p, h, i), (k, v)),
        key_pos(q, h, i) == key_pos(p, h, i),
{
    if h == 0 {
        assert(inorder(q, h) =~= inorder(p, h).update(key_pos(p, h, i), (k, v)));
    } else {
        lemma_child_decomp(p, h, i + 1);
        lemma_child_decomp(q, h, i + 1);
        lemma_key_pos(p, h, i);
        assert(q.keys@.subrange(0, i) =~= p.keys@.subrange(0, i));
        assert(q.vals@.subrange(0, i) =~= p.vals@.subrange(0, i));
        assert(p.keys@.subrange(i + 1, p.keys@.len() as int) =~= q.keys@.subrange(i + 1, q.keys@.len() as int));
        assert(p.vals@.subrange(i + 1, p.vals@.len() as int) =~= q.vals@.subrange(i + 1, q.vals@.len() as int));
        lemma_post_agree(p, q, h, i + 1, i + 1);
        let a = items(p.keys@.subrange(0, i), p.vals@.subrange(0, i), p.children@, h);
        assert(child_pre(p, h, i + 1) =~= a + seq![(p.keys@[i], p.vals@[i])]);
        assert(child_pre(q, h, i + 1) =~= a + seq![(k, v)]);
        assert(inorder(q, h) =~= inorder(p, h).update(key_pos(p, h, i), (k, v)));
    }
}

/// Replacing child `i` of a node replaces that child's entries.
pub proof fn lemma_update_child(p: Node, q: Node, h: nat, i: int)
    requires
        h > 0,
        internal_shape(p),
        0 <= i <= p.keys@.len(),
        q.keys@ == p.keys@,
        q.vals@ == p.vals@,
        q.children@ == p.children@.update(i, q.children@[i]),
    ensures
        inorder(p, h) == child_pre(p, h, i) + inorder(p.children@[i], (h - 1) as nat) + child_post(p, h, i),
        inorder(q, h) == child_pre(p, h, i) + inorder(q.children@[i], (h - 1) as nat) + child_post(p, h, i),
{
    lemma_child_decomp(p, h, i);
    lemma_child_decomp(q, h, i);
    assert(p.children@.subrange(0, i) =~= q.children@.subrange(0, i));
    assert(p.keys@.subrange(0, i) =~= q.keys@.subrange(0, i));
    assert(p.vals@.subrange(0, i) =~= q.vals@.subrange(0, i));
    lemma_pre_agree(p, q, h, i);
    assert(p.keys@.subrange(i, p.keys@.len() as int) =~= q.keys@.subrange(i, q.keys@.len() as int));
    assert(p.vals@.subrange(i, p.vals@.len() as int) =~= q.vals@.subrange(i, q.vals@.len() as int));
    assert(p.children@.subrange(i + 1, p.children@.len() as int) =~= q.children@.subrange(i + 1, q.children@.len() as int));
    lemma_post_agree(p, q, h, i, i);
}

/// Splitting a full child around its middle key keeps the entries.
#[verifier::rlimit(30)]
pub proof fn lemma_split(p: Node, q: Node, c: Node, l: Node, r: Node, h: nat, i: int)
    requires
        h > 0,
        internal_shape(p),
        0 <= i <= p.keys@.len(),
        c == p.children@[i],
        c.keys@.len() == MAX_KEYS,
        c.vals@.len() == MAX_KEYS,
        h > 1 ==> c.children@.len() == MAX_KEYS + 1,
        l.keys@ == c.keys@.subrange(0, T - 1),
        l.vals@ == c.vals@.subrange(0, T - 1),
        r.keys@ == c.keys@.subrange(T as int, MAX_KEYS as int),
        r.vals@ == c.vals@.subrange(T as int, MAX_KEYS as int),
        h > 1 ==> l.children@ == c.children@.subrange(0, T as int),
        h > 1 ==> r.children@ == c.children@.subrange(T as int, MAX_KEYS + 1),
        q.keys@ == p.keys@.insert(i, c.keys@[T - 1]),
        q.vals@ == p.vals@.insert(i, c.vals@[T - 1]),
        q.children@ == p.children@.update(i, l).insert(i + 1, r),
    ensures
        inorder(q, h) == inorder(p, h),
        inorder(c, (h - 1) as nat) == inorder(l, (h - 1) as nat) + seq![(c.keys@[T - 1], c.vals@[T - 1])] + inorder(
            r,
            (h - 1) as nat,
        ),
{
    let hc = (h - 1) as nat;
    let mk = c.keys@[T - 1];
    let mv = c.vals@[T - 1];
    // The child splits into its halves.
    if hc == 0 {
        assert(c.keys@ =~= l.keys@ + seq![mk] + r.keys@);
        assert(c.vals@ =~= l.vals@ + seq![mv] + r.vals@);
        lemma_zip_concat(l.keys@, l.vals@, mk, mv, r.keys@, r.vals@);
    } else {
        assert(c.keys@ =~= l.keys@ + seq![mk] + r.keys@);
        assert(c.vals@ =~= l.vals@ + seq![mv] + r.vals@);
        assert(c.children@ =~= l.children@ + r.children@);
        lemma_items_concat(l.keys@, l.vals@, l.children@, mk, mv, r.keys@, r.vals@, r.children@, hc);
    }
    // The parent gains the middle key between the halves.
    let ks = p.keys@;
    let vs = p.vals@;
    let cs = p.children@;
    let k = ks.len() as int;
    let ks1 = ks.subrange(0, i);
    let vs1 = vs.subrange(0, i);
    let cs1 = cs.subrange(0, i) + seq![l];
    let ks2 = ks.subrange(i, k);
    let vs2 = vs.subrange(i, k);
    let cs2 = seq![r] + cs.subrange(i + 1, k + 1);
    assert(q.keys@ =~= ks1 + seq![mk] + ks2);
    assert(q.vals@ =~= vs1 + seq![mv] + vs2);
    assert(q.children@ =~= cs1 + cs2);
    lemma_items_concat(ks1, vs1, cs1, mk, mv, ks2, vs2, cs2, h);
    // Left part: the entries before child i, then the left half.
    lemma_child_decomp(p, h, i);
    if i == 0 {
        assert(items(ks1, vs1, cs1, h) == inorder(l, hc));
    } else {
        assert(ks1.drop_last() =~= ks.subrange(0, i - 1));
        assert(vs1.subrange(0, i - 1) =~= vs.subrange(0, i - 1));
        assert forall|x: int| 0 <= x <= i - 1 implies cs1[x] == cs[x] by {}
        lemma_items_agree(ks.subrange(0, i - 1), vs.subrange(0, i - 1), cs1, cs, h);
        assert(items(ks1, vs1, cs1, h) == child_pre(p, h, i) + inorder(l, hc));
    }
    // Right part: the right half, then the entries after child i.
    if i == k {
        assert(items(ks2, vs2, cs2, h) == inorder(r, hc));
        assert(child_post(p, h, i) == Seq::<(Ref, Ref)>::empty());
    } else {
        let e = Seq::<Ref>::empty();
        lemma_items_concat(
            e,
            e,
            seq![r],
            ks[i],
            vs[i],
            ks.subrange(i + 1, k),
            vs.subrange(i + 1, k),
            cs.subrange(i + 1, k + 1),
            h,
        );
        assert(e + seq![ks[i]] + ks.subrange(i + 1, k) =~= ks2);
        assert(e + seq![vs[i]] + vs.subrange(i + 1, k) =~= vs2);
        assert(items(e, e, seq![r], h) == inorder(r, hc));
        assert(items(ks2, vs2, cs2, h) == inorder(r, hc) + child_post(p, h, i));
    }
    let x = child_pre(p, h, i);
    let a = inorder(l, hc);
    let m = seq![(mk, mv)];
    let b = inorder(r, hc);
    let y = child_post(p, h, i);
    if i == 0 {
        assert(x =~= Seq::<(Ref, Ref)>::empty());
    }
    assert((x + a) + m + (b + y) =~= x + (a + m + b) + y);
}


/// The key lower bound of `wf_node` is only a bound.
pub proof fn lemma_wf_min(n: Node, h: nat, m1: nat, m2: nat)
    requires
        wf_node(n, h, m1),
        m2 <= n.keys@.len(),
    ensures
        wf_node(n, h, m2),
{
}

/// Replacing child `i` by a well-formed node of the same height keeps the
/// parent well formed.
pub proof fn lemma_wf_replace_child(p: Node, q: Node, h: nat, min: nat, i: int)
    requires
        wf_node(p, h, min),
        h > 0,
        0 <= i < p.children@.len(),
        q.keys@ == p.keys@,
        q.vals@ == p.vals@,
        q.is_leaf == p.is_leaf,
        q.children@ == p.children@.update(i, q.children@[i]),
        wf_node(q.children@[i], (h - 1) as nat, (T - 1) as nat),
    ensures
        wf_node(q, h, min),
{
    assert forall|j: int| 0 <= j < q.children@.len() implies wf_node(#[trigger] q.children@[j], (h - 1) as nat, (T - 1) as nat) by {
        if j != i {
            assert(q.children@[j] == p.children@[j]);
        }
    }
}

/// Handles of a middle part of a sequence are readable and distinct.
pub proof fn lemma_sub_refs(a: Arena, pre: Seq<(Ref, Ref)>, c: Seq<(Ref, Ref)>, post: Seq<(Ref, Ref)>)
    requires
        refs_ok(a, pre + c + post),
        refs_distinct(pre + c + post),
    ensures
        refs_ok(a, c),
        refs_distinct(c),
{
    let s = pre + c + post;
    let o = pre.len() as int;
    assert forall|q: int| 0 <= q < c.len() implies a.valid_ref(#[trigger] c[q].0) && a.valid_ref(c[q].1) by {
        assert(s[q + o] == c[q]);
        assert(a.valid_ref(s[q + o].0) && a.valid_ref(s[q + o].1));
    }
    assert forall|i: int, j: int| 0 <= i < c.len() && 0 <= j < c.len() && i != j implies {
        &&& (#[trigger] c[i].0).len > 0 ==> c[i].0 != (#[trigger] c[j]).0 && c[i].0 != c[j].1
        &&& c[i].1.len > 0 ==> c[i].1 != c[j].1 && c[i].1 != c[j].0
    } by {
        assert(s[i + o] == c[i] && s[j + o] == c[j]);
        assert(s[i + o].0.len > 0 ==> s[i + o].0 != s[j + o].0 && s[i + o].0 != s[j + o].1);
        assert(s[i + o].1.len > 0 ==> s[i + o].1 != s[j + o].1 && s[i + o].1 != s[j + o].0);
    }
    assert forall|i: int| 0 <= i < c.len() && (#[trigger] c[i]).0.len > 0 implies c[i].0 != c[i].1 by {
        assert(s[i + o] == c[i]);
        assert(s[i + o].0.len > 0 ==> s[i + o].0 != s[i + o].1);
    }
}


/// The parent after a split of its full child `i` is well formed.
pub proof fn lemma_wf_split(p: Node, q: Node, c: Node, l: Node, r: Node, h: nat, i: int)
    requires
        h > 0,
        wf_node(p, h, 0),
        p.keys@.len() < MAX_KEYS,
        0 <= i <= p.keys@.len(),
        c == p.children@[i],
        c.keys@.len() == MAX_KEYS,
        l.is_leaf == c.is_leaf,
        r.is_leaf == c.is_leaf,
        l.keys@ == c.keys@.subrange(0, T - 1),
        l.vals@ == c.vals@.subrange(0, T - 1),
        r.keys@ == c.keys@.subrange(T as int, MAX_KEYS as int),
        r.vals@ == c.vals@.subrange(T as int, MAX_KEYS as int),
        h > 1 ==> l.children@ == c.children@.subrange(0, T as int),
        h > 1 ==> r.children@ == c.children@.subrange(T as int, MAX_KEYS + 1),
        h == 1 ==> l.children@.len() == 0 && r.children@.len() == 0,
        q.is_leaf == p.is_leaf,
        q.keys@ == p.keys@.insert(i, c.keys@[T - 1]),
        q.vals@ == p.vals@.insert(i, c.vals@[T - 1]),
        q.children@ == p.children@.update(i, l).insert(i + 1, r),
    ensures
        wf_node(q, h, 0),
        c.vals@.len() == MAX_KEYS,
        h > 1 ==> c.children@.len() == MAX_KEYS + 1,
{
    lemma_wf_child(p, h, 0, i);
    let hc = (h - 1) as nat;
    if hc > 0 {
        assert forall|j: int| 0 <= j < l.children@.len() implies wf_node(#[trigger] l.children@[j], (hc - 1) as nat, (T - 1) as nat) by {
            assert(l.children@[j] == c.children@[j]);
            lemma_wf_child(c, hc, (T - 1) as nat, j);
        }
        assert forall|j: int| 0 <= j < r.children@.len() implies wf_node(#[trigger] r.children@[j], (hc - 1) as nat, (T - 1) as nat) by {
            assert(r.children@[j] == c.children@[j + T]);
            lemma_wf_child(c, hc, (T - 1) as nat, j + T);
        }
    }
    assert(wf_node(l, hc, (T - 1) as nat));
    assert(wf_node(r, hc, (T - 1) as nat));
    assert forall|j: int| 0 <= j < q.children@.len() implies wf_node(#[trigger] q.children@[j], hc, (T - 1) as nat) by {
        if j < i {
            assert(q.children@[j] == p.children@[j]);
            lemma_wf_child(p, h, 0, j);
        } else if j > i + 1 {
            assert(q.children@[j] == p.children@[j - 1]);
            lemma_wf_child(p, h, 0, j - 1);
        }
    }
}

/// A fresh root above `c` has the entries of `c`.
pub proof fn lemma_new_root(p: Node, c: Node, h: nat)
    requires
        p.keys@.len() == 0,
        p.vals@.len() == 0,
        p.children@ == seq![c],
        !p.is_leaf,
        wf_node(c, h, 0),
        c.keys@.len() >= T - 1,
    ensures
        inorder(p, h + 1) == inorder(c, h),
        wf_node(p, h + 1, 0),
{
    lemma_wf_min(c, h, 0, (T - 1) as nat);
    assert(p.children@[0] == c);
}


/// A node with keys has entries; for an internal node the last entry is
/// the last entry of its last child and the first the first of its first.
pub proof fn lemma_ends(n: Node, h: nat, min: nat)
    requires
        wf_node(n, h, min),
        n.keys@.len() > 0,
    ensures
        inorder(n, h).len() > 0,
        h > 0 ==> inorder(n.children@[n.keys@.len() as int], (h - 1) as nat).len() > 0 ==> inorder(n, h).last()
            == inorder(n.children@[n.keys@.len() as int], (h - 1) as nat).last(),
        h > 0 ==> inorder(n.children@[0], (h - 1) as nat).len() > 0 ==> inorder(n, h)[0] == inorder(
            n.children@[0],
            (h - 1) as nat,
        )[0],
        h == 0 ==> inorder(n, h).last() == (n.keys@.last(), n.vals@[n.keys@.len() - 1]),
        h == 0 ==> inorder(n, h)[0] == (n.keys@[0], n.vals@[0]),
{
    lemma_key_pos(n, h, 0);
    if h > 0 {
        let k = n.keys@.len() as int;
        lemma_child_decomp(n, h, k);
        lemma_child_decomp(n, h, 0);
        assert(child_post(n, h, k) == Seq::<(Ref, Ref)>::empty());
        assert(child_pre(n, h, 0) == Seq::<(Ref, Ref)>::empty());
    }
}

/// Around key `i` of an internal node: its predecessor is the last entry
/// of child `i`, its successor the first entry of child `i + 1`.
pub proof fn lemma_key_neighbors(n: Node, h: nat, i: int)
    requires
        h > 0,
        wf_node(n, h, 0),
        0 <= i < n.keys@.len(),
    ensures
        inorder(n.children@[i], (h - 1) as nat).len() > 0,
        inorder(n.children@[i + 1], (h - 1) as nat).len() > 0,
        child_pre(n, h, i).len() + inorder(n.children@[i], (h - 1) as nat).len() == key_pos(n, h, i),
        child_pre(n, h, i + 1).len() == key_pos(n, h, i) + 1,
        0 < key_pos(n, h, i),
        key_pos(n, h, i) + 1 < inorder(n, h).len(),
        inorder(n, h)[key_pos(n, h, i) - 1] == inorder(n.children@[i], (h - 1) as nat).last(),
        inorder(n, h)[key_pos(n, h, i) + 1] == inorder(n.children@[i + 1], (h - 1) as nat)[0],
{
    let hc = (h - 1) as nat;
    let ks = n.keys@;
    let vs = n.vals@;
    let cs = n.children@;
    lemma_wf_child(n, h, 0, i);
    lemma_wf_child(n, h, 0, i + 1);
    lemma_ends(cs[i], hc, (T - 1) as nat);
    lemma_ends(cs[i + 1], hc, (T - 1) as nat);
    lemma_key_pos(n, h, i);
    lemma_child_decomp(n, h, i);
    lemma_child_decomp(n, h, i + 1);
    let l = inorder(cs[i], hc);
    let ks0 = ks.subrange(0, i);
    let vs0 = vs.subrange(0, i);
    if i > 0 {
        assert(ks0.drop_last() =~= ks.subrange(0, i - 1));
        assert(vs0.subrange(0, i - 1) =~= vs.subrange(0, i - 1));
    }
    assert(items(ks0, vs0, cs, h).len() == child_pre(n, h, i).len() + l.len());
    let s = inorder(n, h);
    let p = key_pos(n, h, i);
    assert(s[p - 1] == l.last());
    assert(s[p + 1] == inorder(cs[i + 1], hc)[0]);
}

/// Number of nodes in the subtree rooted at `n` (of height `h`).
pub open spec fn node_total(n: Node, h: nat) -> nat
    decreases h, 1nat, 0nat,
{
    if h == 0 {
        1
    } else {
        1 + nodes_sum(n.children@, n.keys@.len(), h)
    }
}

/// Number of nodes in the subtrees of children `cs[0..=k]` of a node of
/// height `h`.
pub open spec fn nodes_sum(cs: Seq<Node>, k: nat, h: nat) -> nat
    decreases h, 0nat, k,
{
    if h == 0 {
        0
    } else if k == 0 {
        node_total(cs[0], (h - 1) as nat)
    } else {
        nodes_sum(cs, (k - 1) as nat, h) + node_total(cs[k as int], (h - 1) as nat)
    }
}

/// A subtree whose nodes all hold a key has no more nodes than entries.
pub proof fn lemma_total_le(n: Node, h: nat)
    requires
        wf_node(n, h, 1),
    ensures
        node_total(n, h) <= inorder(n, h).len(),
    decreases h, 1nat, 0nat,
{
    if h > 0 {
        assert forall|i: int| 0 <= i < n.children@.len() implies wf_node(#[trigger] n.children@[i], (h - 1) as nat, 1) by {
            lemma_wf_child(n, h, 1, i);
            lemma_wf_min(n.children@[i], (h - 1) as nat, 1, (T - 1) as nat);
        }
        lemma_sum_le(n.keys@, n.vals@, n.children@, h);
    }
}

/// Over the first children: nodes plus separating keys stay within the
/// entries.
pub proof fn lemma_sum_le(ks: Seq<Ref>, vs: Seq<Ref>, cs: Seq<Node>, h: nat)
    requires
        h > 0,
        cs.len() > ks.len(),
        forall|i: int| 0 <= i < cs.len() ==> wf_node(#[trigger] cs[i], (h - 1) as nat, 1),
    ensures
        nodes_sum(cs, ks.len(), h) + ks.len() <= items(ks, vs, cs, h).len(),
    decreases h, 0nat, ks.len(),
{
    if ks.len() == 0 {
        lemma_total_le(cs[0], (h - 1) as nat);
    } else {
        lemma_sum_le(ks.drop_last(), vs.subrange(0, ks.len() - 1), cs, h);
        lemma_total_le(cs[ks.len() as int], (h - 1) as nat);
    }
}

/// The nodes under the first children are part of those under more.
pub proof fn lemma_sum_mono(cs: Seq<Node>, j: nat, k: nat, h: nat)
    requires
        h > 0,
        j <= k,
    ensures
        nodes_sum(cs, j, h) <= nodes_sum(cs, k, h),
        node_total(cs[k as int], (h - 1) as nat) <= nodes_sum(cs, k, h),
    decreases k,
{
    if j < k {
        lemma_sum_mono(cs, j, (k - 1) as nat, h);
    }
}

/// Key `j` of child `i`: the child region of an internal node.
pub proof fn lemma_child_bounds(a: Arena, n: Node, h: nat, i: int)
    requires
        h > 0,
        internal_shape(n),
        0 <= i <= n.keys@.len(),
        sorted_c(cview(a, inorder(n, h))),
    ensures
        forall|q: int|
            0 <= q < inorder(n.children@[i], (h - 1) as nat).len() ==> (i > 0 ==> lex_lt(
                a.contents(n.keys@[i - 1]),
                #[trigger] cview(a, inorder(n.children@[i], (h - 1) as nat))[q].0,
            )) && (i < n.keys@.len() ==> lex_lt(
                cview(a, inorder(n.children@[i], (h - 1) as nat))[q].0,
                a.contents(n.keys@[i]),
            )),
{
    lemma_child_decomp(n, h, i);
    let pre = child_pre(n, h, i);
    let c = inorder(n.children@[i], (h - 1) as nat);
    let all = cview(a, inorder(n, h));
    assert forall|q: int| 0 <= q < c.len() implies (i > 0 ==> lex_lt(
        a.contents(n.keys@[i - 1]),
        #[trigger] cview(a, c)[q].0,
    )) && (i < n.keys@.len() ==> lex_lt(cview(a, c)[q].0, a.contents(n.keys@[i]))) by {
        assert(all[pre.len() + q] == cview(a, c)[q]);
        if i > 0 {
            assert(all[pre.len() - 1].0 == a.contents(n.keys@[i - 1]));
        }
        if i < n.keys@.len() {
            assert(all[(pre.len() + c.len()) as int].0 == a.contents(n.keys@[i]));
        }
    }
}

/// `key` lies in the range of child `j` of `n`.
pub open spec fn child_range(a: Arena, n: Node, j: int, key: Seq<u8>) -> bool {
    &&& 0 <= j <= n.keys@.len()
    &&& j > 0 ==> lex_lt(a.contents(n.keys@[j - 1]), key)
    &&& j < n.keys@.len() ==> lex_lt(key, a.contents(n.keys@[j]))
}

/// With sorted keys a key lies in the range of at most one child.
pub proof fn lemma_child_range_unique(a: Arena, n: Node, j1: int, j2: int, key: Seq<u8>)
    requires
        keys_sorted(a, n.keys@),
        child_range(a, n, j1, key),
        child_range(a, n, j2, key),
    ensures
        j1 == j2,
{
    if j1 < j2 {
        assert(lex_lt(key, a.contents(n.keys@[j1])));
        assert(lex_lt(a.contents(n.keys@[j2 - 1]), key));
        if j1 < j2 - 1 {
            assert(lex_lt(a.contents(n.keys@[j1]), a.contents(n.keys@[j2 - 1])));
            lemma_lex_transitive(key, a.contents(n.keys@[j1]), a.contents(n.keys@[j2 - 1]));
        }
        lemma_lex_transitive(key, a.contents(n.keys@[j2 - 1]), key);
        lemma_lex_irreflexive(key);
    } else if j2 < j1 {
        assert(lex_lt(key, a.contents(n.keys@[j2])));
        assert(lex_lt(a.contents(n.keys@[j1 - 1]), key));
        if j2 < j1 - 1 {
            assert(lex_lt(a.contents(n.keys@[j2]), a.contents(n.keys@[j1 - 1])));
            lemma_lex_transitive(key, a.contents(n.keys@[j2]), a.contents(n.keys@[j1 - 1]));
        }
        lemma_lex_transitive(key, a.contents(n.keys@[j1 - 1]), key);
        lemma_lex_irreflexive(key);
    }
}

/// Rotating the last entry of the left sibling through the parent into
/// child `i` keeps the entries.
pub proof fn lemma_borrow_left(p: Node, q: Node, h: nat, i: int, l2: Node, c2: Node)
    requires
        h > 0,
        internal_shape(p),
        1 <= i <= p.keys@.len(),
        ({
            let l = p.children@[i - 1];
            let c = p.children@[i];
            let n = l.keys@.len() as int;
            &&& n > 0
            &&& l.vals@.len() == n
            &&& c.keys@.len() == c.vals@.len()
            &&& h > 1 ==> l.children@.len() == n + 1 && c.children@.len() == c.keys@.len() + 1
            &&& l2.keys@ == l.keys@.drop_last()
            &&& l2.vals@ == l.vals@.drop_last()
            &&& h > 1 ==> l2.children@ == l.children@.drop_last()
            &&& c2.keys@ == seq![p.keys@[i - 1]] + c.keys@
            &&& c2.vals@ == seq![p.vals@[i - 1]] + c.vals@
            &&& h > 1 ==> c2.children@ == seq![l.children@.last()] + c.children@
            &&& q.keys@ == p.keys@.update(i - 1, l.keys@.last())
            &&& q.vals@ == p.vals@.update(i - 1, l.vals@.last())
            &&& q.children@ == p.children@.update(i - 1, l2).update(i, c2)
        }),
    ensures
        inorder(q, h) == inorder(p, h),
{
    let l = p.children@[i - 1];
    let c = p.children@[i];
    let n = l.keys@.len() as int;
    let hc = (h - 1) as nat;
    lemma_two_children(p, h, i);
    lemma_two_children(q, h, i);
    assert(q.keys@.subrange(0, i - 1) =~= p.keys@.subrange(0, i - 1));
    assert(q.vals@.subrange(0, i - 1) =~= p.vals@.subrange(0, i - 1));
    assert(q.children@.subrange(0, i - 1) =~= p.children@.subrange(0, i - 1));
    lemma_pre_agree(p, q, h, i - 1);
    assert(q.keys@.subrange(i, q.keys@.len() as int) =~= p.keys@.subrange(i, p.keys@.len() as int));
    assert(q.vals@.subrange(i, q.vals@.len() as int) =~= p.vals@.subrange(i, p.vals@.len() as int));
    assert(q.children@.subrange(i + 1, q.children@.len() as int) =~= p.children@.subrange(i + 1, p.children@.len() as int));
    lemma_post_agree(p, q, h, i, i);
    let lk = l.keys@.last();
    let lv = l.vals@.last();
    let sk = p.keys@[i - 1];
    let sv = p.vals@[i - 1];
    assert(q.children@[i - 1] == l2 && q.children@[i] == c2);
    if hc == 0 {
        assert(inorder(l, hc) =~= inorder(l2, hc) + seq![(lk, lv)]);
        assert(inorder(c2, hc) =~= seq![(sk, sv)] + inorder(c, hc));
    } else {
        let lc = l.children@;
        assert(l.keys@.drop_last() == l2.keys@);
        assert(l.vals@.subrange(0, n - 1) =~= l2.vals@);
        assert forall|x: int| 0 <= x <= n - 1 implies lc[x] == l2.children@[x] by {}
        lemma_items_agree(l2.keys@, l2.vals@, lc, l2.children@, hc);
        assert(inorder(l, hc) == inorder(l2, hc) + seq![(lk, lv)] + inorder(lc[n], (hc - 1) as nat));
        let e = Seq::<Ref>::empty();
        lemma_items_concat(e, e, seq![lc.last()], sk, sv, c.keys@, c.vals@, c.children@, hc);
        assert(e + seq![sk] + c.keys@ =~= c2.keys@);
        assert(e + seq![sv] + c.vals@ =~= c2.vals@);
        assert(seq![lc.last()] + c.children@ =~= c2.children@);
        assert(items(e, e, seq![lc.last()], hc) == inorder(lc[n], (hc - 1) as nat));
        assert(inorder(c2, hc) == inorder(lc[n], (hc - 1) as nat) + seq![(sk, sv)] + inorder(c, hc));
    }
    let x = child_pre(p, h, i - 1);
    let y = child_post(p, h, i);
    assert(x + inorder(l2, hc) + seq![(lk, lv)] + inorder(c2, hc) + y =~= x + inorder(l, hc) + seq![(sk, sv)]
        + inorder(c, hc) + y);
}

/// Rotating the first entry of the right sibling through the parent into
/// child `i` keeps the entries.
pub proof fn lemma_borrow_right(p: Node, q: Node, h: nat, i: int, c2: Node, r2: Node)
    requires
        h > 0,
        internal_shape(p),
        0 <= i < p.keys@.len(),
        ({
            let c = p.children@[i];
            let r = p.children@[i + 1];
            let n = r.keys@.len() as int;
            &&& n > 0
            &&& r.vals@.len() == n
            &&& c.keys@.len() == c.vals@.len()
            &&& h > 1 ==> r.children@.len() == n + 1 && c.children@.len() == c.keys@.len() + 1
            &&& r2.keys@ == r.keys@.subrange(1, n)
            &&& r2.vals@ == r.vals@.subrange(1, n)
            &&& h > 1 ==> r2.children@ == r.children@.subrange(1, n + 1)
            &&& c2.keys@ == c.keys@.push(p.keys@[i])
            &&& c2.vals@ == c.vals@.push(p.vals@[i])
            &&& h > 1 ==> c2.children@ == c.children@.push(r.children@[0])
            &&& q.keys@ == p.keys@.update(i, r.keys@[0])
            &&& q.vals@ == p.vals@.update(i, r.vals@[0])
            &&& q.children@ == p.children@.update(i, c2).update(i + 1, r2)
        }),
    ensures
        inorder(q, h) == inorder(p, h),
{
    let c = p.children@[i];
    let r = p.children@[i + 1];
    let n = r.keys@.len() as int;
    let hc = (h - 1) as nat;
    lemma_two_children(p, h, i + 1);
    lemma_two_children(q, h, i + 1);
    assert(q.keys@.subrange(0, i) =~= p.keys@.subrange(0, i));
    assert(q.vals@.subrange(0, i) =~= p.vals@.subrange(0, i));
    assert(q.children@.subrange(0, i) =~= p.children@.subrange(0, i));
    lemma_pre_agree(p, q, h, i);
    assert(q.keys@.subrange(i + 1, q.keys@.len() as int) =~= p.keys@.subrange(i + 1, p.keys@.len() as int));
    assert(q.vals@.subrange(i + 1, q.vals@.len() as int) =~= p.vals@.subrange(i + 1, p.vals@.len() as int));
    assert(q.children@.subrange(i + 2, q.children@.len() as int) =~= p.children@.subrange(i + 2, p.children@.len() as int));
    lemma_post_agree(p, q, h, i + 1, i + 1);
    let rk = r.keys@[0];
    let rv = r.vals@[0];
    let sk = p.keys@[i];
    let sv = p.vals@[i];
    assert(q.children@[i] == c2 && q.children@[i + 1] == r2);
    if hc == 0 {
        assert(inorder(r, hc) =~= seq![(rk, rv)] + inorder(r2, hc));
        assert(inorder(c2, hc) =~= inorder(c, hc) + seq![(sk, sv)]);
    } else {
        let rc = r.children@;
        let ck = c.keys@.len() as int;
        assert(c2.keys@.drop_last() =~= c.keys@);
        assert(c2.vals@.subrange(0, ck) =~= c.vals@);
        assert forall|x: int| 0 <= x <= ck implies c2.children@[x] == c.children@[x] by {}
        lemma_items_agree(c.keys@, c.vals@, c2.children@, c.children@, hc);
        assert(c2.children@[ck + 1] == rc[0]);
        assert(inorder(c2, hc) == inorder(c, hc) + seq![(sk, sv)] + inorder(rc[0], (hc - 1) as nat));
        let e = Seq::<Ref>::empty();
        lemma_items_concat(e, e, seq![rc[0]], rk, rv, r2.keys@, r2.vals@, r2.children@, hc);
        assert(e + seq![rk] + r2.keys@ =~= r.keys@);
        assert(e + seq![rv] + r2.vals@ =~= r.vals@);
        assert(seq![rc[0]] + r2.children@ =~= rc);
        assert(items(e, e, seq![rc[0]], hc) == inorder(rc[0], (hc - 1) as nat));
        assert(inorder(r, hc) == inorder(rc[0], (hc - 1) as nat) + seq![(rk, rv)] + inorder(r2, hc));
    }
    let x = child_pre(p, h, i);
    let y = child_post(p, h, i + 1);
    assert(x + inorder(c2, hc) + seq![(rk, rv)] + inorder(r2, hc) + y =~= x + inorder(c, hc) + seq![(sk, sv)]
        + inorder(r, hc) + y);
}

/// Merging children `i` and `i + 1` around key `i` keeps the entries.
pub proof fn lemma_merge(p: Node, q: Node, h: nat, i: int, m: Node)
    requires
        h > 0,
        internal_shape(p),
        0 <= i < p.keys@.len(),
        ({
            let c = p.children@[i];
            let r = p.children@[i + 1];
            &&& c.keys@.len() == c.vals@.len()
            &&& r.keys@.len() == r.vals@.len()
            &&& h > 1 ==> c.children@.len() == c.keys@.len() + 1 && r.children@.len() == r.keys@.len() + 1
            &&& m.keys@ == c.keys@ + seq![p.keys@[i]] + r.keys@
            &&& m.vals@ == c.vals@ + seq![p.vals@[i]] + r.vals@
            &&& h > 1 ==> m.children@ == c.children@ + r.children@
            &&& q.keys@ == p.keys@.remove(i)
            &&& q.vals@ == p.vals@.remove(i)
            &&& q.children@ == p.children@.update(i, m).remove(i + 1)
        }),
    ensures
        inorder(q, h) == inorder(p, h),
        inorder(m, (h - 1) as nat) == inorder(p.children@[i], (h - 1) as nat) + seq![(p.keys@[i], p.vals@[i])]
            + inorder(p.children@[i + 1], (h - 1) as nat),
{
    let c = p.children@[i];
    let r = p.children@[i + 1];
    let hc = (h - 1) as nat;
    if hc == 0 {
        lemma_zip_concat(c.keys@, c.vals@, p.keys@[i], p.vals@[i], r.keys@, r.vals@);
    } else {
        lemma_items_concat(c.keys@, c.vals@, c.children@, p.keys@[i], p.vals@[i], r.keys@, r.vals@, r.children@, hc);
    }
    lemma_two_children(p, h, i + 1);
    lemma_child_decomp(q, h, i);
    assert(q.keys@.subrange(0, i) =~= p.keys@.subrange(0, i));
    assert(q.vals@.subrange(0, i) =~= p.vals@.subrange(0, i));
    assert(q.children@.subrange(0, i) =~= p.children@.subrange(0, i));
    lemma_pre_agree(p, q, h, i);
    assert(q.keys@.subrange(i, q.keys@.len() as int) =~= p.keys@.subrange(i + 1, p.keys@.len() as int));
    assert(q.vals@.subrange(i, q.vals@.len() as int) =~= p.vals@.subrange(i + 1, p.vals@.len() as int));
    assert(q.children@.subrange(i + 1, q.children@.len() as int) =~= p.children@.subrange(i + 2, p.children@.len() as int));
    lemma_post_agree(p, q, h, i + 1, i);
    assert(q.children@[i] == m);
    let x = child_pre(p, h, i);
    let y = child_post(p, h, i + 1);
    assert(x + inorder(m, hc) + y =~= x + inorder(c, hc) + seq![(p.keys@[i], p.vals@[i])] + inorder(r, hc) + y);
}


/// Shape after rotating through the left sibling.
pub proof fn lemma_wf_borrow_left(p: Node, q: Node, h: nat, min: nat, i: int, l2: Node, c2: Node)
    requires
        h > 0,
        wf_node(p, h, min),
        1 <= i <= p.keys@.len(),
        ({
            let l = p.children@[i - 1];
            let c = p.children@[i];
            let n = l.keys@.len() as int;
            &&& n >= T
            &&& c.keys@.len() < MAX_KEYS
            &&& l2.is_leaf == l.is_leaf
            &&& c2.is_leaf == c.is_leaf
            &&& l2.keys@ == l.keys@.drop_last()
            &&& l2.vals@ == l.vals@.drop_last()
            &&& h > 1 ==> l2.children@ == l.children@.drop_last()
            &&& h == 1 ==> l2.children@.len() == 0 && c2.children@.len() == 0
            &&& c2.keys@ == seq![p.keys@[i - 1]] + c.keys@
            &&& c2.vals@ == seq![p.vals@[i - 1]] + c.vals@
            &&& h > 1 ==> c2.children@ == seq![l.children@.last()] + c.children@
            &&& q.is_leaf == p.is_leaf
            &&& q.keys@ == p.keys@.update(i - 1, l.keys@.last())
            &&& q.vals@ == p.vals@.update(i - 1, l.vals@.last())
            &&& q.children@ == p.children@.update(i - 1, l2).update(i, c2)
        }),
    ensures
        wf_node(q, h, min),
        q.children@[i].keys@.len() == p.children@[i].keys@.len() + 1,
{
    let l = p.children@[i - 1];
    let c = p.children@[i];
    let hc = (h - 1) as nat;
    lemma_wf_child(p, h, min, i - 1);
    lemma_wf_child(p, h, min, i);
    if hc > 0 {
        assert forall|j: int| 0 <= j < l2.children@.len() implies wf_node(#[trigger] l2.children@[j], (hc - 1) as nat, (T - 1) as nat) by {
            lemma_wf_child(l, hc, (T - 1) as nat, j);
        }
        assert forall|j: int| 0 <= j < c2.children@.len() implies wf_node(#[trigger] c2.children@[j], (hc - 1) as nat, (T - 1) as nat) by {
            if j == 0 {
                lemma_wf_child(l, hc, (T - 1) as nat, l.children@.len() - 1);
            } else {
                lemma_wf_child(c, hc, (T - 1) as nat, j - 1);
            }
        }
    }
    assert(wf_node(l2, hc, (T - 1) as nat));
    assert(wf_node(c2, hc, (T - 1) as nat));
    assert forall|j: int| 0 <= j < q.children@.len() implies wf_node(#[trigger] q.children@[j], hc, (T - 1) as nat) by {
        if j != i - 1 && j != i {
            lemma_wf_child(p, h, min, j);
        }
    }
}

/// Shape after rotating through the right sibling.
pub proof fn lemma_wf_borrow_right(p: Node, q: Node, h: nat, min: nat, i: int, c2: Node, r2: Node)
    requires
        h > 0,
        wf_node(p, h, min),
        0 <= i < p.keys@.len(),
        ({
            let c = p.children@[i];
            let r = p.children@[i + 1];
            let n = r.keys@.len() as int;
            &&& n >= T
            &&& c.keys@.len() < MAX_KEYS
            &&& r2.is_leaf == r.is_leaf
            &&& c2.is_leaf == c.is_leaf
            &&& r2.keys@ == r.keys@.subrange(1, n)
            &&& r2.vals@ == r.vals@.subrange(1, n)
            &&& h > 1 ==> r2.children@ == r.children@.subrange(1, n + 1)
            &&& h == 1 ==> r2.children@.len() == 0 && c2.children@.len() == 0
            &&& c2.keys@ == c.keys@.push(p.keys@[i])
            &&& c2.vals@ == c.vals@.push(p.vals@[i])
            &&& h > 1 ==> c2.children@ == c.children@.push(r.children@[0])
            &&& q.is_leaf == p.is_leaf
            &&& q.keys@ == p.keys@.update(i, r.keys@[0])
            &&& q.vals@ == p.vals@.update(i, r.vals@[0])
            &&& q.children@ == p.children@.update(i, c2).update(i + 1, r2)
        }),
    ensures
        wf_node(q, h, min),
        q.children@[i].keys@.len() == p.children@[i].keys@.len() + 1,
{
    let c = p.children@[i];
    let r = p.children@[i + 1];
    let hc = (h - 1) as nat;
    lemma_wf_child(p, h, min, i);
    lemma_wf_child(p, h, min, i + 1);
    if hc > 0 {
        assert forall|j: int| 0 <= j < r2.children@.len() implies wf_node(#[trigger] r2.children@[j], (hc - 1) as nat, (T - 1) as nat) by {
            lemma_wf_child(r, hc, (T - 1) as nat, j + 1);
        }
        assert forall|j: int| 0 <= j < c2.children@.len() implies wf_node(#[trigger] c2.children@[j], (hc - 1) as nat, (T - 1) as nat) by {
            if j == c.children@.len() {
                lemma_wf_child(r, hc, (T - 1) as nat, 0);
            } else {
                lemma_wf_child(c, hc, (T - 1) as nat, j);
            }
        }
    }
    assert(wf_node(r2, hc, (T - 1) as nat));
    assert(wf_node(c2, hc, (T - 1) as nat));
    assert forall|j: int| 0 <= j < q.children@.len() implies wf_node(#[trigger] q.children@[j], hc, (T - 1) as nat) by {
        if j != i && j != i + 1 {
            lemma_wf_child(p, h, min, j);
        }
    }
}

/// Shape after merging two minimal children.
pub proof fn lemma_wf_merge(p: Node, q: Node, h: nat, min: nat, i: int, m: Node)
    requires
        h > 0,
        wf_node(p, h, min),
        0 <= i < p.keys@.len(),
        ({
            let c = p.children@[i];
            let r = p.children@[i + 1];
            &&& c.keys@.len() == T - 1
            &&& r.keys@.len() == T - 1
            &&& m.is_leaf == c.is_leaf
            &&& m.keys@ == c.keys@ + seq![p.keys@[i]] + r.keys@
            &&& m.vals@ == c.vals@ + seq![p.vals@[i]] + r.vals@
            &&& h > 1 ==> m.children@ == c.children@ + r.children@
            &&& h == 1 ==> m.children@.len() == 0
            &&& q.is_leaf == p.is_leaf
            &&& q.keys@ == p.keys@.remove(i)
            &&& q.vals@ == p.vals@.remove(i)
            &&& q.children@ == p.children@.update(i, m).remove(i + 1)
        }),
    ensures
        wf_node(q, h, 0),
        q.children@[i].keys@.len() == MAX_KEYS,
        h > 1 ==> p.children@[i].children@.len() == T && p.children@[i + 1].children@.len() == T,
        p.children@[i].vals@.len() == T - 1 && p.children@[i + 1].vals@.len() == T - 1,
{
    let c = p.children@[i];
    let r = p.children@[i + 1];
    let hc = (h - 1) as nat;
    lemma_wf_child(p, h, min, i);
    lemma_wf_child(p, h, min, i + 1);
    if hc > 0 {
        assert forall|j: int| 0 <= j < m.children@.len() implies wf_node(#[trigger] m.children@[j], (hc - 1) as nat, (T - 1) as nat) by {
            if j < c.children@.len() {
                lemma_wf_child(c, hc, (T - 1) as nat, j);
            } else {
                lemma_wf_child(r, hc, (T - 1) as nat, j - c.children@.len());
            }
        }
    }
    assert(wf_node(m, hc, (T - 1) as nat));
    assert forall|j: int| 0 <= j < q.children@.len() implies wf_node(#[trigger] q.children@[j], hc, (T - 1) as nat) by {
        if j < i {
            lemma_wf_child(p, h, min, j);
        } else if j > i {
            assert(q.children@[j] == p.children@[j + 1]);
            lemma_wf_child(p, h, min, j + 1);
        }
    }
}

} // verus!
