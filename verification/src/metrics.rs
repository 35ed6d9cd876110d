//! Access metrics: total op count and a per-key access counter used to
//! surface the most accessed keys.
use crate::bytes_order::{compare_bytes, lemma_lex_irreflexive, lemma_lex_transitive, lex_lt, Cmp};
use crate::btree::BTreeStats;
use crate::commands::{from_utf8_lossy, utf8_lossy};
use crate::decimal::{decimal, push_decimal};
use vstd::prelude::*;
use vstd::string::StringSliceAdditionalSpecFns;

verus! {

/// Counts of operations and of accesses per key.
pub struct Metrics {
    total_ops: u64,
    /// (key, accesses), sorted by key.
    counts: Vec<(Vec<u8>, u64)>,
}

/// A key with its access count.
pub struct TopKey {
    pub key: String,
    pub count: u64,
}

impl TopKey {
    /// A key as the dashboard shows it: its text, each invalid UTF-8
    /// sequence replaced, and its access count.
    pub fn new(key: &[u8], count: u64) -> (t: TopKey)
        ensures
            t.key@ == utf8_lossy(key@),
            t.count == count,
    {
        TopKey { key: from_utf8_lossy(key), count }
    }
}

/// Keys strictly increasing.
pub open spec fn keys_increasing(s: Seq<(Seq<u8>, u64)>) -> bool {
    forall|i: int, j: int| 0 <= i < j < s.len() ==> lex_lt(#[trigger] s[i].0, #[trigger] s[j].0)
}

/// Some entry has key `k`.
pub open spec fn has_count(s: Seq<(Seq<u8>, u64)>, k: Seq<u8>) -> bool {
    exists|i: int| 0 <= i < s.len() && #[trigger] s[i].0 == k
}

/// The position of key `k`.
pub open spec fn count_index(s: Seq<(Seq<u8>, u64)>, k: Seq<u8>) -> int {
    choose|i: int| 0 <= i < s.len() && #[trigger] s[i].0 == k
}

/// The map from keys to counts of a sequence of entries.
pub open spec fn counts_map(s: Seq<(Seq<u8>, u64)>) -> Map<Seq<u8>, u64> {
    Map::new(|k: Seq<u8>| has_count(s, k), |k: Seq<u8>| s[count_index(s, k)].1)
}

/// In increasing keys, a key occurs once.
proof fn lemma_key_once(s: Seq<(Seq<u8>, u64)>, i: int, j: int)
    requires
        keys_increasing(s),
        0 <= i < s.len(),
        0 <= j < s.len(),
        s[i].0 == s[j].0,
    ensures
        i == j,
{
    if i < j {
        lemma_lex_irreflexive(s[i].0);
    } else if j < i {
        lemma_lex_irreflexive(s[i].0);
    }
}

/// The map sends the key of entry `i` to its count.
proof fn lemma_counts_map(s: Seq<(Seq<u8>, u64)>, i: int)
    requires
        keys_increasing(s),
        0 <= i < s.len(),
    ensures
        counts_map(s).contains_key(s[i].0),
        counts_map(s)[s[i].0] == s[i].1,
{
    assert(has_count(s, s[i].0));
    lemma_key_once(s, i, count_index(s, s[i].0));
}

/// The map has one key per entry.
proof fn lemma_counts_len(s: Seq<(Seq<u8>, u64)>)
    requires
        keys_increasing(s),
    ensures
        counts_map(s).dom().finite(),
        counts_map(s).len() == s.len(),
{
    let ks = s.map_values(|e: (Seq<u8>, u64)| e.0);
    assert(ks.no_duplicates()) by {
        assert forall|i: int, j: int| 0 <= i < ks.len() && 0 <= j < ks.len() && i != j implies ks[i] != ks[j] by {
            if ks[i] == ks[j] {
                lemma_key_once(s, i, j);
            }
        }
    }
    assert forall|k: Seq<u8>| #[trigger] counts_map(s).dom().contains(k) <==> ks.to_set().contains(k) by {
        if has_count(s, k) {
            let q = choose|q: int| 0 <= q < s.len() && #[trigger] s[q].0 == k;
            assert(ks[q] == k);
        }
        if ks.contains(k) {
            let q = choose|q: int| 0 <= q < ks.len() && ks[q] == k;
            assert(s[q].0 == k);
        }
    }
    assert(counts_map(s).dom() =~= ks.to_set());
    ks.unique_seq_to_set();
    vstd::seq_lib::seq_to_set_is_finite(ks);
}

impl View for Metrics {
    type V = Map<Seq<u8>, u64>;

    /// The access count of each key seen.
    closed spec fn view(&self) -> Map<Seq<u8>, u64> {
        counts_map(self.entries())
    }
}

impl Metrics {
    /// The (key, count) entries, sorted by key.
    pub closed spec fn entries(&self) -> Seq<(Seq<u8>, u64)> {
        self.counts@.map_values(|e: (Vec<u8>, u64)| (e.0@, e.1))
    }

    pub closed spec fn wf(&self) -> bool {
        keys_increasing(self.entries())
    }

    /// The number of operations recorded (modulo 2^64).
    pub closed spec fn total(&self) -> u64 {
        self.total_ops
    }

    /// No operation and no key counted.
    pub fn new() -> (m: Metrics)
        ensures
            m.wf(),
            m.total() == 0,
            m@ == Map::<Seq<u8>, u64>::empty(),
    {
        let m = Metrics { total_ops: 0, counts: Vec::new() };
        proof {
            assert(m.entries() =~= Seq::<(Seq<u8>, u64)>::empty());
            assert(m@ =~= Map::<Seq<u8>, u64>::empty());
        }
        m
    }

    /// Counts one operation, an access to `key`.
    pub fn record_op(&mut self, key: &[u8])
        requires
            old(self).wf(),
        ensures
            final(self).wf(),
            final(self).total() == old(self).total().wrapping_add(1),
            final(self)@ == old(self)@.insert(
                key@,
                (if old(self)@.contains_key(key@) {
                    old(self)@[key@]
                } else {
                    0
                }).wrapping_add(1),
            ),
    {
        self.total_ops = self.total_ops.wrapping_add(1);
        let ghost s0 = self.entries();
        let mut lo: usize = 0;
        let mut hi: usize = self.counts.len();
        while lo < hi
            invariant
                self.wf(),
                s0 == self.entries(),
                s0 == old(self).entries(),
                self.total() == old(self).total().wrapping_add(1),
                self.counts@.len() == s0.len(),
                lo <= hi <= s0.len(),
                forall|j: int| 0 <= j < lo ==> lex_lt(#[trigger] s0[j].0, key@),
                forall|j: int| hi <= j < s0.len() ==> lex_lt(key@, #[trigger] s0[j].0),
            decreases hi - lo,
        {
            let mid = lo + (hi - lo) / 2;
            proof {
                assert(s0[mid as int].0 == self.counts@[mid as int].0@);
            }
            match compare_bytes(self.counts[mid].0.as_slice(), key) {
                Cmp::Equal => {
                    let c = self.counts[mid].1;
                    self.counts[mid].1 = c.wrapping_add(1);
                    proof {
                        let s1 = self.entries();
                        assert(s1 =~= s0.update(mid as int, (key@, c.wrapping_add(1))));
                        lemma_counts_map(s0, mid as int);
                        assert(keys_increasing(s1)) by {
                            assert forall|i: int, j: int| 0 <= i < j < s1.len() implies lex_lt(
                                #[trigger] s1[i].0,
                                #[trigger] s1[j].0,
                            ) by {
                                assert(s1[i].0 == s0[i].0 && s1[j].0 == s0[j].0);
                            }
                        }
                        assert forall|k: Seq<u8>| has_count(s1, k) <==> has_count(s0, k) by {
                            if has_count(s1, k) {
                                let x = choose|x: int| 0 <= x < s1.len() && #[trigger] s1[x].0 == k;
                                assert(s0[x].0 == k);
                            }
                            if has_count(s0, k) {
                                let x = choose|x: int| 0 <= x < s0.len() && #[trigger] s0[x].0 == k;
                                assert(s1[x].0 == k);
                            }
                        }
                        let m1 = counts_map(s1);
                        let m = counts_map(s0).insert(key@, c.wrapping_add(1));
                        assert forall|k: Seq<u8>| #[trigger] m1.contains_key(k) implies m1[k] == m[k] by {
                            let x = count_index(s1, k);
                            lemma_counts_map(s1, x);
                            if x != mid {
                                lemma_counts_map(s0, x);
                            }
                        }
                        assert(m1 =~= m);
                    }
                    return;
                },
                Cmp::Less => {
                    proof {
                        assert forall|j: int| 0 <= j <= mid implies lex_lt(#[trigger] s0[j].0, key@) by {
                            if j < mid {
                                lemma_lex_transitive(s0[j].0, s0[mid as int].0, key@);
                            }
                        }
                    }
                    lo = mid + 1;
                },
                Cmp::Greater => {
                    proof {
                        assert forall|j: int| mid <= j < s0.len() implies lex_lt(key@, #[trigger] s0[j].0) by {
                            if j > mid {
                                lemma_lex_transitive(key@, s0[mid as int].0, s0[j].0);
                            }
                        }
                    }
                    hi = mid;
                },
            }
        }
        let k = vstd::slice::slice_to_vec(key);
        self.counts.insert(lo, (k, 1));
        proof {
            let s1 = self.entries();
            assert(s1 =~= s0.insert(lo as int, (key@, 1u64)));
            assert(!has_count(s0, key@)) by {
                if has_count(s0, key@) {
                    let x = choose|x: int| 0 <= x < s0.len() && #[trigger] s0[x].0 == key@;
                    lemma_lex_irreflexive(key@);
                }
            }
            assert(keys_increasing(s1)) by {
                assert forall|i: int, j: int| 0 <= i < j < s1.len() implies lex_lt(#[trigger] s1[i].0, #[trigger] s1[j].0) by {
                    if j < lo {
                    } else if j == lo {
                    } else if i < lo {
                        assert(s1[j] == s0[j - 1]);
                        lemma_lex_transitive(s0[i].0, key@, s0[j - 1].0);
                    } else if i == lo {
                        assert(s1[j] == s0[j - 1]);
                    } else {
                        assert(s1[i] == s0[i - 1] && s1[j] == s0[j - 1]);
                    }
                }
            }
            let m1 = counts_map(s1);
            let m = counts_map(s0).insert(key@, 1);
            assert forall|kk: Seq<u8>| #[trigger] m1.contains_key(kk) <==> m.contains_key(kk) by {
                if has_count(s1, kk) {
                    let x = choose|x: int| 0 <= x < s1.len() && #[trigger] s1[x].0 == kk;
                    if x < lo {
                        assert(s0[x].0 == kk);
                    } else if x > lo {
                        assert(s0[x - 1].0 == kk);
                    }
                }
                if has_count(s0, kk) {
                    let x = choose|x: int| 0 <= x < s0.len() && #[trigger] s0[x].0 == kk;
                    if x < lo {
                        assert(s1[x].0 == kk);
                    } else {
                        assert(s1[x + 1].0 == kk);
                    }
                }
                if kk == key@ {
                    assert(s1[lo as int].0 == key@);
                }
            }
            assert forall|kk: Seq<u8>| #[trigger] m1.contains_key(kk) implies m1[kk] == m[kk] by {
                let x = count_index(s1, kk);
                lemma_counts_map(s1, x);
                if x < lo {
                    lemma_counts_map(s0, x);
                } else if x > lo {
                    lemma_counts_map(s0, x - 1);
                    assert(s1[x] == s0[x - 1]);
                }
            }
            assert(m1 =~= m);
        }
    }

    /// The number of operations recorded (modulo 2^64).
    pub fn total_ops(&self) -> (n: u64)
        ensures
            n == self.total(),
    {
        self.total_ops
    }

    /// The `n` most accessed keys with their counts, most accessed first;
    /// which of equally counted keys come first is left open.
    pub fn top_keys(&self, n: usize) -> (out: Vec<(Vec<u8>, u64)>)
        requires
            self.wf(),
        ensures
            out@.len() == if n < self@.len() { n as nat } else { self@.len() },
            forall|i: int|
                0 <= i < out@.len() ==> self@.contains_key(#[trigger] out@[i].0@) && self@[out@[i].0@]
                    == out@[i].1,
            forall|i: int, j: int| 0 <= i < j < out@.len() ==> #[trigger] out@[i].0@ != #[trigger] out@[j].0@,
            forall|i: int, j: int| 0 <= i < j < out@.len() ==> #[trigger] out@[i].1 >= #[trigger] out@[j].1,
            forall|k: Seq<u8>, i: int|
                #[trigger] self@.contains_key(k) && 0 <= i < out@.len() && !(exists|j: int|
                    0 <= j < out@.len() && out@[j].0@ == k) ==> self@[k] <= #[trigger] out@[i].1,
    {
        let ghost s = self.entries();
        proof {
            lemma_counts_len(s);
        }
        let len = self.counts.len();
        let m = if n < len {
            n
        } else {
            len
        };
        let mut chosen: Vec<bool> = vec![false; len];
        let ghost mut picked: Seq<int> = Seq::empty();
        let mut out: Vec<(Vec<u8>, u64)> = Vec::new();
        while out.len() < m
            invariant
                self.wf(),
                s == self.entries(),
                len == s.len(),
                m <= len,
                chosen@.len() == len,
                out@.len() == picked.len(),
                out@.len() <= m,
                forall|i: int| 0 <= i < picked.len() ==> 0 <= #[trigger] picked[i] < len,
                forall|i: int, j: int| 0 <= i < j < picked.len() ==> #[trigger] picked[i] != #[trigger] picked[j],
                forall|j: int| 0 <= j < len ==> (#[trigger] chosen@[j] <==> picked.contains(j)),
                forall|i: int| 0 <= i < out@.len() ==> #[trigger] out@[i].0@ == s[picked[i]].0 && out@[i].1
                    == s[picked[i]].1,
                forall|i: int, j: int| 0 <= i < j < out@.len() ==> #[trigger] out@[i].1 >= #[trigger] out@[j].1,
                out@.len() > 0 ==> forall|j: int| 0 <= j < len && !chosen@[j] ==> #[trigger] s[j].1 <= out@.last().1,
            decreases m - out@.len(),
        {
            proof {
                assert(picked.to_set().len() <= picked.len()) by {
                    picked.lemma_cardinality_of_set();
                }
                assert(exists|j: int| 0 <= j < len && !chosen@[j]) by {
                    if forall|j: int| 0 <= j < len ==> chosen@[j] {
                        assert forall|j: int| 0 <= j < len implies picked.contains(j) by {
                            assert(chosen@[j]);
                        }
                        let r = vstd::set_lib::set_int_range(0, len as int);
                        assert(r.subset_of(picked.to_set()));
                        vstd::set_lib::lemma_int_range(0, len as int);
                        vstd::seq_lib::seq_to_set_is_finite(picked);
                        vstd::set_lib::lemma_len_subset(r, picked.to_set());
                    }
                }
            }
            let mut best: usize = len;
            let mut j: usize = 0;
            while j < len
                invariant
                    s == self.entries(),
                    len == s.len(),
                    self.counts@.len() == len,
                    chosen@.len() == len,
                    j <= len,
                    best == len || (best < j && !chosen@[best as int]),
                    forall|x: int| 0 <= x < j && !#[trigger] chosen@[x] ==> best < len && s[x].1 <= s[best as int].1,
                decreases len - j,
            {
                proof {
                    assert(s[j as int].1 == self.counts@[j as int].1);
                    if best < len {
                        assert(s[best as int].1 == self.counts@[best as int].1);
                    }
                }
                let ghost b0 = best;
                if !chosen[j] && (best == len || self.counts[j].1 > self.counts[best].1) {
                    best = j;
                }
                proof {
                    assert forall|x: int| 0 <= x < j + 1 && !#[trigger] chosen@[x] implies best < len && s[x].1
                        <= s[best as int].1 by {
                        if x < j {
                            assert(b0 < len && s[x].1 <= s[b0 as int].1);
                        }
                    }
                }
                j = j + 1;
            }
            proof {
                let w = choose|w: int| 0 <= w < len && !chosen@[w];
                assert(0 <= w < j && !chosen@[w]);
                assert(best < len && s[w].1 <= s[best as int].1);
            }
            chosen.set(best, true);
            let key = vstd::slice::slice_to_vec(self.counts[best].0.as_slice());
            let count = self.counts[best].1;
            let ghost before = out@;
            out.push((key, count));
            proof {
                assert(!picked.contains(best as int));
                let op = picked;
                picked = picked.push(best as int);
                assert forall|x: int| 0 <= x < len implies (#[trigger] chosen@[x] <==> picked.contains(x)) by {
                    if x == best {
                        assert(picked[picked.len() - 1] == x);
                    } else {
                        if picked.contains(x) {
                            let y = choose|y: int| 0 <= y < picked.len() && picked[y] == x;
                            assert(y < op.len());
                            assert(op[y] == x);
                        }
                        if op.contains(x) {
                            let y = choose|y: int| 0 <= y < op.len() && op[y] == x;
                            assert(picked[y] == x);
                        }
                    }
                }
                assert forall|i: int| 0 <= i < out@.len() implies #[trigger] out@[i].0@ == s[picked[i]].0 && out@[i].1
                    == s[picked[i]].1 by {
                    if i < before.len() {
                        assert(out@[i] == before[i]);
                    }
                }
                if before.len() > 0 {
                    assert(before.last().1 >= count);
                }
            }
        }
        proof {
            let mp = counts_map(s);
            assert forall|i: int| 0 <= i < out@.len() implies mp.contains_key(#[trigger] out@[i].0@) && mp[out@[i].0@]
                == out@[i].1 by {
                lemma_counts_map(s, picked[i]);
            }
            assert forall|i: int, j: int| 0 <= i < j < out@.len() implies #[trigger] out@[i].0@ != #[trigger] out@[j].0@ by {
                if out@[i].0@ == out@[j].0@ {
                    lemma_key_once(s, picked[i], picked[j]);
                }
            }
            assert forall|k: Seq<u8>, i: int| #[trigger] mp.contains_key(k) && 0 <= i < out@.len() && !(exists|j: int|
                0 <= j < out@.len() && out@[j].0@ == k) implies mp[k] <= #[trigger] out@[i].1 by {
                let x = count_index(s, k);
                lemma_counts_map(s, x);
                if chosen@[x] {
                    let y = choose|y: int| 0 <= y < picked.len() && picked[y] == x;
                    assert(out@[y].0@ == k);
                } else {
                    assert(s[x].1 <= out@.last().1);
                    assert(out@[i].1 >= out@.last().1) by {
                        if i < out@.len() - 1 {
                            assert(out@[i].1 >= out@[out@.len() - 1].1);
                        }
                    }
                }
            }
        }
        out
    }
}

impl Default for Metrics {
    fn default() -> (m: Self)
        ensures
            m.wf(),
            m.total() == 0,
            m@ == Map::<Seq<u8>, u64>::empty(),
    {
        Metrics::new()
    }
}

/// One metric in the Prometheus text exposition format: its `# HELP` and
/// `# TYPE` lines, then its sample.
pub open spec fn metric_lines(name: Seq<u8>, help: Seq<u8>, kind: Seq<u8>, v: nat) -> Seq<u8> {
    "# HELP ".spec_bytes() + name + " ".spec_bytes() + help + "\n".spec_bytes() + "# TYPE ".spec_bytes() + name
        + " ".spec_bytes() + kind + "\n".spec_bytes() + name + " ".spec_bytes() + decimal(v) + "\n".spec_bytes()
}

/// The `/metrics` page: operations, keys, arena capacity and live bytes,
/// and B-Tree nodes.
pub open spec fn exposition(total_ops: nat, keys: nat, capacity: nat, live: nat, nodes: nat) -> Seq<u8> {
    metric_lines(
        "kvdb_total_ops".spec_bytes(),
        "Total number of operations processed".spec_bytes(),
        "counter".spec_bytes(),
        total_ops,
    ) + metric_lines(
        "kvdb_keys_total".spec_bytes(),
        "Number of keys currently stored".spec_bytes(),
        "gauge".spec_bytes(),
        keys,
    ) + metric_lines(
        "kvdb_memory_bytes".spec_bytes(),
        "Arena capacity in bytes (includes freed-but-unreleased space)".spec_bytes(),
        "gauge".spec_bytes(),
        capacity,
    ) + metric_lines(
        "kvdb_memory_live_bytes".spec_bytes(),
        "Live (non-freed) arena bytes".spec_bytes(),
        "gauge".spec_bytes(),
        live,
    ) + metric_lines(
        "kvdb_node_count".spec_bytes(),
        "Number of B-Tree nodes in use".spec_bytes(),
        "gauge".spec_bytes(),
        nodes,
    )
}

/// Appends the bytes of `s` to `out`.
fn push_str(out: &mut Vec<u8>, s: &str)
    ensures
        final(out)@ == old(out)@ + s.spec_bytes(),
{
    let b = s.as_bytes();
    out.extend_from_slice(b);
    proof {
        assert(out@ =~= old(out)@ + s.spec_bytes());
    }
}

/// Appends one metric's lines to `out`.
fn push_metric(out: &mut Vec<u8>, name: &str, help: &str, kind: &str, v: u64)
    ensures
        final(out)@ == old(out)@ + metric_lines(name.spec_bytes(), help.spec_bytes(), kind.spec_bytes(), v as nat),
{
    push_str(out, "# HELP ");
    push_str(out, name);
    push_str(out, " ");
    push_str(out, help);
    push_str(out, "\n");
    push_str(out, "# TYPE ");
    push_str(out, name);
    push_str(out, " ");
    push_str(out, kind);
    push_str(out, "\n");
    push_str(out, name);
    push_str(out, " ");
    push_decimal(out, v);
    push_str(out, "\n");
    proof {
        assert(out@ =~= old(out)@ + metric_lines(name.spec_bytes(), help.spec_bytes(), kind.spec_bytes(), v as nat));
    }
}

/// The Prometheus text exposition of the operation count and the store's
/// statistics.
pub fn prometheus_text(total_ops: u64, stats: &BTreeStats) -> (out: Vec<u8>)
    ensures
        out@ == exposition(
            total_ops as nat,
            stats.len as nat,
            stats.arena_capacity_bytes as nat,
            stats.arena_live_bytes as nat,
            stats.node_count as nat,
        ),
{
    let mut out: Vec<u8> = Vec::new();
    push_metric(&mut out, "kvdb_total_ops", "Total number of operations processed", "counter", total_ops);
    push_metric(&mut out, "kvdb_keys_total", "Number of keys currently stored", "gauge", stats.len as u64);
    push_metric(
        &mut out,
        "kvdb_memory_bytes",
        "Arena capacity in bytes (includes freed-but-unreleased space)",
        "gauge",
        stats.arena_capacity_bytes as u64,
    );
    push_metric(&mut out, "kvdb_memory_live_bytes", "Live (non-freed) arena bytes", "gauge", stats.arena_live_bytes as u64);
    push_metric(&mut out, "kvdb_node_count", "Number of B-Tree nodes in use", "gauge", stats.node_count as u64);
    proof {
        assert(out@ =~= exposition(
            total_ops as nat,
            stats.len as nat,
            stats.arena_capacity_bytes as nat,
            stats.arena_live_bytes as nat,
            stats.node_count as nat,
        ));
    }
    out
}

/// The space and newline of the exposition format, as bytes.
proof fn lemma_separator_bytes()
    ensures
        " ".spec_bytes() == seq![0x20u8],
        "\n".spec_bytes() == seq![0x0au8],
{
    reveal_strlit(" ");
    reveal_strlit("\n");
    vstd::string::is_ascii_spec_bytes(" ");
    vstd::string::is_ascii_spec_bytes("\n");
    assert(vstd::string::is_ascii(" "));
    assert(vstd::string::is_ascii("\n"));
    assert(" ".spec_bytes() =~= seq![0x20u8]);
    assert("\n".spec_bytes() =~= seq![0x0au8]);
}

/// A metric's lines end with its sample line: its name, a space, the
/// decimal digits of its value and a newline, right after a newline.
proof fn lemma_metric_sample(name: Seq<u8>, help: Seq<u8>, kind: Seq<u8>, v: nat) -> (head: Seq<u8>)
    ensures
        metric_lines(name, help, kind, v) == head + (name + seq![0x20u8] + decimal(v) + seq![0x0au8]),
        head.len() > 0 && head.last() == 0x0au8,
{
    lemma_separator_bytes();
    let head = "# HELP ".spec_bytes() + name + " ".spec_bytes() + help + "\n".spec_bytes() + "# TYPE ".spec_bytes()
        + name + " ".spec_bytes() + kind + "\n".spec_bytes();
    assert(metric_lines(name, help, kind, v) =~= head + (name + seq![0x20u8] + decimal(v) + seq![0x0au8]));
    assert(head.last() == 0x0au8);
    head
}

/// A page holds `line` as a whole line: at its start or right after a
/// newline.
pub open spec fn has_line(page: Seq<u8>, line: Seq<u8>) -> bool {
    exists|pre: Seq<u8>, post: Seq<u8>|
        #![trigger pre + line + post]
        page == pre + line + post && (pre.len() == 0 || pre.last() == 0x0au8)
}

/// The `/metrics` page has, for each metric, the sample line `name value`
/// with the value in decimal, whatever the value, zero included.
pub proof fn lemma_page_samples(total_ops: nat, keys: nat, capacity: nat, live: nat, nodes: nat)
    ensures
        has_line(
            exposition(total_ops, keys, capacity, live, nodes),
            "kvdb_total_ops".spec_bytes() + seq![0x20u8] + decimal(total_ops) + seq![0x0au8],
        ),
        has_line(
            exposition(total_ops, keys, capacity, live, nodes),
            "kvdb_keys_total".spec_bytes() + seq![0x20u8] + decimal(keys) + seq![0x0au8],
        ),
        has_line(
            exposition(total_ops, keys, capacity, live, nodes),
            "kvdb_memory_bytes".spec_bytes() + seq![0x20u8] + decimal(capacity) + seq![0x0au8],
        ),
        has_line(
            exposition(total_ops, keys, capacity, live, nodes),
            "kvdb_memory_live_bytes".spec_bytes() + seq![0x20u8] + decimal(live) + seq![0x0au8],
        ),
        has_line(
            exposition(total_ops, keys, capacity, live, nodes),
            "kvdb_node_count".spec_bytes() + seq![0x20u8] + decimal(nodes) + seq![0x0au8],
        ),
{
    let page = exposition(total_ops, keys, capacity, live, nodes);
    let n1 = "kvdb_total_ops".spec_bytes();
    let n2 = "kvdb_keys_total".spec_bytes();
    let n3 = "kvdb_memory_bytes".spec_bytes();
    let n4 = "kvdb_memory_live_bytes".spec_bytes();
    let n5 = "kvdb_node_count".spec_bytes();
    let e1 = "Total number of operations processed".spec_bytes();
    let e2 = "Number of keys currently stored".spec_bytes();
    let e3 = "Arena capacity in bytes (includes freed-but-unreleased space)".spec_bytes();
    let e4 = "Live (non-freed) arena bytes".spec_bytes();
    let e5 = "Number of B-Tree nodes in use".spec_bytes();
    let c = "counter".spec_bytes();
    let g = "gauge".spec_bytes();
    let m1 = metric_lines(n1, e1, c, total_ops);
    let m2 = metric_lines(n2, e2, g, keys);
    let m3 = metric_lines(n3, e3, g, capacity);
    let m4 = metric_lines(n4, e4, g, live);
    let m5 = metric_lines(n5, e5, g, nodes);
    assert(page == m1 + m2 + m3 + m4 + m5);
    let e = Seq::<u8>::empty();
    assert(page =~= e + m1 + (m2 + m3 + m4 + m5));
    lemma_line_in(e, n1, e1, c, total_ops, m2 + m3 + m4 + m5);
    assert(page =~= m1 + m2 + (m3 + m4 + m5));
    lemma_line_in(m1, n2, e2, g, keys, m3 + m4 + m5);
    assert(page =~= (m1 + m2) + m3 + (m4 + m5));
    lemma_line_in(m1 + m2, n3, e3, g, capacity, m4 + m5);
    assert(page =~= (m1 + m2 + m3) + m4 + m5);
    lemma_line_in(m1 + m2 + m3, n4, e4, g, live, m5);
    assert(page =~= (m1 + m2 + m3 + m4) + m5 + e);
    lemma_line_in(m1 + m2 + m3 + m4, n5, e5, g, nodes, e);
}

/// The sample line of a metric, wherever its lines stand in a page, is a
/// line of the page.
proof fn lemma_line_in(a: Seq<u8>, name: Seq<u8>, help: Seq<u8>, kind: Seq<u8>, v: nat, b: Seq<u8>)
    ensures
        has_line(a + metric_lines(name, help, kind, v) + b, name + seq![0x20u8] + decimal(v) + seq![0x0au8]),
{
    let line = name + seq![0x20u8] + decimal(v) + seq![0x0au8];
    let h = lemma_metric_sample(name, help, kind, v);
    let pre = a + h;
    assert(a + metric_lines(name, help, kind, v) + b =~= pre + line + b);
    assert(pre.last() == h.last());
}
} // verus!
