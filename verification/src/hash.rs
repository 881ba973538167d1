//! Hashing for content addressing, placement and sharding.
use vstd::prelude::*;
use std::collections::HashMap;
use vstd::string::StringExecFns;
use vstd::utf8::encode_utf8;
use vstd::bytes::{spec_u64_from_le_bytes, u64_from_le_bytes};
use crate::text::{hex_lower, to_hex, decimal, decimal_string};

verus! {

broadcast use vstd::std_specs::hash::group_hash_axioms;

/// The BLAKE3 digest (32 bytes) of `data`, as computed by `blake3::hash`.
pub uninterp spec fn blake3_digest(data: Seq<u8>) -> Seq<u8>;

/// `blake3::hash`: the 32-byte BLAKE3 digest of `data`.
#[verifier::external_body]
pub(crate) fn blake3_bytes(data: &[u8]) -> (r: [u8; 32])
    ensures
        r@ == blake3_digest(data@),
{
    *blake3::hash(data).as_bytes()
}

/// The BLAKE3 hash of `data` in lowercase hexadecimal (64 characters).
pub fn blake3_hash(data: &[u8]) -> (r: String)
    ensures
        r@ == hex_lower(blake3_digest(data@)),
        r@.len() == 64,
{
    let digest = blake3_bytes(data);
    to_hex(&digest)
}

/// The first eight bytes of a digest read as a little-endian number.
pub open spec fn digest_prefix_u64(digest: Seq<u8>) -> u64 {
    spec_u64_from_le_bytes(digest.subrange(0, 8))
}

fn digest_u64(digest: &[u8; 32]) -> (r: u64)
    ensures
        r == digest_prefix_u64(digest@),
{
    let s: &[u8] = digest.as_slice();
    let head = vstd::slice::slice_subrange(s, 0, 8);
    u64_from_le_bytes(head)
}

/// The shard of a key: the BLAKE3 digest of its bytes, read as a number, modulo the
/// number of shards.
pub open spec fn shard_of(key: Seq<char>, num_shards: u64) -> u64 {
    (digest_prefix_u64(blake3_digest(encode_utf8(key))) % num_shards) as u64
}

/// The shard of `key` among `num_shards` shards.
pub fn shard_key(key: &str, num_shards: u64) -> (r: u64)
    requires
        num_shards > 0,
    ensures
        r == shard_of(key@, num_shards),
        r < num_shards,
{
    let digest = blake3_bytes(key.as_bytes());
    digest_u64(&digest) % num_shards
}

/// The weight of `node` for `key` in highest-random-weight placement: the BLAKE3 digest
/// of the key followed by the node's name, read as a number.
pub open spec fn hrw_weight(key: Seq<char>, node: Seq<char>) -> u64 {
    digest_prefix_u64(blake3_digest(encode_utf8(key + node)))
}

/// The first position at or after `i` whose node weighs less than `w`.
pub open spec fn first_lighter(s: Seq<Seq<char>>, key: Seq<char>, w: u64, i: int) -> int
    decreases s.len() - i,
{
    if i >= s.len() || hrw_weight(key, s[i]) < w {
        i
    } else {
        first_lighter(s, key, w, i + 1)
    }
}

/// `s` with `node` placed after every node that weighs at least as much.
pub open spec fn hrw_insert(s: Seq<Seq<char>>, key: Seq<char>, node: Seq<char>) -> Seq<Seq<char>> {
    s.insert(first_lighter(s, key, hrw_weight(key, node), 0), node)
}

/// The nodes ordered by decreasing weight for `key`; nodes of equal weight keep their order.
pub open spec fn hrw_order(key: Seq<char>, nodes: Seq<Seq<char>>) -> Seq<Seq<char>>
    decreases nodes.len(),
{
    if nodes.len() == 0 {
        Seq::empty()
    } else {
        hrw_insert(hrw_order(key, nodes.drop_last()), key, nodes.last())
    }
}

/// The views of a sequence of strings.
pub open spec fn strings_view(s: Seq<String>) -> Seq<Seq<char>> {
    s.map_values(|x: String| x@)
}

/// A copy of a slice of strings.
pub fn clone_strings(s: &[String]) -> (r: Vec<String>)
    ensures
        strings_view(r@) == strings_view(s@),
{
    let mut out: Vec<String> = Vec::new();
    let mut i: usize = 0;
    while i < s.len()
        invariant
            i <= s@.len(),
            strings_view(out@) == strings_view(s@.subrange(0, i as int)),
        decreases s@.len() - i,
    {
        let c = s[i].clone();
        let ghost before = strings_view(out@);
        out.push(c);
        proof {
            assert(strings_view(out@) =~= before.push(s@[i as int]@));
            assert(strings_view(s@.subrange(0, i as int + 1)) =~= strings_view(s@.subrange(0, i as int)).push(s@[i as int]@));
        }
        i = i + 1;
    }
    proof { assert(s@.subrange(0, s@.len() as int) =~= s@); }
    out
}

proof fn lemma_first_lighter(s: Seq<Seq<char>>, key: Seq<char>, w: u64, i: int)
    requires
        0 <= i <= s.len(),
    ensures
        i <= first_lighter(s, key, w, i) <= s.len(),
        forall|j: int| i <= j < first_lighter(s, key, w, i) ==> hrw_weight(key, s[j]) >= w,
        first_lighter(s, key, w, i) < s.len() ==> hrw_weight(key, s[first_lighter(s, key, w, i)]) < w,
    decreases s.len() - i,
{
    if i < s.len() && hrw_weight(key, s[i]) >= w {
        lemma_first_lighter(s, key, w, i + 1);
    }
}

pub proof fn lemma_hrw_order_len(key: Seq<char>, nodes: Seq<Seq<char>>)
    ensures
        hrw_order(key, nodes).len() == nodes.len(),
    decreases nodes.len(),
{
    if nodes.len() > 0 {
        lemma_hrw_order_len(key, nodes.drop_last());
        lemma_first_lighter(hrw_order(key, nodes.drop_last()), key, hrw_weight(key, nodes.last()), 0);
    }
}

/// The highest-random-weight order lists the nodes by decreasing weight: a node comes
/// before every node that weighs less.
pub proof fn law_hrw_order_sorted(key: Seq<char>, nodes: Seq<Seq<char>>)
    ensures
        forall|i: int, j: int| 0 <= i < j < hrw_order(key, nodes).len() ==>
            hrw_weight(key, #[trigger] hrw_order(key, nodes)[i]) >= hrw_weight(key, #[trigger] hrw_order(key, nodes)[j]),
    decreases nodes.len(),
{
    if nodes.len() > 0 {
        let prev = hrw_order(key, nodes.drop_last());
        let x = nodes.last();
        let w = hrw_weight(key, x);
        law_hrw_order_sorted(key, nodes.drop_last());
        lemma_hrw_order_len(key, nodes.drop_last());
        lemma_first_lighter(prev, key, w, 0);
        let p = first_lighter(prev, key, w, 0);
        let o = hrw_order(key, nodes);
        assert(o == prev.insert(p, x));
        assert forall|i: int, j: int| 0 <= i < j < o.len() implies
            hrw_weight(key, #[trigger] o[i]) >= hrw_weight(key, #[trigger] o[j]) by {
            let wi = hrw_weight(key, o[i]);
            let wj = hrw_weight(key, o[j]);
            if i < p && j < p {
                assert(o[i] == prev[i] && o[j] == prev[j]);
            } else if i < p && j == p {
                assert(o[i] == prev[i] && o[j] == x);
            } else if i < p && j > p {
                assert(o[i] == prev[i] && o[j] == prev[j - 1]);
            } else if i == p {
                assert(o[j] == prev[j - 1]);
                assert(hrw_weight(key, prev[p]) < w);
                if j - 1 > p {
                    assert(hrw_weight(key, prev[p]) >= hrw_weight(key, prev[j - 1]));
                }
            } else {
                assert(o[i] == prev[i - 1] && o[j] == prev[j - 1]);
            }
        }
    }
}

/// Whether a node weighs `w` for `key`.
pub open spec fn weighs(key: Seq<char>, w: u64) -> spec_fn(Seq<char>) -> bool {
    |n: Seq<char>| hrw_weight(key, n) == w
}

/// The highest-random-weight order is stable: the nodes of any one weight come out in the
/// order they came in.
pub proof fn law_hrw_order_stable(key: Seq<char>, nodes: Seq<Seq<char>>, w: u64)
    ensures
        hrw_order(key, nodes).filter(weighs(key, w)) == nodes.filter(weighs(key, w)),
    decreases nodes.len(),
{
    if nodes.len() > 0 {
        let pred = weighs(key, w);
        let rest = nodes.drop_last();
        law_hrw_order_stable(key, rest, w);
        law_hrw_order_sorted(key, rest);
        lemma_hrw_order_len(key, rest);
        let o = hrw_order(key, rest);
        let x = nodes.last();
        let wx = hrw_weight(key, x);
        lemma_first_lighter(o, key, wx, 0);
        let p = first_lighter(o, key, wx, 0);
        let a = o.subrange(0, p);
        let b = o.subrange(p, o.len() as int);
        assert(o =~= a + b);
        assert(hrw_order(key, nodes) == o.insert(p, x));
        assert(o.insert(p, x) =~= a.push(x) + b);
        Seq::filter_distributes_over_add(a, b, pred);
        Seq::filter_distributes_over_add(a.push(x), b, pred);
        a.lemma_filter_push(x, pred);
        rest.lemma_filter_push(x, pred);
        assert(nodes =~= rest.push(x));
        if wx == w {
            assert forall|j: int| 0 <= j < b.len() implies !pred(#[trigger] b[j]) by {
                assert(b[j] == o[p + j]);
                if j > 0 {
                    assert(hrw_weight(key, o[p]) >= hrw_weight(key, o[p + j]));
                }
            }
            b.lemma_all_neg_filter_empty(pred);
            assert(b.filter(pred) =~= Seq::<Seq<char>>::empty());
            assert(o.filter(pred) == a.filter(pred) + b.filter(pred));
            assert(a.filter(pred) + b.filter(pred) =~= a.filter(pred));
        }
    }
}

/// The highest-random-weight order holds each node as often as the list it orders.
pub proof fn law_hrw_order_permutes(key: Seq<char>, nodes: Seq<Seq<char>>)
    ensures
        hrw_order(key, nodes).to_multiset() == nodes.to_multiset(),
    decreases nodes.len(),
{
    broadcast use vstd::seq_lib::to_multiset_insert, vstd::seq_lib::to_multiset_build;
    if nodes.len() == 0 {
        assert(hrw_order(key, nodes) =~= nodes);
    } else {
        let prev = hrw_order(key, nodes.drop_last());
        law_hrw_order_permutes(key, nodes.drop_last());
        lemma_hrw_order_len(key, nodes.drop_last());
        lemma_first_lighter(prev, key, hrw_weight(key, nodes.last()), 0);
        assert(nodes.drop_last().push(nodes.last()) =~= nodes);
    }
}

/// `s` without the occurrences of `x`.
pub open spec fn without(s: Seq<Seq<char>>, x: Seq<char>) -> Seq<Seq<char>>
    decreases s.len(),
{
    if s.len() == 0 {
        Seq::empty()
    } else if s.last() == x {
        without(s.drop_last(), x)
    } else {
        without(s.drop_last(), x).push(s.last())
    }
}

proof fn lemma_without_concat(a: Seq<Seq<char>>, b: Seq<Seq<char>>, x: Seq<char>)
    ensures
        without(a + b, x) == without(a, x) + without(b, x),
    decreases b.len(),
{
    if b.len() == 0 {
        assert(a + b =~= a);
        assert(without(a, x) + without(b, x) =~= without(a, x));
    } else {
        assert((a + b).drop_last() =~= a + b.drop_last());
        assert((a + b).last() == b.last());
        lemma_without_concat(a, b.drop_last(), x);
        if b.last() != x {
            assert(without(a, x) + without(b.drop_last(), x).push(b.last()) =~= (without(a, x) + without(b.drop_last(), x)).push(b.last()));
        }
    }
}

proof fn lemma_without_keeps(a: Seq<Seq<char>>, x: Seq<char>, pred: spec_fn(Seq<char>) -> bool)
    requires
        forall|i: int| 0 <= i < a.len() ==> pred(#[trigger] a[i]),
    ensures
        forall|i: int| 0 <= i < without(a, x).len() ==> pred(#[trigger] without(a, x)[i]),
    decreases a.len(),
{
    if a.len() > 0 {
        assert forall|i: int| 0 <= i < a.drop_last().len() implies pred(#[trigger] a.drop_last()[i]) by {
            assert(a.drop_last()[i] == a[i]);
        }
        lemma_without_keeps(a.drop_last(), x, pred);
        assert(pred(a[a.len() - 1]));
        let w0 = without(a.drop_last(), x);
        if a.last() != x {
            assert forall|i: int| 0 <= i < without(a, x).len() implies pred(#[trigger] without(a, x)[i]) by {
                if i < w0.len() {
                    assert(without(a, x)[i] == w0[i]);
                } else {
                    assert(without(a, x)[i] == a.last());
                }
            }
        }
    }
}

proof fn lemma_without_insert_removed(s: Seq<Seq<char>>, p: int, x: Seq<char>)
    requires
        0 <= p <= s.len(),
    ensures
        without(s.insert(p, x), x) == without(s, x),
{
    assert(s.insert(p, x) =~= s.take(p) + (seq![x] + s.skip(p)));
    assert(s =~= s.take(p) + s.skip(p));
    lemma_without_concat(s.take(p), seq![x] + s.skip(p), x);
    lemma_without_concat(seq![x], s.skip(p), x);
    lemma_without_concat(s.take(p), s.skip(p), x);
    assert(seq![x].drop_last() =~= Seq::<Seq<char>>::empty());
    assert(seq![x].last() == x);
    assert(without(Seq::<Seq<char>>::empty(), x) == Seq::<Seq<char>>::empty());
    assert(without(seq![x], x) =~= Seq::<Seq<char>>::empty());
    assert(without(seq![x], x) + without(s.skip(p), x) =~= without(s.skip(p), x));
}

proof fn lemma_first_lighter_at(t: Seq<Seq<char>>, key: Seq<char>, w: u64, i: int, k: int)
    requires
        0 <= i <= k <= t.len(),
        forall|j: int| i <= j < k ==> hrw_weight(key, #[trigger] t[j]) >= w,
        k == t.len() || hrw_weight(key, t[k]) < w,
    ensures
        first_lighter(t, key, w, i) == k,
    decreases k - i,
{
    if i < k {
        assert(hrw_weight(key, t[i]) >= w);
        lemma_first_lighter_at(t, key, w, i + 1, k);
    }
}

/// Taking a node out of a cluster does not change the order of the others: the
/// highest-random-weight order of the remaining nodes is the old order without it. So a
/// key's replicas move only where the node taken out held one.
#[verifier::spinoff_prover]
pub proof fn law_hrw_removal_keeps_order(key: Seq<char>, nodes: Seq<Seq<char>>, x: Seq<char>)
    ensures
        hrw_order(key, without(nodes, x)) == without(hrw_order(key, nodes), x),
    decreases nodes.len(),
{
    if nodes.len() > 0 {
        let init = nodes.drop_last();
        let y = nodes.last();
        let w = hrw_weight(key, y);
        let prev = hrw_order(key, init);
        law_hrw_removal_keeps_order(key, init, x);
        lemma_hrw_order_len(key, init);
        lemma_first_lighter(prev, key, w, 0);
        let q = first_lighter(prev, key, w, 0);
        assert(hrw_order(key, nodes) == prev.insert(q, y));
        if y == x {
            lemma_without_insert_removed(prev, q, x);
        } else {
            law_hrw_order_sorted(key, init);
            let a = prev.take(q);
            let b = prev.skip(q);
            assert(prev =~= a + b);
            assert(prev.insert(q, y) =~= a + (seq![y] + b));
            lemma_without_concat(a, seq![y] + b, x);
            lemma_without_concat(seq![y], b, x);
            lemma_without_concat(a, b, x);
            assert(seq![y].drop_last() =~= Seq::<Seq<char>>::empty());
            assert(seq![y].last() == y);
            assert(without(Seq::<Seq<char>>::empty(), x) == Seq::<Seq<char>>::empty());
            assert(without(seq![y], x) =~= seq![y]);
            let wa = without(a, x);
            let wb = without(b, x);
            let heavy = |n: Seq<char>| hrw_weight(key, n) >= w;
            let light = |n: Seq<char>| hrw_weight(key, n) < w;
            assert forall|i: int| 0 <= i < a.len() implies heavy(#[trigger] a[i]) by {
                assert(a[i] == prev[i]);
            }
            assert forall|i: int| 0 <= i < b.len() implies light(#[trigger] b[i]) by {
                assert(b[i] == prev[q + i]);
                assert(hrw_weight(key, prev[q]) < w);
                if i > 0 {
                    assert(hrw_weight(key, prev[q]) >= hrw_weight(key, prev[q + i]));
                }
            }
            lemma_without_keeps(a, x, heavy);
            lemma_without_keeps(b, x, light);
            let ws = wa + wb;
            assert forall|j: int| 0 <= j < wa.len() implies hrw_weight(key, #[trigger] ws[j]) >= w by {
                assert(ws[j] == wa[j]);
                assert(heavy(wa[j]));
            }
            if wb.len() > 0 {
                assert(ws[wa.len() as int] == wb[0]);
                assert(light(wb[0]));
            }
            lemma_first_lighter_at(ws, key, w, 0, wa.len() as int);
            let wn = without(init, x).push(y);
            assert(wn == without(nodes, x));
            assert(wn.drop_last() =~= without(init, x));
            assert(wn.last() == y);
            assert(hrw_order(key, wn) == hrw_insert(hrw_order(key, without(init, x)), key, y));
            assert(ws.insert(wa.len() as int, y) =~= wa + (seq![y] + wb));
        }
    }
}

fn node_weight(key: &str, node: &String) -> (r: u64)
    ensures
        r == hrw_weight(key@, node@),
{
    let mut combined = String::from_str(key);
    combined.append(node.as_str());
    let digest = blake3_bytes(combined.as_str().as_bytes());
    digest_u64(&digest)
}

/// Highest-random-weight ordering: the nodes sorted by decreasing weight for `key`,
/// so that a key is placed consistently as the cluster changes.
pub fn hrw_hash(key: &str, nodes: &[String]) -> (r: Vec<String>)
    ensures
        strings_view(r@) == hrw_order(key@, strings_view(nodes@)),
        r@.len() == nodes@.len(),
{
    let mut sorted: Vec<String> = Vec::new();
    let mut weights: Vec<u64> = Vec::new();
    let mut i: usize = 0;
    while i < nodes.len()
        invariant
            i <= nodes@.len(),
            strings_view(sorted@) == hrw_order(key@, strings_view(nodes@.subrange(0, i as int))),
            weights@.len() == sorted@.len(),
            forall|j: int| 0 <= j < sorted@.len() ==> #[trigger] weights@[j] == hrw_weight(key@, sorted@[j]@),
        decreases nodes@.len() - i,
    {
        let ghost prefix = strings_view(nodes@.subrange(0, i as int));
        let ghost before = strings_view(sorted@);
        proof {
            lemma_hrw_order_len(key@, prefix);
            assert(strings_view(nodes@.subrange(0, i as int + 1)).drop_last() =~= prefix);
            assert(strings_view(nodes@.subrange(0, i as int + 1)).last() == nodes@[i as int]@);
        }
        let w = node_weight(key, &nodes[i]);
        let mut p: usize = 0;
        proof { lemma_first_lighter(before, key@, w, 0); }
        while p < weights.len() && weights[p] >= w
            invariant
                p <= weights@.len() == sorted@.len() == before.len(),
                before == strings_view(sorted@),
                forall|j: int| 0 <= j < sorted@.len() ==> #[trigger] weights@[j] == hrw_weight(key@, sorted@[j]@),
                first_lighter(before, key@, w, p as int) == first_lighter(before, key@, w, 0),
            decreases weights@.len() - p,
        {
            proof { assert(before[p as int] == sorted@[p as int]@); }
            p = p + 1;
        }
        proof {
            if p < weights@.len() {
                assert(before[p as int] == sorted@[p as int]@);
            }
        }
        let ghost sorted_before = sorted@;
        let ghost weights_before = weights@;
        sorted.insert(p, nodes[i].clone());
        weights.insert(p, w);
        proof {
            assert(strings_view(sorted@) =~= before.insert(p as int, nodes@[i as int]@));
            assert forall|j: int| 0 <= j < sorted@.len() implies #[trigger] weights@[j] == hrw_weight(key@, sorted@[j]@) by {
                if j > p {
                    assert(sorted@[j] == sorted_before[j - 1]);
                    assert(weights@[j] == weights_before[j - 1]);
                } else if j < p {
                    assert(sorted@[j] == sorted_before[j]);
                    assert(weights@[j] == weights_before[j]);
                }
            }
        }
        i = i + 1;
    }
    proof {
        assert(nodes@.subrange(0, nodes@.len() as int) =~= nodes@);
        lemma_hrw_order_len(key@, strings_view(nodes@));
    }
    sorted
}


/// Select `n` replicas for `key`: the `n` heaviest nodes in highest-random-weight order.
pub fn select_replicas(key: &str, nodes: &[String], n: usize) -> (r: Vec<String>)
    ensures
        strings_view(r@) == hrw_order(key@, strings_view(nodes@)).take(
            if n < nodes@.len() { n as int } else { nodes@.len() as int }),
{
    let mut sorted = hrw_hash(key, nodes);
    if n < sorted.len() {
        sorted.truncate(n);
    }
    proof {
        assert(strings_view(sorted@) =~= hrw_order(key@, strings_view(nodes@)).take(
            if n < nodes@.len() { n as int } else { nodes@.len() as int }));
    }
    sorted
}

/// The two-level directory prefix of a blob: the first two bytes of the BLAKE3 digest of
/// the key, each in two lowercase hexadecimal digits.
pub fn blob_prefix(key: &str) -> (r: (String, String))
    ensures
        r.0@ == hex_lower(blake3_digest(encode_utf8(key@)).subrange(0, 1)),
        r.1@ == hex_lower(blake3_digest(encode_utf8(key@)).subrange(1, 2)),
{
    let digest = blake3_bytes(key.as_bytes());
    let s: &[u8] = digest.as_slice();
    (to_hex(vstd::slice::slice_subrange(s, 0, 1)), to_hex(vstd::slice::slice_subrange(s, 1, 2)))
}

/// `blake3::Hasher`, carried as it is inside `Blake3Hasher`.
#[verifier::external_type_specification]
#[verifier::external_body]
pub struct ExBlake3Hasher(blake3::Hasher);

/// An incremental BLAKE3 computation over data given in pieces.
pub struct Blake3Hasher {
    hasher: blake3::Hasher,
    absorbed: Ghost<Seq<u8>>,
}

/// `blake3::Hasher::new`: a hasher that has absorbed nothing.
#[verifier::external_body]
fn blake3_hasher_start() -> (r: Blake3Hasher)
    ensures
        r.absorbed@ == Seq::<u8>::empty(),
{
    Blake3Hasher { hasher: blake3::Hasher::new(), absorbed: Ghost(Seq::empty()) }
}

/// `blake3::Hasher::update`: absorbs more data.
#[verifier::external_body]
fn blake3_hasher_absorb(h: &mut Blake3Hasher, data: &[u8])
    ensures
        final(h).absorbed@ == old(h).absorbed@ + data@,
{
    h.hasher.update(data);
}

/// `blake3::Hasher::finalize`: the digest of everything absorbed, equal to the
/// one-shot digest of the concatenated data.
#[verifier::external_body]
fn blake3_hasher_digest(h: &Blake3Hasher) -> (r: [u8; 32])
    ensures
        r@ == blake3_digest(h.absorbed@),
{
    *h.hasher.finalize().as_bytes()
}

impl Blake3Hasher {
    /// The data absorbed so far.
    pub closed spec fn data(&self) -> Seq<u8> {
        self.absorbed@
    }

    /// A hasher that has absorbed nothing.
    pub fn new() -> (r: Blake3Hasher)
        ensures
            r.data() == Seq::<u8>::empty(),
    {
        blake3_hasher_start()
    }

    /// Absorbs `data`.
    pub fn update(&mut self, data: &[u8])
        ensures
            final(self).data() == old(self).data() + data@,
    {
        blake3_hasher_absorb(self, data)
    }

    /// The hash of everything absorbed, in lowercase hexadecimal.
    pub fn finalize(&self) -> (r: String)
        ensures
            r@ == hex_lower(blake3_digest(self.data())),
    {
        let digest = blake3_hasher_digest(self);
        to_hex(&digest)
    }
}

/// The name of shard `shard` used to place it: `shard-` followed by its number.
pub open spec fn shard_name(shard: u64) -> Seq<char> {
    seq!['s', 'h', 'a', 'r', 'd', '-'] + decimal(shard as nat)
}

/// Whether shard `s` is assigned to the `replicas` heaviest of `nodes` for its name.
pub open spec fn placed(a: Map<u64, Seq<Seq<char>>>, s: u64, nodes: Seq<Seq<char>>, replicas: usize) -> bool {
    &&& a.contains_key(s)
    &&& a[s] == hrw_order(shard_name(s), nodes).take(if replicas < nodes.len() { replicas as int } else { nodes.len() as int })
}

/// The first assigned shard met walking a ring of `n` shards from `start`: `start`,
/// `start + 1` and so on, then from shard 0 again up to `start`; `None` where no shard of
/// the ring is assigned.
#[verifier::opaque]
pub open spec fn ring_successor(a: Map<u64, Seq<Seq<char>>>, start: u64, n: u64) -> Option<u64> {
    if exists|c: u64| start <= c < n && #[trigger] a.contains_key(c) {
        Some(choose|c: u64| start <= c < n && #[trigger] a.contains_key(c) && forall|t: u64| start <= t < c ==> !a.contains_key(t))
    } else if exists|c: u64| c < start && c < n && #[trigger] a.contains_key(c) {
        Some(choose|c: u64| c < start && c < n && #[trigger] a.contains_key(c) && forall|t: u64| t < c ==> !a.contains_key(t))
    } else {
        None
    }
}

/// The walk stops at the first assigned shard at or after `start`.
proof fn lemma_ring_successor_ahead(a: Map<u64, Seq<Seq<char>>>, start: u64, n: u64, s: u64)
    requires
        start <= s < n,
        a.contains_key(s),
        forall|t: u64| start <= t < s ==> !a.contains_key(t),
    ensures
        ring_successor(a, start, n) == Some(s),
{
    reveal(ring_successor);
    assert(exists|c: u64| start <= c < n && #[trigger] a.contains_key(c));
    let c = choose|c: u64| start <= c < n && #[trigger] a.contains_key(c) && forall|t: u64| start <= t < c ==> !a.contains_key(t);
    assert(start <= c < n && a.contains_key(c) && forall|t: u64| start <= t < c ==> !a.contains_key(t));
    if c < s {
        assert(!a.contains_key(c));
    } else if c > s {
        assert(!a.contains_key(s));
    }
}

/// With nothing assigned from `start` to the end, the walk stops at the first assigned shard
/// from 0.
proof fn lemma_ring_successor_wrapped(a: Map<u64, Seq<Seq<char>>>, start: u64, n: u64, s: u64)
    requires
        s < start < n,
        a.contains_key(s),
        forall|t: u64| start <= t < n ==> !a.contains_key(t),
        forall|t: u64| t < s ==> !a.contains_key(t),
    ensures
        ring_successor(a, start, n) == Some(s),
{
    reveal(ring_successor);
    assert(!exists|c: u64| start <= c < n && #[trigger] a.contains_key(c));
    assert(exists|c: u64| c < start && c < n && #[trigger] a.contains_key(c));
    let c = choose|c: u64| c < start && c < n && #[trigger] a.contains_key(c) && forall|t: u64| t < c ==> !a.contains_key(t);
    assert(c < start && c < n && a.contains_key(c) && forall|t: u64| t < c ==> !a.contains_key(t));
    if c < s {
        assert(!a.contains_key(c));
    } else if c > s {
        assert(!a.contains_key(s));
    }
}

/// With no shard of the ring assigned, the walk finds none.
proof fn lemma_ring_successor_none(a: Map<u64, Seq<Seq<char>>>, start: u64, n: u64)
    requires
        start < n,
        forall|t: u64| t < n ==> !a.contains_key(t),
    ensures
        ring_successor(a, start, n) is None,
{
    reveal(ring_successor);
    assert(!exists|c: u64| start <= c < n && #[trigger] a.contains_key(c));
    assert(!exists|c: u64| c < start && c < n && #[trigger] a.contains_key(c));
}

/// Maps keys to shards and shards to the nodes that hold them.
pub struct ConsistentHashRing {
    num_shards: u64,
    shard_to_nodes: HashMap<u64, Vec<String>>,
}

/// The nodes of each assigned shard.
pub open spec fn ring_view(m: Map<u64, Vec<String>>) -> Map<u64, Seq<Seq<char>>> {
    Map::new(|s: u64| m.contains_key(s), |s: u64| strings_view(m[s]@))
}

fn shard_label(shard: u64) -> (r: String)
    ensures
        r@ == shard_name(shard),
{
    let mut s = String::from_str("shard-");
    proof { reveal_strlit("shard-"); }
    let digits = decimal_string(shard);
    s.append(digits.as_str());
    proof { assert(s@ =~= shard_name(shard)); }
    s
}

impl ConsistentHashRing {
    /// The assignment of shards to nodes.
    pub closed spec fn assignment(&self) -> Map<u64, Seq<Seq<char>>> {
        ring_view(self.shard_to_nodes@)
    }

    /// The number of shards.
    pub closed spec fn shards(&self) -> u64 {
        self.num_shards
    }

    /// A ring of `num_shards` shards, none assigned.
    pub fn new(num_shards: u64) -> (r: ConsistentHashRing)
        ensures
            r.shards() == num_shards,
            r.assignment() == Map::<u64, Seq<Seq<char>>>::empty(),
    {
        let r = ConsistentHashRing { num_shards, shard_to_nodes: HashMap::new() };
        proof { assert(r.assignment() =~= Map::<u64, Seq<Seq<char>>>::empty()); }
        r
    }

    /// Assigns `shard` to `nodes`.
    pub fn assign_shard(&mut self, shard: u64, nodes: Vec<String>)
        ensures
            final(self).shards() == old(self).shards(),
            final(self).assignment() == old(self).assignment().insert(shard, strings_view(nodes@)),
    {
        let ghost v = strings_view(nodes@);
        self.shard_to_nodes.insert(shard, nodes);
        proof { assert(self.assignment() =~= old(self).assignment().insert(shard, v)); }
    }

    /// The nodes of `shard`, if it is assigned.
    pub fn get_shard_nodes(&self, shard: u64) -> (r: Option<&[String]>)
        ensures
            match r {
                Some(nodes) => self.assignment().contains_key(shard) && strings_view(nodes@) == self.assignment()[shard],
                None => !self.assignment().contains_key(shard),
            },
    {
        match self.shard_to_nodes.get(&shard) {
            Some(v) => Some(v.as_slice()),
            None => None,
        }
    }

    /// The nodes responsible for `key`: those of the first assigned shard met walking the
    /// ring from the key's shard (its own shard where that is assigned).
    pub fn get_nodes(&self, key: &str) -> (r: Option<&[String]>)
        requires
            self.shards() > 0,
        ensures
            match ring_successor(self.assignment(), shard_of(key@, self.shards()), self.shards()) {
                Some(s) => r matches Some(nodes) && strings_view(nodes@) == self.assignment()[s],
                None => r is None,
            },
    {
        let n = self.num_shards;
        let start = shard_key(key, n);
        let ghost a = self.assignment();
        let mut s = start;
        while s < n
            invariant
                a == self.assignment(),
                n == self.shards(),
                start == shard_of(key@, n),
                start <= s <= n,
                start < n,
                forall|t: u64| start <= t < s ==> !a.contains_key(t),
            decreases n - s,
        {
            match self.get_shard_nodes(s) {
                Some(v) => {
                    proof { lemma_ring_successor_ahead(a, start, n, s); }
                    return Some(v);
                },
                None => {},
            }
            s = s + 1;
        }
        let mut s: u64 = 0;
        while s < start
            invariant
                a == self.assignment(),
                n == self.shards(),
                start == shard_of(key@, n),
                s <= start < n,
                forall|t: u64| start <= t < n ==> !a.contains_key(t),
                forall|t: u64| t < s ==> !a.contains_key(t),
            decreases start - s,
        {
            match self.get_shard_nodes(s) {
                Some(v) => {
                    proof { lemma_ring_successor_wrapped(a, start, n, s); }
                    return Some(v);
                },
                None => {},
            }
            s = s + 1;
        }
        proof { lemma_ring_successor_none(a, start, n); }
        None
    }

    /// Reassigns every shard to `replicas` of the available nodes, chosen by
    /// highest-random-weight placement of the shard's name.
    pub fn rebalance(&mut self, available_nodes: &[String], replicas: usize)
        ensures
            final(self).shards() == old(self).shards(),
            forall|s: u64| s < old(self).shards() ==> #[trigger] placed(final(self).assignment(), s, strings_view(available_nodes@), replicas),
            forall|s: u64| s >= old(self).shards() ==> (#[trigger] final(self).assignment().contains_key(s)
                == old(self).assignment().contains_key(s))
                && (old(self).assignment().contains_key(s) ==> final(self).assignment()[s] == old(self).assignment()[s]),
    {
        let mut shard: u64 = 0;
        while shard < self.num_shards
            invariant
                self.num_shards == old(self).num_shards,
                shard <= self.num_shards,
                forall|s: u64| s < shard ==> #[trigger] placed(self.assignment(), s, strings_view(available_nodes@), replicas),
                forall|s: u64| s >= shard ==> (#[trigger] self.assignment().contains_key(s)
                    == old(self).assignment().contains_key(s))
                    && (old(self).assignment().contains_key(s) ==> self.assignment()[s] == old(self).assignment()[s]),
            decreases self.num_shards - shard,
        {
            let label = shard_label(shard);
            let nodes = select_replicas(label.as_str(), available_nodes, replicas);
            let ghost before = self.assignment();
            self.assign_shard(shard, nodes);
            proof {
                let nv = strings_view(available_nodes@);
                assert forall|s: u64| s < shard + 1 implies #[trigger] placed(self.assignment(), s, nv, replicas) by {
                    if s < shard {
                        assert(placed(before, s, nv, replicas));
                    }
                }
            }
            shard = shard + 1;
        }
        proof {
            assert(shard == old(self).shards());
        }
    }

    /// The shards assigned to `node`, each once, in no particular order.
    pub fn shards_for_node(&self, node: &str) -> (r: Vec<u64>)
        ensures
            r@.no_duplicates(),
            forall|s: u64| r@.contains(s) <==> self.assignment().contains_key(s)
                && self.assignment()[s].contains(node@),
    {
        let mut out: Vec<u64> = Vec::new();
        let target = String::from_str(node);
        let ghost m = self.shard_to_nodes@;
        for (shard, nodes) in it: self.shard_to_nodes.iter()
            invariant
                m == self.shard_to_nodes@,
                it.seq().len() == m.dom().len(),
                it.seq().no_duplicates(),
                forall|i: int| 0 <= i < it.seq().len() ==> m.contains_key(*it.seq()[i].0) && m[*it.seq()[i].0] == *it.seq()[i].1,
                forall|k: u64| #[trigger] m.contains_key(k) ==> it.seq().contains((&k, &m[k])),
                target@ == node@,
                out@.no_duplicates(),
                forall|s: u64| out@.contains(s) ==> exists|i: int| 0 <= i < it.index() && *it.seq()[i].0 == s,
                forall|s: u64| out@.contains(s) ==> m.contains_key(s) && strings_view(m[s]@).contains(node@),
                forall|i: int| 0 <= i < it.index() && strings_view((*it.seq()[i].1)@).contains(node@) ==> out@.contains(*it.seq()[i].0),
        {
            let mut found = false;
            let mut j: usize = 0;
            while j < nodes.len()
                invariant
                    j <= nodes@.len(),
                    target@ == node@,
                    found == strings_view(nodes@.subrange(0, j as int)).contains(node@),
                decreases nodes@.len() - j,
            {
                proof {
                    assert(strings_view(nodes@.subrange(0, j as int + 1)) =~= strings_view(nodes@.subrange(0, j as int)).push(nodes@[j as int]@));
                }
                let same = nodes[j] == target;
                proof {
                    let pre = strings_view(nodes@.subrange(0, j as int));
                    let x = nodes@[j as int]@;
                    if same {
                        assert(pre.push(x)[j as int] == node@);
                    }
                    if pre.push(x).contains(node@) && !pre.contains(node@) {
                        let w = choose|w: int| 0 <= w < pre.push(x).len() && pre.push(x)[w] == node@;
                        if w < j { assert(pre[w] == node@); }
                    }
                    if pre.contains(node@) {
                        let w = choose|w: int| 0 <= w < pre.len() && pre[w] == node@;
                        assert(pre.push(x)[w] == node@);
                    }
                }
                if same {
                    found = true;
                }
                j = j + 1;
            }
            proof {
                assert(nodes@.subrange(0, nodes@.len() as int) =~= nodes@);
                let idx = it.index() as int;
                assert forall|i: int| 0 <= i < idx implies *it.seq()[i].0 != *shard by {
                    if *it.seq()[i].0 == *shard {
                        assert(m[*shard] == *it.seq()[i].1);
                        assert(it.seq()[i] == it.seq()[idx]);
                    }
                }
            }
            proof {
                let idx = it.index() as int;
                assert(it.seq()[idx] == (shard, nodes));
                assert(!out@.contains(*shard));
                assert(found == strings_view(nodes@).contains(node@));
            }
            let ghost out_before = out@;
            if found {
                out.push(*shard);
                proof {
                    assert forall|s: u64| out@.contains(s) implies exists|i: int| 0 <= i < it.index() + 1 && *it.seq()[i].0 == s by {
                        if s == *shard {
                            assert(*it.seq()[it.index() as int].0 == s);
                        } else {
                            assert(out_before.contains(s));
                        }
                    }
                    assert(out@[out@.len() - 1] == *shard);
                    assert(out@.contains(*shard));
                    assert forall|x: u64| out_before.contains(x) implies out@.contains(x) by {
                        let w = choose|w: int| 0 <= w < out_before.len() && out_before[w] == x;
                        assert(out@[w] == x);
                    }
                }
            }
        }
        out
    }
}

} // verus!
