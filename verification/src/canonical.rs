//! The trie has one form for each content.
//!
//! A node without value and children is no node, and one without value and
//! with a single child is merged with that child. So every node holds
//! something, its path is the longest path that all it holds shares, and
//! two persisted tries that hold the same values under the same paths are
//! the same node for node. With the nodes named by the hash of their
//! content, they are then the same root.

use vstd::prelude::*;
use crate::delta_db::children_first;
use crate::delta_db::placed_before;
use crate::delta_db::table_wf;
use crate::nibbles::starts_with;
use crate::node::content_hash;
use crate::node::encode_spec;
use crate::node::MerkleHash;
use crate::node::NodeData;
use crate::node::FAN_OUT;
use crate::trie::hash_lookup;
use crate::trie::lemma_path_through;
use crate::trie::path_through;
use crate::trie::NodeTable;

verus! {

/// Every node of the table stands under the content hash of its bytes.
pub open spec fn hashed(nodes: NodeTable) -> bool {
    forall|h: MerkleHash| #[trigger] nodes.contains_key(h) ==> content_hash(encode_spec(nodes[h])) == h
}

/// The tries under two hashes hold the same value under every path.
pub open spec fn same_lookup(nodes: NodeTable, a: MerkleHash, b: MerkleHash) -> bool {
    forall|k: Seq<u8>|
        #![trigger hash_lookup(nodes, a, k)]
        #![trigger hash_lookup(nodes, b, k)]
        hash_lookup(nodes, a, k) == hash_lookup(nodes, b, k)
}

/// What a node holds for a path, step by step: nothing for a path that does
/// not start with the node's path, its value for its own path, and else
/// what the child at the next element holds for the rest.
pub proof fn lemma_lookup_step(nodes: NodeTable, h: MerkleHash, k: Seq<u8>)
    requires
        nodes.contains_key(h),
        nodes[h].children.len() == FAN_OUT,
    ensures
        !starts_with(k, nodes[h].path) ==> hash_lookup(nodes, h, k).is_none(),
        starts_with(k, nodes[h].path) && k.len() == nodes[h].path.len() ==> hash_lookup(nodes, h, k)
            == nodes[h].value,
        starts_with(k, nodes[h].path) && k.len() > nodes[h].path.len() ==> hash_lookup(nodes, h, k)
            == (if k[nodes[h].path.len() as int] >= FAN_OUT {
            None
        } else {
            match nodes[h].children[k[nodes[h].path.len() as int] as int] {
                Some(c) => hash_lookup(nodes, c, k.skip(nodes[h].path.len() as int + 1)),
                None => None,
            }
        }),
{
    let n = nodes[h].path.len() as int;
    if starts_with(k, nodes[h].path) {
        let rest = k.skip(n);
        if rest.len() > 0 {
            assert(rest[0] == k[n]);
            assert(rest.skip(1) =~= k.skip(n + 1));
        }
    }
}

/// What a node holds for a path through one of its children.
pub proof fn lemma_lookup_through(nodes: NodeTable, h: MerkleHash, idx: int, sub: Seq<u8>)
    requires
        nodes.contains_key(h),
        nodes[h].children.len() == FAN_OUT,
        0 <= idx < FAN_OUT,
    ensures
        hash_lookup(nodes, h, path_through(nodes[h].path, idx, sub)) == match nodes[h].children[idx] {
            Some(c) => hash_lookup(nodes, c, sub),
            None => None,
        },
{
    let k = path_through(nodes[h].path, idx, sub);
    lemma_path_through(nodes[h].path, idx, sub);
    lemma_lookup_step(nodes, h, k);
}

/// Every node holds something: there is a path under which it has a value.
pub proof fn lemma_holds_something(nodes: NodeTable, order: Seq<MerkleHash>, i: int) -> (k: Seq<u8>)
    requires
        table_wf(nodes),
        children_first(nodes, order),
        0 <= i < order.len(),
        nodes.contains_key(order[i]),
    ensures
        hash_lookup(nodes, order[i], k).is_some(),
    decreases i,
{
    let h = order[i];
    let d = nodes[h];
    assert(d.wf() && d.shaped());
    if d.value.is_some() {
        assert(d.path.subrange(0, d.path.len() as int) =~= d.path);
        lemma_lookup_step(nodes, h, d.path);
        d.path
    } else {
        let (a, b) = choose|a: int, b: int|
            0 <= a < b < d.children.len() && (#[trigger] d.children[a]).is_some() && (
            #[trigger] d.children[b]).is_some();
        let c = d.children[a].unwrap();
        assert(nodes[order[i]].children[a].is_some());
        assert(placed_before(order, i, c));
        let j = choose|j: int| 0 <= j < i && j < order.len() && #[trigger] order[j] == c;
        assert(nodes.contains_key(c));
        let sub = lemma_holds_something(nodes, order, j);
        lemma_lookup_through(nodes, h, a, sub);
        path_through(d.path, a, sub)
    }
}

/// Of two nodes that hold the same, the second has no longer path than the first.
proof fn lemma_path_not_longer(nodes: NodeTable, order: Seq<MerkleHash>, i1: int, i2: int)
    requires
        table_wf(nodes),
        children_first(nodes, order),
        0 <= i1 < order.len(),
        0 <= i2 < order.len(),
        nodes.contains_key(order[i1]),
        nodes.contains_key(order[i2]),
        same_lookup(nodes, order[i1], order[i2]),
    ensures
        nodes[order[i2]].path.len() <= nodes[order[i1]].path.len(),
{
    let h1 = order[i1];
    let h2 = order[i2];
    let d1 = nodes[h1];
    let d2 = nodes[h2];
    assert(d1.wf() && d1.shaped());
    assert(d2.wf() && d2.shaped());
    let n = d1.path.len() as int;
    if d2.path.len() > n {
        if d1.value.is_some() {
            assert(d1.path.subrange(0, n) =~= d1.path);
            lemma_lookup_step(nodes, h1, d1.path);
            assert(hash_lookup(nodes, h1, d1.path) == hash_lookup(nodes, h2, d1.path));
            lemma_lookup_step(nodes, h2, d1.path);
            assert(false);
        } else {
            let (a, b) = choose|a: int, b: int|
                0 <= a < b < d1.children.len() && (#[trigger] d1.children[a]).is_some() && (
                #[trigger] d1.children[b]).is_some();
            let ca = d1.children[a].unwrap();
            let cb = d1.children[b].unwrap();
            assert(nodes[order[i1]].children[a].is_some());
            assert(nodes[order[i1]].children[b].is_some());
            assert(placed_before(order, i1, ca));
            assert(placed_before(order, i1, cb));
            let ja = choose|j: int| 0 <= j < i1 && j < order.len() && #[trigger] order[j] == ca;
            let jb = choose|j: int| 0 <= j < i1 && j < order.len() && #[trigger] order[j] == cb;
            assert(nodes.contains_key(ca) && nodes.contains_key(cb));
            let sa = lemma_holds_something(nodes, order, ja);
            let sb = lemma_holds_something(nodes, order, jb);
            let ka = path_through(d1.path, a, sa);
            let kb = path_through(d1.path, b, sb);
            lemma_lookup_through(nodes, h1, a, sa);
            lemma_lookup_through(nodes, h1, b, sb);
            lemma_path_through(d1.path, a, sa);
            lemma_path_through(d1.path, b, sb);
            assert(hash_lookup(nodes, h1, ka) == hash_lookup(nodes, h2, ka));
            assert(hash_lookup(nodes, h1, kb) == hash_lookup(nodes, h2, kb));
            lemma_lookup_step(nodes, h2, ka);
            lemma_lookup_step(nodes, h2, kb);
            assert(starts_with(ka, d2.path) && starts_with(kb, d2.path));
            assert(ka.subrange(0, d2.path.len() as int)[n] == d2.path[n]);
            assert(kb.subrange(0, d2.path.len() as int)[n] == d2.path[n]);
            assert(false);
        }
    }
}

/// Two nodes that hold the same have the same content, and so the same hash.
pub proof fn lemma_same_content_same_hash(
    nodes: NodeTable,
    order: Seq<MerkleHash>,
    i1: int,
    i2: int,
)
    requires
        table_wf(nodes),
        children_first(nodes, order),
        hashed(nodes),
        0 <= i1 < order.len(),
        0 <= i2 < order.len(),
        nodes.contains_key(order[i1]),
        nodes.contains_key(order[i2]),
        same_lookup(nodes, order[i1], order[i2]),
    ensures
        order[i1] == order[i2],
    decreases i1,
{
    let h1 = order[i1];
    let h2 = order[i2];
    let d1 = nodes[h1];
    let d2 = nodes[h2];
    assert(d1.wf() && d1.shaped());
    assert(d2.wf() && d2.shaped());
    // the paths
    lemma_path_not_longer(nodes, order, i1, i2);
    assert(same_lookup(nodes, h2, h1));
    lemma_path_not_longer(nodes, order, i2, i1);
    let n = d1.path.len() as int;
    let k0 = lemma_holds_something(nodes, order, i1);
    assert(hash_lookup(nodes, h1, k0) == hash_lookup(nodes, h2, k0));
    lemma_lookup_step(nodes, h1, k0);
    lemma_lookup_step(nodes, h2, k0);
    assert(d1.path =~= d2.path);
    // the values
    assert(d1.path.subrange(0, n) =~= d1.path);
    lemma_lookup_step(nodes, h1, d1.path);
    lemma_lookup_step(nodes, h2, d1.path);
    assert(hash_lookup(nodes, h1, d1.path) == hash_lookup(nodes, h2, d1.path));
    assert(d1.value == d2.value);
    // the children
    assert forall|idx: int| 0 <= idx < FAN_OUT implies d1.children[idx] == d2.children[idx] by {
        match d1.children[idx] {
            Some(c1) => {
                assert(nodes[order[i1]].children[idx].is_some());
                assert(placed_before(order, i1, c1));
                let j1 = choose|j: int| 0 <= j < i1 && j < order.len() && #[trigger] order[j] == c1;
                assert(nodes.contains_key(c1));
                let sub = lemma_holds_something(nodes, order, j1);
                lemma_lookup_through(nodes, h1, idx, sub);
                lemma_lookup_through(nodes, h2, idx, sub);
                let key = path_through(d1.path, idx, sub);
                assert(hash_lookup(nodes, h1, key) == hash_lookup(nodes, h2, key));
                assert(d2.children[idx].is_some());
                let c2 = d2.children[idx].unwrap();
                assert(nodes[order[i2]].children[idx].is_some());
                assert(placed_before(order, i2, c2));
                let j2 = choose|j: int| 0 <= j < i2 && j < order.len() && #[trigger] order[j] == c2;
                assert(nodes.contains_key(c2));
                assert(same_lookup(nodes, c1, c2)) by {
                    assert forall|k: Seq<u8>|
                        #![trigger hash_lookup(nodes, c1, k)]
                        #![trigger hash_lookup(nodes, c2, k)]
                        hash_lookup(nodes, c1, k) == hash_lookup(nodes, c2, k) by {
                        lemma_lookup_through(nodes, h1, idx, k);
                        lemma_lookup_through(nodes, h2, idx, k);
                        let through = path_through(d1.path, idx, k);
                        assert(hash_lookup(nodes, h1, through) == hash_lookup(nodes, h2, through));
                    }
                }
                lemma_same_content_same_hash(nodes, order, j1, j2);
            },
            None => {
                if d2.children[idx].is_some() {
                    let c2 = d2.children[idx].unwrap();
                    assert(nodes[order[i2]].children[idx].is_some());
                    assert(placed_before(order, i2, c2));
                    let j2 = choose|j: int|
                        0 <= j < i2 && j < order.len() && #[trigger] order[j] == c2;
                    assert(nodes.contains_key(c2));
                    let sub = lemma_holds_something(nodes, order, j2);
                    lemma_lookup_through(nodes, h1, idx, sub);
                    lemma_lookup_through(nodes, h2, idx, sub);
                    let key = path_through(d1.path, idx, sub);
                    assert(hash_lookup(nodes, h1, key) == hash_lookup(nodes, h2, key));
                    assert(false);
                }
            },
        }
    }
    assert(d1.children =~= d2.children);
    assert(d1 =~= d2);
}

} // verus!
