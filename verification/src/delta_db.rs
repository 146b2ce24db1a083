//! The backing store of one logical database: rows of node bytes, each under
//! the content hash of its bytes.

use vstd::prelude::*;
use std::collections::HashMap;
use crate::epoch_roots::ascending;
use crate::epoch_roots::roots_map;
use crate::epoch_roots::lemma_roots_map_at;
use crate::epoch_roots::EpochId;
use crate::epoch_roots::EpochRoot;
use crate::epoch_roots::EpochRoots;
use crate::errors::ErrorKind;
use crate::node::bytes_equal;
use crate::node::copy_range;
use crate::node::content_hash;
use crate::node::decode_spec;
use crate::node::encode_spec;
use crate::node::hash_bytes;
use crate::node::MerkleHash;
use crate::node::NodeData;
use crate::node::TrieNode;
use crate::node::FAN_OUT;

verus! {

broadcast use vstd::std_specs::hash::group_hash_axioms;

/// A row of a backing store.
pub struct DbRow {
    pub key: MerkleHash,
    pub value: Vec<u8>,
}

/// The nodes that rows hold: one under each key whose bytes are a node.
pub open spec fn node_table(rows: Map<MerkleHash, Seq<u8>>) -> Map<MerkleHash, NodeData> {
    Map::new(
        |h: MerkleHash| rows.contains_key(h) && decode_spec(rows[h]).is_some(),
        |h: MerkleHash| decode_spec(rows[h]).unwrap(),
    )
}

/// Every child that a node of the table names is in the table.
pub open spec fn table_closed(nodes: Map<MerkleHash, NodeData>) -> bool {
    forall|h: MerkleHash, i: int|
        #![trigger nodes[h].children[i]]
        nodes.contains_key(h) && 0 <= i < FAN_OUT && nodes[h].children[i].is_some()
            ==> nodes.contains_key(nodes[h].children[i].unwrap())
}

/// The nodes of the table are well formed and have the shape that the trie
/// keeps, and their children are in the table.
pub open spec fn table_wf(nodes: Map<MerkleHash, NodeData>) -> bool {
    &&& table_closed(nodes)
    &&& forall|h: MerkleHash| #[trigger] nodes.contains_key(h) ==> nodes[h].wf() && nodes[h].shaped()
}

/// Every row holds the bytes of a well-formed node under their content hash,
/// and every child that a node names has a row.
pub open spec fn rows_wf(rows: Map<MerkleHash, Seq<u8>>) -> bool {
    &&& forall|h: MerkleHash| #[trigger]
        rows.contains_key(h) ==> decode_spec(rows[h]).is_some() && content_hash(rows[h]) == h
            && rows[h] == encode_spec(decode_spec(rows[h]).unwrap())
    &&& table_wf(node_table(rows))
}

/// A row as it is read from a store: the node it holds, if it holds one
/// under the content hash of its bytes.
pub open spec fn row_node(row: DbRow) -> Option<NodeData> {
    if content_hash(row.value@) == row.key && decode_spec(row.value@).is_some() && decode_spec(
        row.value@,
    ).unwrap().shaped() && encode_spec(decode_spec(row.value@).unwrap()) == row.value@ {
        decode_spec(row.value@)
    } else {
        None
    }
}

/// One of the first `n` rows has the key `h`.
pub open spec fn has_key_before(rows: Seq<DbRow>, n: int, h: MerkleHash) -> bool {
    exists|j: int| 0 <= j < n && j < rows.len() && (#[trigger] rows[j]).key == h
}

/// One of the first `n` places of the order holds `h`.
pub open spec fn placed_before(order: Seq<MerkleHash>, n: int, h: MerkleHash) -> bool {
    exists|j: int| 0 <= j < n && j < order.len() && #[trigger] order[j] == h
}

/// Children come before their parents: every child that the node at a place
/// names stands at an earlier place.
pub open spec fn children_first(nodes: Map<MerkleHash, NodeData>, order: Seq<MerkleHash>) -> bool {
    forall|i: int, k: int|
        #![trigger nodes[order[i]].children[k]]
        0 <= i < order.len() && 0 <= k < FAN_OUT && nodes[order[i]].children[k].is_some()
            ==> placed_before(order, i, nodes[order[i]].children[k].unwrap())
}

pub open spec fn has_key(rows: Seq<DbRow>, h: MerkleHash) -> bool {
    exists|i: int| 0 <= i < rows.len() && (#[trigger] rows[i]).key == h
}

/// Rows that make a store: each holds the bytes of a node of the trie's
/// shape under their content hash, no key occurs twice, and every child
/// named has a row that comes earlier.
pub open spec fn image_valid(rows: Seq<DbRow>) -> bool {
    &&& forall|i: int| 0 <= i < rows.len() ==> row_node(#[trigger] rows[i]).is_some()
    &&& forall|i: int, j: int|
        0 <= i < j < rows.len() ==> (#[trigger] rows[i]).key != (#[trigger] rows[j]).key
    &&& forall|i: int, k: int|
        #![trigger row_node(rows[i]).unwrap().children[k]]
        0 <= i < rows.len() && 0 <= k < FAN_OUT && row_node(rows[i]).unwrap().children[k].is_some()
            ==> has_key_before(rows, i, row_node(rows[i]).unwrap().children[k].unwrap())
}

/// The store that rows make.
pub open spec fn image_rows(rows: Seq<DbRow>) -> Map<MerkleHash, Seq<u8>> {
    Map::new(
        |h: MerkleHash| has_key(rows, h),
        |h: MerkleHash| rows[choose|i: int| 0 <= i < rows.len() && (#[trigger] rows[i]).key == h].value@,
    )
}

/// The keys of rows, in order.
pub open spec fn row_keys(rows: Seq<DbRow>) -> Seq<MerkleHash> {
    rows.map_values(|r: DbRow| r.key)
}

/// Valid rows make a well-formed store.
proof fn lemma_image_wf(rows: Seq<DbRow>, stored: Map<MerkleHash, Seq<u8>>)
    requires
        image_valid(rows),
        stored == image_rows(rows),
        forall|j: int| 0 <= j < rows.len() ==> decode_spec((#[trigger] rows[j]).value@).unwrap().wf(),
    ensures
        rows_wf(stored),
        forall|j: int|
            0 <= j < rows.len() ==> stored.contains_key((#[trigger] rows[j]).key)
                && stored[rows[j].key] == rows[j].value@,
{
    assert forall|j: int| 0 <= j < rows.len() implies stored.contains_key(
        (#[trigger] rows[j]).key,
    ) && stored[rows[j].key] == rows[j].value@ by {
        let m = choose|m: int| 0 <= m < rows.len() && (#[trigger] rows[m]).key == rows[j].key;
        if m < j {
            assert(rows[m].key != rows[j].key);
        } else if j < m {
            assert(rows[j].key != rows[m].key);
        }
    }
    assert forall|h: MerkleHash| #[trigger] stored.contains_key(h) implies decode_spec(
        stored[h],
    ).is_some() && content_hash(stored[h]) == h && decode_spec(stored[h]).unwrap().wf()
        && decode_spec(stored[h]).unwrap().shaped() && stored[h] == encode_spec(
        decode_spec(stored[h]).unwrap(),
    ) by {
        let j = choose|j: int| 0 <= j < rows.len() && (#[trigger] rows[j]).key == h;
        assert(row_node(rows[j]).is_some());
    }
    let nodes = node_table(stored);
    assert forall|h: MerkleHash, i: int|
        #![trigger nodes[h].children[i]]
        nodes.contains_key(h) && 0 <= i < FAN_OUT && nodes[h].children[i].is_some()
            implies nodes.contains_key(nodes[h].children[i].unwrap()) by {
        let j = choose|j: int| 0 <= j < rows.len() && (#[trigger] rows[j]).key == h;
        assert(row_node(rows[j]).is_some());
        assert(row_node(rows[j]).unwrap().children[i].is_some());
        let c = nodes[h].children[i].unwrap();
        assert(has_key_before(rows, j, c));
        let m = choose|m: int| 0 <= m < j && m < rows.len() && (#[trigger] rows[m]).key == c;
        assert(rows[m].key == c);
        assert(has_key(rows, c));
        assert(stored.contains_key(c));
    }
}

/// The rows are indexed: each key leads to the bytes of its row, every key of
/// the index is that of a row, no key occurs twice, and each row holds a
/// well-formed node under its content hash.
pub open spec fn rows_indexed(rows: Seq<DbRow>, map: Map<MerkleHash, Vec<u8>>) -> bool {
    &&& forall|j: int| 0 <= j < rows.len() ==> row_node(#[trigger] rows[j]).is_some()
    &&& forall|j: int| 0 <= j < rows.len() ==> decode_spec((#[trigger] rows[j]).value@).unwrap().wf()
    &&& forall|j: int, k: int|
        0 <= j < k < rows.len() ==> (#[trigger] rows[j]).key != (#[trigger] rows[k]).key
    &&& forall|j: int|
        0 <= j < rows.len() ==> map.contains_key((#[trigger] rows[j]).key) && map[rows[j].key]@
            == rows[j].value@
    &&& forall|h: MerkleHash| #[trigger] map.contains_key(h) ==> has_key(rows, h)
    &&& forall|j: int, k: int|
        #![trigger row_node(rows[j]).unwrap().children[k]]
        0 <= j < rows.len() && 0 <= k < FAN_OUT && row_node(rows[j]).unwrap().children[k].is_some()
            ==> has_key_before(rows, j, row_node(rows[j]).unwrap().children[k].unwrap())
}

/// Rows that are indexed are valid.
proof fn lemma_indexed_valid(rows: Seq<DbRow>, map: Map<MerkleHash, Vec<u8>>)
    requires
        rows_indexed(rows, map),
    ensures
        image_valid(rows),
{
}

/// Whether every child that a node names has a key in the index.
fn children_indexed(map: &HashMap<MerkleHash, Vec<u8>>, node: &TrieNode) -> (ok: bool)
    requires
        node.wf(),
    ensures
        ok == forall|k: int|
            0 <= k < FAN_OUT && (#[trigger] node@.children[k]).is_some() ==> map@.contains_key(
                node@.children[k].unwrap(),
            ),
{
    let mut k: usize = 0;
    while k < FAN_OUT
        invariant
            k <= FAN_OUT,
            node.wf(),
            forall|m: int|
                0 <= m < k && (#[trigger] node@.children[m]).is_some() ==> map@.contains_key(
                    node@.children[m].unwrap(),
                ),
        decreases FAN_OUT - k,
    {
        match node.child(k) {
            Some(c) => {
                if !map.contains_key(&c) {
                    assert(node@.children[k as int].is_some());
                    return false;
                }
            },
            None => {},
        }
        k = k + 1;
    }
    true
}

/// Builds the index of rows; `None` where the rows are not those of a store.
fn index_rows(rows: &Vec<DbRow>) -> (r: Option<(HashMap<MerkleHash, Vec<u8>>, Vec<MerkleHash>)>)
    ensures
        match r {
            Some(pair) => rows_indexed(rows@, pair.0@) && pair.1@ == row_keys(rows@),
            None => !image_valid(rows@),
        },
{
    let mut map: HashMap<MerkleHash, Vec<u8>> = HashMap::new();
    let mut order: Vec<MerkleHash> = Vec::new();
    let mut i: usize = 0;
    while i < rows.len()
        invariant
            i <= rows@.len(),
            order@ == row_keys(rows@.subrange(0, i as int)),
            rows_indexed(rows@.subrange(0, i as int), map@),
        decreases rows@.len() - i,
    {
        let row = &rows[i];
        let ghost done = rows@.subrange(0, i as int);
        let ghost next = rows@.subrange(0, i + 1);
        if hash_bytes(&row.value) != row.key {
            assert(row_node(rows@[i as int]).is_none());
            return None;
        }
        match TrieNode::decode(&row.value) {
            None => {
                assert(row_node(rows@[i as int]).is_none());
                return None;
            },
            Some(node) => {
                proof {
                    node.lemma_size();
                }
                if !node.is_shaped() {
                    assert(row_node(rows@[i as int]).is_none());
                    return None;
                }
                let again = node.encode();
                if !bytes_equal(&again, &row.value) {
                    assert(row_node(rows@[i as int]).is_none());
                    return None;
                }
                assert(row_node(rows@[i as int]) == Some(node@));
                if !children_indexed(&map, &node) {
                    proof {
                        let k = choose|k: int|
                            0 <= k < FAN_OUT && (#[trigger] node@.children[k]).is_some()
                                && !map@.contains_key(node@.children[k].unwrap());
                        let c = node@.children[k].unwrap();
                        assert(row_node(rows@[i as int]).unwrap().children[k].is_some());
                        if has_key_before(rows@, i as int, c) {
                            let j = choose|j: int|
                                0 <= j < i && j < rows@.len() && (#[trigger] rows@[j]).key == c;
                            assert(done[j].key == c);
                            assert(map@.contains_key(done[j].key));
                        }
                    }
                    return None;
                }
                proof {
                    assert forall|k: int|
                        #![trigger row_node(next[i as int]).unwrap().children[k]]
                        0 <= k < FAN_OUT && row_node(next[i as int]).unwrap().children[k].is_some()
                            implies has_key_before(
                        next,
                        i as int,
                        row_node(next[i as int]).unwrap().children[k].unwrap(),
                    ) by {
                        let c = node@.children[k].unwrap();
                        assert(node@.children[k].is_some());
                        assert(map@.contains_key(c));
                        assert(has_key(done, c));
                        let j = choose|j: int| 0 <= j < done.len() && (#[trigger] done[j]).key == c;
                        assert(next[j].key == c);
                    }
                }
            },
        }
        if map.contains_key(&row.key) {
            proof {
                assert(has_key(done, row.key));
                let j = choose|j: int| 0 <= j < done.len() && (#[trigger] done[j]).key == row.key;
                assert(rows@[j].key == rows@[i as int].key);
            }
            return None;
        }
        let bytes = copy_range(&row.value, 0, row.value.len());
        assert(bytes@ =~= row.value@);
        let ghost before = map@;
        map.insert(row.key, bytes);
        order.push(row.key);
        proof {
            assert(order@ =~= row_keys(next));
            assert forall|j: int| 0 <= j < next.len() implies row_node(#[trigger] next[j]).is_some()
                && decode_spec(next[j].value@).unwrap().wf() && map@.contains_key(next[j].key)
                && map@[next[j].key]@ == next[j].value@ by {
                if j < i {
                    assert(next[j] == done[j]);
                    assert(before.contains_key(done[j].key));
                    assert(done[j].key != row.key);
                }
            }
            assert forall|j: int, k: int| 0 <= j < k < next.len() implies (#[trigger] next[j]).key != (
            #[trigger] next[k]).key by {
                assert(next[j] == done[j]);
                if k < i {
                    assert(next[k] == done[k]);
                } else {
                    assert(before.contains_key(done[j].key));
                }
            }
            assert forall|h: MerkleHash| #[trigger] map@.contains_key(h) implies has_key(next, h) by {
                if h == row.key {
                    assert(next[i as int].key == h);
                } else {
                    assert(before.contains_key(h));
                    let j = choose|j: int| 0 <= j < done.len() && (#[trigger] done[j]).key == h;
                    assert(next[j].key == h);
                }
            }
            assert forall|j: int, k: int|
                #![trigger row_node(next[j]).unwrap().children[k]]
                0 <= j < next.len() && 0 <= k < FAN_OUT && row_node(
                    next[j],
                ).unwrap().children[k].is_some() implies has_key_before(
                next,
                j,
                row_node(next[j]).unwrap().children[k].unwrap(),
            ) by {
                if j < i {
                    assert(next[j] == done[j]);
                    let c = row_node(done[j]).unwrap().children[k].unwrap();
                    assert(has_key_before(done, j, c));
                    let m = choose|m: int|
                        0 <= m < j && m < done.len() && (#[trigger] done[m]).key == c;
                    assert(next[m].key == c);
                }
            }
        }
        i = i + 1;
    }
    assert(rows@.subrange(0, i as int) =~= rows@);
    Some((map, order))
}

/// The index of valid rows is the store that the rows make.
proof fn lemma_indexed_rows(
    rows: Seq<DbRow>,
    map: Map<MerkleHash, Vec<u8>>,
    stored: Map<MerkleHash, Seq<u8>>,
)
    requires
        rows_indexed(rows, map),
        stored == Map::new(|h: MerkleHash| map.contains_key(h), |h: MerkleHash| map[h]@),
    ensures
        stored == image_rows(rows),
{
    assert(stored =~= image_rows(rows)) by {
        assert forall|h: MerkleHash| stored.contains_key(h) <==> image_rows(rows).contains_key(
            h,
        ) by {
            if has_key(rows, h) {
                let j = choose|j: int| 0 <= j < rows.len() && (#[trigger] rows[j]).key == h;
                assert(map.contains_key(rows[j].key));
            }
        }
        assert forall|h: MerkleHash| stored.contains_key(h) implies stored[h] == image_rows(
            rows,
        )[h] by {
            assert(has_key(rows, h));
            let m = choose|m: int| 0 <= m < rows.len() && (#[trigger] rows[m]).key == h;
            assert(map[rows[m].key]@ == rows[m].value@);
        }
    }
}

/// The keys of valid rows, in order, are the keys of the store, each once.
proof fn lemma_indexed_order(
    rows: Seq<DbRow>,
    stored: Map<MerkleHash, Seq<u8>>,
    order: Seq<MerkleHash>,
)
    requires
        image_valid(rows),
        stored == image_rows(rows),
        order == row_keys(rows),
    ensures
        order.no_duplicates(),
        forall|h: MerkleHash| #[trigger] stored.contains_key(h) <==> order.contains(h),
        children_first(node_table(stored), order),
{
    let nodes = node_table(stored);
    assert forall|i: int, k: int|
        #![trigger nodes[order[i]].children[k]]
        0 <= i < order.len() && 0 <= k < FAN_OUT && nodes[order[i]].children[k].is_some()
            implies placed_before(order, i, nodes[order[i]].children[k].unwrap()) by {
        assert(order[i] == rows[i].key);
        assert(row_node(rows[i]).is_some());
        let m = choose|m: int| 0 <= m < rows.len() && (#[trigger] rows[m]).key == rows[i].key;
        if m < i {
            assert(rows[m].key != rows[i].key);
        } else if i < m {
            assert(rows[i].key != rows[m].key);
        }
        assert(stored[order[i]] == rows[i].value@);
        assert(nodes[order[i]] == row_node(rows[i]).unwrap());
        let c = nodes[order[i]].children[k].unwrap();
        assert(row_node(rows[i]).unwrap().children[k].is_some());
        assert(has_key_before(rows, i, c));
        let j = choose|j: int| 0 <= j < i && j < rows.len() && (#[trigger] rows[j]).key == c;
        assert(order[j] == c);
    }
    assert forall|h: MerkleHash| #[trigger] stored.contains_key(h) <==> order.contains(h) by {
        if stored.contains_key(h) {
            let j = choose|j: int| 0 <= j < rows.len() && (#[trigger] rows[j]).key == h;
            assert(order[j] == h);
        }
        if order.contains(h) {
            let j = choose|j: int| 0 <= j < order.len() && order[j] == h;
            assert(rows[j].key == h);
        }
    }
    assert forall|a: int, b: int| 0 <= a < order.len() && 0 <= b < order.len() && a != b implies order[a]
        != order[b] by {
        if a < b {
            assert(rows[a].key != rows[b].key);
        } else {
            assert(rows[b].key != rows[a].key);
        }
    }
}

/// The rows of a well-formed store, written out in order, are valid rows
/// that make the store.
proof fn lemma_export(rows: Seq<DbRow>, stored: Map<MerkleHash, Seq<u8>>, order: Seq<MerkleHash>)
    requires
        rows_wf(stored),
        order.no_duplicates(),
        forall|h: MerkleHash| #[trigger] stored.contains_key(h) <==> order.contains(h),
        children_first(node_table(stored), order),
        rows.len() == order.len(),
        forall|i: int|
            0 <= i < rows.len() ==> (#[trigger] rows[i]).key == order[i] && rows[i].value@
                == stored[rows[i].key],
    ensures
        image_valid(rows),
        image_rows(rows) == stored,
{
    let nodes = node_table(stored);
    assert forall|i: int| 0 <= i < rows.len() implies row_node(#[trigger] rows[i]).is_some()
        && stored.contains_key(rows[i].key) && row_node(rows[i]) == Some(nodes[order[i]]) by {
        assert(order.contains(order[i]));
        assert(rows[i].key == order[i]);
        assert(stored.contains_key(order[i]));
        assert(decode_spec(stored[order[i]]).is_some() && content_hash(stored[order[i]])
            == order[i]);
        assert(nodes.contains_key(order[i]));
        assert(nodes[order[i]].shaped());
    }
    assert forall|h: MerkleHash| stored.contains_key(h) <==> has_key(rows, h) by {
        if stored.contains_key(h) {
            let j = choose|j: int| 0 <= j < order.len() && order[j] == h;
            assert(rows[j].key == h);
        }
        if has_key(rows, h) {
            let j = choose|j: int| 0 <= j < rows.len() && (#[trigger] rows[j]).key == h;
            assert(order.contains(order[j]));
        }
    }
    assert(image_rows(rows) =~= stored) by {
        assert forall|h: MerkleHash| image_rows(rows).contains_key(h) implies image_rows(rows)[h]
            == stored[h] by {
            let m = choose|m: int| 0 <= m < rows.len() && (#[trigger] rows[m]).key == h;
            assert(rows[m].value@ == stored[rows[m].key]);
        }
    }
    assert forall|i: int, k: int|
        #![trigger row_node(rows[i]).unwrap().children[k]]
        0 <= i < rows.len() && 0 <= k < FAN_OUT && row_node(rows[i]).unwrap().children[k].is_some()
            implies has_key_before(rows, i, row_node(rows[i]).unwrap().children[k].unwrap()) by {
        assert(row_node(rows[i]) == Some(nodes[order[i]]));
        assert(nodes[order[i]].children[k].is_some());
        let c = nodes[order[i]].children[k].unwrap();
        assert(placed_before(order, i, c));
        let j = choose|j: int| 0 <= j < i && j < order.len() && #[trigger] order[j] == c;
        assert(rows[j].key == c);
    }
    assert forall|i: int, j: int| 0 <= i < j < rows.len() implies (#[trigger] rows[i]).key != (
    #[trigger] rows[j]).key by {
        assert(order[i] != order[j]);
    }
}

/// An opened backing store. It remembers the order in which its rows came,
/// so that they can be written out in that order.
pub struct DeltaDb {
    map: HashMap<MerkleHash, Vec<u8>>,
    order: Vec<MerkleHash>,
    roots: EpochRoots,
}

/// Every root that is recorded has a row.
pub open spec fn roots_stored(
    roots: Map<EpochId, Option<MerkleHash>>,
    rows: Map<MerkleHash, Seq<u8>>,
) -> bool {
    forall|e: EpochId| #[trigger]
        roots.contains_key(e) && roots[e].is_some() ==> rows.contains_key(roots[e].unwrap())
}

/// Records of roots that go with rows: in ascending order of epoch, and each
/// root with a row.
pub open spec fn records_valid(rows: Seq<DbRow>, records: Seq<EpochRoot>) -> bool {
    &&& ascending(records)
    &&& forall|i: int|
        0 <= i < records.len() && (#[trigger] records[i]).root.is_some() ==> has_key(
            rows,
            records[i].root.unwrap(),
        )
}

impl DeltaDb {
    /// The rows of the store.
    pub closed spec fn rows(&self) -> Map<MerkleHash, Seq<u8>> {
        Map::new(|h: MerkleHash| self.map@.contains_key(h), |h: MerkleHash| self.map@[h]@)
    }

    /// The nodes of the store.
    pub open spec fn nodes(&self) -> Map<MerkleHash, NodeData> {
        node_table(self.rows())
    }

    /// The keys of the rows, in the order in which the rows came.
    pub closed spec fn order(&self) -> Seq<MerkleHash> {
        self.order@
    }

    /// The root recorded for each committed epoch.
    pub closed spec fn epoch_roots(&self) -> Map<EpochId, Option<MerkleHash>> {
        self.roots@
    }

    /// The records of the roots, in ascending order of epoch.
    pub closed spec fn root_records(&self) -> Seq<EpochRoot> {
        self.roots.records()
    }

    /// The rows are those of a store, each has its place in the order, and
    /// every recorded root has a row.
    pub open spec fn wf(&self) -> bool {
        &&& rows_wf(self.rows())
        &&& self.order().no_duplicates()
        &&& forall|h: MerkleHash| #[trigger] self.rows().contains_key(h) <==> self.order().contains(h)
        &&& children_first(self.nodes(), self.order())
        &&& ascending(self.root_records())
        &&& self.epoch_roots() == roots_map(self.root_records())
        &&& roots_stored(self.epoch_roots(), self.rows())
    }

    /// What a well-formed store is: its nodes are well formed, each stands
    /// under the content hash of its bytes and has its place in the order,
    /// and children come before their parents.
    pub proof fn lemma_store_facts(&self)
        requires
            self.wf(),
        ensures
            table_wf(self.nodes()),
            children_first(self.nodes(), self.order()),
            forall|h: MerkleHash| #[trigger]
                self.nodes().contains_key(h) ==> content_hash(encode_spec(self.nodes()[h])) == h,
            forall|h: MerkleHash| #[trigger] self.nodes().contains_key(h) ==> self.order().contains(h),
    {
        assert forall|h: MerkleHash| #[trigger] self.nodes().contains_key(h) implies content_hash(
            encode_spec(self.nodes()[h]),
        ) == h && self.order().contains(h) by {
            assert(self.rows().contains_key(h));
        }
    }

    /// A store without rows.
    pub fn new_empty() -> (db: DeltaDb)
        ensures
            db.wf(),
            db.rows() == Map::<MerkleHash, Seq<u8>>::empty(),
            db.epoch_roots() == Map::<EpochId, Option<MerkleHash>>::empty(),
            db.root_records() == Seq::<EpochRoot>::empty(),
            db.order() == Seq::<MerkleHash>::empty(),
    {
        let db = DeltaDb { map: HashMap::new(), order: Vec::new(), roots: EpochRoots::new() };
        assert(db.rows() =~= Map::<MerkleHash, Seq<u8>>::empty());
        db
    }

    /// Makes a store of the rows and the records of roots that were read
    /// from one; fails with `ErrorKind::Corrupt` where they are not those of
    /// a store.
    pub fn from_image(rows: &Vec<DbRow>, records: Vec<EpochRoot>) -> (r: Result<DeltaDb, ErrorKind>)
        ensures
            match r {
                Ok(db) => {
                    &&& image_valid(rows@)
                    &&& records_valid(rows@, records@)
                    &&& db.wf()
                    &&& db.rows() == image_rows(rows@)
                    &&& db.order() == row_keys(rows@)
                    &&& db.root_records() == records@
                },
                Err(e) => e == ErrorKind::Corrupt && !(image_valid(rows@) && records_valid(
                    rows@,
                    records@,
                )),
            },
    {
        let mut db = match DeltaDb::from_rows(rows) {
            Ok(db) => db,
            Err(e) => {
                return Err(e);
            },
        };
        let ghost given = records@;
        let roots = match EpochRoots::from_records(records) {
            Some(roots) => roots,
            None => {
                return Err(ErrorKind::Corrupt);
            },
        };
        let mut i: usize = 0;
        while i < roots.len()
            invariant
                i <= roots.records().len(),
                roots.records() == given,
                given == records@,
                ascending(given),
                db.rows() == image_rows(rows@),
                forall|j: int|
                    0 <= j < i && (#[trigger] given[j]).root.is_some() ==> has_key(
                        rows@,
                        given[j].root.unwrap(),
                    ),
            decreases roots.records().len() - i,
        {
            match roots.record(i).root {
                Some(h) => {
                    if !db.contains(h) {
                        assert(!has_key(rows@, given[i as int].root.unwrap()));
                        return Err(ErrorKind::Corrupt);
                    }
                },
                None => {},
            }
            i = i + 1;
        }
        db.roots = roots;
        proof {
            assert forall|e: EpochId| #[trigger]
                db.epoch_roots().contains_key(e) && db.epoch_roots()[e].is_some() implies db.rows().contains_key(
                db.epoch_roots()[e].unwrap(),
            ) by {
                let j = choose|j: int| 0 <= j < given.len() && (#[trigger] given[j]).epoch == e;
                lemma_roots_map_at(given, j);
            }
        }
        Ok(db)
    }

    /// The root recorded for `epoch`: `None` where the epoch has no record.
    pub fn root_of(&self, epoch: &EpochId) -> (r: Option<Option<MerkleHash>>)
        requires
            self.wf(),
        ensures
            r == if self.epoch_roots().contains_key(*epoch) {
                Some(self.epoch_roots()[*epoch])
            } else {
                None
            },
    {
        self.roots.get(epoch)
    }

    /// Records `root` for `epoch`, unless the epoch has a record already.
    pub fn record_root(&mut self, epoch: EpochId, root: Option<MerkleHash>) -> (r: Result<
        (),
        ErrorKind,
    >)
        requires
            old(self).wf(),
            root matches Some(h) ==> old(self).rows().contains_key(h),
        ensures
            final(self).wf(),
            final(self).rows() == old(self).rows(),
            final(self).order() == old(self).order(),
            match r {
                Ok(_) => !old(self).epoch_roots().contains_key(epoch) && final(self).epoch_roots()
                    == old(self).epoch_roots().insert(epoch, root),
                Err(e) => e == ErrorKind::EpochAlreadyCommitted && old(self).epoch_roots().contains_key(
                    epoch,
                ) && final(self).epoch_roots() == old(self).epoch_roots(),
            },
    {
        let ghost rows = self.rows();
        let r = self.roots.insert(epoch, root);
        assert(self.rows() == rows);
        r
    }

    /// Removes the records of `target` and of every epoch above it. The rows
    /// stay.
    pub fn rollback(&mut self, target: &EpochId)
        requires
            old(self).wf(),
        ensures
            final(self).wf(),
            final(self).rows() == old(self).rows(),
            final(self).order() == old(self).order(),
            final(self).epoch_roots() == old(self).epoch_roots().restrict(
                Set::new(|e: EpochId| e.spec_lt(*target)),
            ),
    {
        let ghost rows = self.rows();
        self.roots.rollback(target);
        assert(self.rows() == rows);
    }

    /// The root records as they are once `root` is recorded for `epoch`;
    /// the store itself stays as it is.
    pub fn roots_after(&self, epoch: EpochId, root: Option<MerkleHash>) -> (r: Result<
        Vec<EpochRoot>,
        ErrorKind,
    >)
        requires
            self.wf(),
        ensures
            match r {
                Ok(records) => !self.epoch_roots().contains_key(epoch) && ascending(records@)
                    && roots_map(records@) == self.epoch_roots().insert(epoch, root),
                Err(e) => e == ErrorKind::EpochAlreadyCommitted && self.epoch_roots().contains_key(
                    epoch,
                ),
            },
    {
        let mut copy = self.roots.copy();
        match copy.insert(epoch, root) {
            Ok(_) => Ok(copy.to_records()),
            Err(e) => Err(e),
        }
    }

    /// The root records as they are once the records of `target` and of
    /// every epoch above it are removed; the store itself stays as it is.
    pub fn roots_below(&self, target: &EpochId) -> (records: Vec<EpochRoot>)
        requires
            self.wf(),
        ensures
            ascending(records@),
            roots_map(records@) == self.epoch_roots().restrict(
                Set::new(|e: EpochId| e.spec_lt(*target)),
            ),
    {
        let mut copy = self.roots.copy();
        copy.rollback(target);
        copy.to_records()
    }

    /// The number of recorded roots.
    pub fn root_count(&self) -> (n: usize)
        ensures
            n == self.root_records().len(),
    {
        self.roots.len()
    }

    /// Record `i` of the roots, in ascending order of epoch.
    pub fn root_record(&self, i: usize) -> (r: EpochRoot)
        requires
            i < self.root_records().len(),
        ensures
            r == self.root_records()[i as int],
    {
        self.roots.record(i)
    }

    /// The rows from place `from` on, in the order in which they came: what
    /// has to be written out after the rows before `from` were.
    pub fn rows_from(&self, from: usize) -> (out: Vec<DbRow>)
        requires
            self.wf(),
            from <= self.order().len(),
        ensures
            out@.len() == self.order().len() - from,
            forall|i: int|
                0 <= i < out@.len() ==> (#[trigger] out@[i]).key == self.order()[from + i]
                    && out@[i].value@ == self.rows()[out@[i].key],
    {
        let mut out: Vec<DbRow> = Vec::new();
        let mut i: usize = from;
        while i < self.order.len()
            invariant
                self.wf(),
                from <= i <= self.order().len(),
                self.order().len() == self.order@.len(),
                out@.len() == i - from,
                forall|j: int|
                    0 <= j < out@.len() ==> (#[trigger] out@[j]).key == self.order()[from + j]
                        && out@[j].value@ == self.rows()[out@[j].key],
            decreases self.order().len() - i,
        {
            let row = self.row(i);
            out.push(row);
            i = i + 1;
        }
        out
    }

    /// All rows and all root records, as a store is written out. What is
    /// written out makes the same store when it is read again.
    pub fn export(&self) -> (r: (Vec<DbRow>, Vec<EpochRoot>))
        requires
            self.wf(),
        ensures
            image_valid(r.0@),
            records_valid(r.0@, r.1@),
            image_rows(r.0@) == self.rows(),
            row_keys(r.0@) == self.order(),
            r.1@ == self.root_records(),
    {
        let rows = self.rows_from(0);
        let mut records: Vec<EpochRoot> = Vec::new();
        let mut i: usize = 0;
        while i < self.roots.len()
            invariant
                i <= self.root_records().len(),
                records@ == self.root_records().subrange(0, i as int),
            decreases self.root_records().len() - i,
        {
            records.push(self.roots.record(i));
            assert(records@ =~= self.root_records().subrange(0, i + 1));
            i = i + 1;
        }
        proof {
            assert(self.root_records().subrange(0, i as int) =~= self.root_records());
            assert(row_keys(rows@) =~= self.order());
            lemma_export(rows@, self.rows(), self.order());
            assert forall|j: int| 0 <= j < records@.len() && (#[trigger] records@[j]).root.is_some()
                implies has_key(rows@, records@[j].root.unwrap()) by {
                lemma_roots_map_at(self.root_records(), j);
                let h = records@[j].root.unwrap();
                assert(self.epoch_roots().contains_key(records@[j].epoch));
                assert(self.rows().contains_key(h));
                assert(image_rows(rows@).contains_key(h));
            }
        }
        (rows, records)
    }

    /// The number of rows.
    pub fn row_count(&self) -> (n: usize)
        ensures
            n == self.order().len(),
    {
        self.order.len()
    }

    /// Row `i`, in the order in which the rows came.
    pub fn row(&self, i: usize) -> (r: DbRow)
        requires
            self.wf(),
            i < self.order().len(),
        ensures
            r.key == self.order()[i as int],
            r.value@ == self.rows()[r.key],
    {
        let key = self.order[i];
        assert(self.order().contains(key));
        assert(self.rows().contains_key(key));
        match self.map.get(&key) {
            Some(bytes) => {
                let value = copy_range(bytes, 0, bytes.len());
                assert(value@ =~= bytes@);
                DbRow { key, value }
            },
            None => {
                proof {
                    assert(false);
                }
                unreached()
            },
        }
    }

    /// Makes a store of rows that were read from one; fails with
    /// `ErrorKind::Corrupt` where they are not the rows of a store.
    pub fn from_rows(rows: &Vec<DbRow>) -> (r: Result<DeltaDb, ErrorKind>)
        ensures
            match r {
                Ok(db) => {
                    &&& image_valid(rows@)
                    &&& db.wf()
                    &&& db.rows() == image_rows(rows@)
                    &&& db.order() == row_keys(rows@)
                    &&& db.epoch_roots() == Map::<EpochId, Option<MerkleHash>>::empty()
                    &&& db.root_records() == Seq::<EpochRoot>::empty()
                },
                Err(e) => e == ErrorKind::Corrupt && !image_valid(rows@),
            },
    {
        let (map, order) = match index_rows(rows) {
            Some(pair) => pair,
            None => {
                return Err(ErrorKind::Corrupt);
            },
        };
        let db = DeltaDb { map, order, roots: EpochRoots::new() };
        proof {
            lemma_indexed_valid(rows@, db.map@);
            lemma_indexed_rows(rows@, db.map@, db.rows());
            lemma_image_wf(rows@, db.rows());
            lemma_indexed_order(rows@, db.rows(), db.order());
        }
        Ok(db)
    }

    /// The number of rows.
    pub fn len(&self) -> (n: usize)
        ensures
            n == self.rows().dom().len(),
    {
        assert(self.rows().dom() =~= self.map@.dom());
        self.map.len()
    }

    pub fn contains(&self, h: MerkleHash) -> (b: bool)
        ensures
            b == self.rows().contains_key(h),
    {
        self.map.contains_key(&h)
    }

    /// The bytes under `h`.
    pub fn get(&self, h: MerkleHash) -> (r: Option<&Vec<u8>>)
        ensures
            match r {
                Some(bytes) => self.rows().contains_key(h) && bytes@ == self.rows()[h],
                None => !self.rows().contains_key(h),
            },
    {
        self.map.get(&h)
    }

    /// Reads the node under `h`.
    pub fn load(&self, h: MerkleHash) -> (node: TrieNode)
        requires
            self.wf(),
            self.nodes().contains_key(h),
        ensures
            node@ == self.nodes()[h],
            node.wf(),
    {
        let bytes = self.map.get(&h);
        assert(self.rows().contains_key(h));
        match bytes {
            Some(b) => {
                match TrieNode::decode(b) {
                    Some(node) => node,
                    None => {
                        proof {
                            assert(false);
                        }
                        unreached()
                    },
                }
            },
            None => {
                proof {
                    assert(false);
                }
                unreached()
            },
        }
    }

    /// Stores the bytes of a node under their content hash. A store that
    /// holds them already is left as it is; one that holds other bytes under
    /// that hash refuses them.
    pub fn insert_node(&mut self, bytes: Vec<u8>) -> (r: Result<MerkleHash, ErrorKind>)
        requires
            old(self).wf(),
            decode_spec(bytes@).is_some(),
            decode_spec(bytes@).unwrap().wf(),
            decode_spec(bytes@).unwrap().shaped(),
            encode_spec(decode_spec(bytes@).unwrap()) == bytes@,
            forall|i: int|
                0 <= i < FAN_OUT && (#[trigger] decode_spec(bytes@).unwrap().children[i]).is_some()
                    ==> old(self).nodes().contains_key(
                    decode_spec(bytes@).unwrap().children[i].unwrap(),
                ),
        ensures
            final(self).wf(),
            final(self).epoch_roots() == old(self).epoch_roots(),
            final(self).root_records() == old(self).root_records(),
            final(self).order() == if old(self).rows().contains_key(content_hash(bytes@)) {
                old(self).order()
            } else {
                old(self).order().push(content_hash(bytes@))
            },
            match r {
                Ok(h) => {
                    &&& h == content_hash(bytes@)
                    &&& final(self).rows() == old(self).rows().insert(h, bytes@)
                    &&& final(self).nodes() == old(self).nodes().insert(
                        h,
                        decode_spec(bytes@).unwrap(),
                    )
                    &&& old(self).rows().contains_key(h) ==> old(self).rows()[h] == bytes@
                },
                Err(e) => {
                    &&& e == ErrorKind::HashCollision
                    &&& final(self).rows() == old(self).rows()
                    &&& old(self).rows().contains_key(content_hash(bytes@))
                    &&& old(self).rows()[content_hash(bytes@)] != bytes@
                },
            },
            old(self).nodes().submap_of(final(self).nodes()),
    {
        let h = hash_bytes(&bytes);
        let ghost d = decode_spec(bytes@).unwrap();
        let ghost old_rows = self.rows();
        match self.map.get(&h) {
            Some(existing) => {
                if bytes_equal(existing, &bytes) {
                    assert(self.rows().insert(h, bytes@) =~= self.rows());
                    assert(self.nodes().insert(h, d) =~= self.nodes());
                    Ok(h)
                } else {
                    Err(ErrorKind::HashCollision)
                }
            },
            None => {
                assert(!self.rows().contains_key(h));
                self.map.insert(h, bytes);
                self.order.push(h);
                assert(self.rows() =~= old_rows.insert(h, bytes@));
                assert(!old(self).rows().contains_key(h));
                assert(!old(self).order().contains(h));
                assert(self.order() =~= old(self).order().push(h));
                assert forall|g: MerkleHash| #[trigger]
                    self.rows().contains_key(g) <==> self.order().contains(g) by {
                    if g == h {
                        assert(self.order()[self.order().len() - 1] == h);
                    } else {
                        assert(self.rows().contains_key(g) == old(self).rows().contains_key(g));
                        if old(self).order().contains(g) {
                            let j = choose|j: int|
                                0 <= j < old(self).order().len() && old(self).order()[j] == g;
                            assert(self.order()[j] == g);
                        }
                        if self.order().contains(g) {
                            let j = choose|j: int|
                                0 <= j < self.order().len() && self.order()[j] == g;
                            assert(old(self).order()[j] == g);
                        }
                    }
                }
                assert(self.order().no_duplicates()) by {
                    assert forall|a: int, b: int|
                        0 <= a < self.order().len() && 0 <= b < self.order().len() && a
                            != b implies self.order()[a] != self.order()[b] by {
                        if a < old(self).order().len() {
                            assert(old(self).order().contains(old(self).order()[a]));
                        }
                        if b < old(self).order().len() {
                            assert(old(self).order().contains(old(self).order()[b]));
                        }
                    }
                }
                assert(self.rows() =~= old_rows.insert(h, bytes@));
                assert(self.nodes() =~= node_table(old_rows).insert(h, d));
                assert(table_closed(self.nodes())) by {
                    assert forall|g: MerkleHash, i: int|
                        #![trigger self.nodes()[g].children[i]]
                        self.nodes().contains_key(g) && 0 <= i < FAN_OUT
                            && self.nodes()[g].children[i].is_some() implies self.nodes().contains_key(
                        self.nodes()[g].children[i].unwrap(),
                    ) by {
                        if g != h {
                            assert(node_table(old_rows).contains_key(g));
                            assert(node_table(old_rows)[g].children[i].is_some());
                        }
                    }
                }
                assert(children_first(self.nodes(), self.order())) by {
                    let nodes = self.nodes();
                    let order = self.order();
                    let last = old(self).order().len() as int;
                    assert forall|i: int, k: int|
                        #![trigger nodes[order[i]].children[k]]
                        0 <= i < order.len() && 0 <= k < FAN_OUT
                            && nodes[order[i]].children[k].is_some() implies placed_before(
                        order,
                        i,
                        nodes[order[i]].children[k].unwrap(),
                    ) by {
                        let c = nodes[order[i]].children[k].unwrap();
                        if i < last {
                            assert(old(self).order().contains(old(self).order()[i]));
                            assert(order[i] != h);
                            assert(old(self).nodes()[old(self).order()[i]].children[k].is_some());
                            assert(placed_before(old(self).order(), i, c));
                            let j = choose|j: int|
                                0 <= j < i && j < old(self).order().len() && #[trigger] old(self).order()[j] == c;
                            assert(order[j] == c);
                        } else {
                            assert(order[i] == h);
                            assert(d.children[k].is_some());
                            assert(old(self).nodes().contains_key(c));
                            assert(old(self).rows().contains_key(c));
                            assert(old(self).order().contains(c));
                            let j = choose|j: int|
                                0 <= j < old(self).order().len() && old(self).order()[j] == c;
                            assert(order[j] == c);
                        }
                    }
                }
                Ok(h)
            },
        }
    }
}

} // verus!
