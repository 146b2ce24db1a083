//! The copy-on-write trie.
//!
//! A version of the trie that is being written is a tree of owned nodes whose
//! untouched parts are references to persisted nodes, by content hash. The
//! first write that reaches a persisted node reads it and makes an owned copy
//! of it; later writes work on that copy. Persisted nodes never change, so
//! every root that was handed out keeps reading what it read before.

use vstd::prelude::*;
use crate::delta_db::table_closed;
use crate::delta_db::table_wf;
use crate::delta_db::DeltaDb;
use crate::nibbles::common_prefix_len;
use crate::nibbles::is_nibble_path;
use crate::nibbles::lemma_common_prefix;
use crate::nibbles::match_len;
use crate::nibbles::starts_with;
use crate::errors::ErrorKind;
use crate::node::copy_range;
use crate::node::content_hash;
use crate::node::decode_spec;
use crate::node::encode_spec;
use crate::node::lemma_decode_encode;
use crate::node::option_bytes_view;
use crate::node::TrieNode;
use crate::node::MerkleHash;
use crate::node::NodeData;
use crate::node::FAN_OUT;
use crate::node_memory_manager::DeltaMptsNodeMemoryManager;

verus! {

/// A reference to a node during a write: to a copy that this write owns, or
/// to a persisted node that it shares with earlier versions.
pub enum CowNodeRef {
    /// A node that the write has copied, or made, and may change.
    Owned(Box<CowNode>),
    /// A persisted node, shared and never changed.
    Committed(MerkleHash),
}

/// A node that a write owns.
pub struct CowNode {
    pub path: Vec<u8>,
    pub value: Option<Vec<u8>>,
    pub children: Vec<Option<CowNodeRef>>,
}

impl CowNodeRef {
    /// Whether the node has been copied for the write in progress.
    pub fn is_owned(&self) -> (b: bool)
        ensures
            b == (self is Owned),
    {
        match self {
            CowNodeRef::Owned(_) => true,
            CowNodeRef::Committed(_) => false,
        }
    }
}

/// The node tables that the trie reads.
pub type NodeTable = Map<MerkleHash, NodeData>;

/// What the persisted node under `h` holds for the path `key`.
pub open spec fn hash_lookup(nodes: NodeTable, h: MerkleHash, key: Seq<u8>) -> Option<Seq<u8>>
    decreases key.len(),
{
    if !nodes.contains_key(h) || !starts_with(key, nodes[h].path) {
        None
    } else {
        let rest = key.skip(nodes[h].path.len() as int);
        if rest.len() == 0 {
            nodes[h].value
        } else if rest[0] >= nodes[h].children.len() {
            None
        } else {
            match nodes[h].children[rest[0] as int] {
                Some(c) => hash_lookup(nodes, c, rest.skip(1)),
                None => None,
            }
        }
    }
}

/// What an owned node holds for the path `key`.
pub open spec fn node_lookup(nodes: NodeTable, node: CowNode, key: Seq<u8>) -> Option<Seq<u8>>
    decreases key.len(), 0int,
{
    if !starts_with(key, node.path@) {
        None
    } else {
        let rest = key.skip(node.path@.len() as int);
        if rest.len() == 0 {
            option_bytes_view(node.value)
        } else if rest[0] >= node.children@.len() {
            None
        } else {
            match node.children@[rest[0] as int] {
                Some(r) => ref_lookup(nodes, r, rest.skip(1)),
                None => None,
            }
        }
    }
}

/// What the node behind a reference holds for the path `key`.
pub open spec fn ref_lookup(nodes: NodeTable, r: CowNodeRef, key: Seq<u8>) -> Option<Seq<u8>>
    decreases key.len(), 1int,
{
    match r {
        CowNodeRef::Owned(b) => node_lookup(nodes, *b, key),
        CowNodeRef::Committed(h) => hash_lookup(nodes, h, key),
    }
}

/// What a trie with the given root holds for the path `key`.
pub open spec fn root_lookup(nodes: NodeTable, root: Option<CowNodeRef>, key: Seq<u8>) -> Option<
    Seq<u8>,
> {
    match root {
        Some(r) => ref_lookup(nodes, r, key),
        None => None,
    }
}

/// An owned node is well formed: sixteen child entries, a path of nibbles,
/// and children that are well formed in turn.
pub open spec fn node_wf(nodes: NodeTable, node: CowNode) -> bool
    decreases node,
{
    &&& node.children@.len() == FAN_OUT
    &&& is_nibble_path(node.path@)
    &&& forall|i: int|
        0 <= i < node.children@.len() ==> (#[trigger] node.children@[i] matches Some(r) ==> ref_wf(
            nodes,
            r,
        ))
}

/// At least two children.
pub open spec fn cow_two_children(children: Seq<Option<CowNodeRef>>) -> bool {
    exists|i: int, j: int|
        0 <= i < j < children.len() && (#[trigger] children[i]).is_some() && (
        #[trigger] children[j]).is_some()
}

/// The shape that the trie keeps: a node has a value or at least two children.
pub open spec fn node_shaped(node: CowNode) -> bool {
    node.value.is_some() || cow_two_children(node.children@)
}

/// A reference leads to a well-formed owned node of the shape that the trie
/// keeps, or to a node of the table.
pub open spec fn ref_wf(nodes: NodeTable, r: CowNodeRef) -> bool
    decreases r,
{
    match r {
        CowNodeRef::Owned(b) => node_wf(nodes, *b) && node_shaped(*b),
        CowNodeRef::Committed(h) => nodes.contains_key(h),
    }
}

pub open spec fn root_wf(nodes: NodeTable, root: Option<CowNodeRef>) -> bool {
    match root {
        Some(r) => ref_wf(nodes, r),
        None => true,
    }
}

/// A table that grows keeps what its nodes hold.
pub proof fn lemma_hash_lookup_grows(nodes: NodeTable, more: NodeTable, h: MerkleHash, key: Seq<u8>)
    requires
        table_wf(nodes),
        nodes.submap_of(more),
        nodes.contains_key(h),
    ensures
        hash_lookup(more, h, key) == hash_lookup(nodes, h, key),
    decreases key.len(),
{
    assert(nodes.dom().contains(h));
    assert(more[h] == nodes[h]);
    if starts_with(key, nodes[h].path) {
        let rest = key.skip(nodes[h].path.len() as int);
        if rest.len() > 0 && rest[0] < nodes[h].children.len() {
            match nodes[h].children[rest[0] as int] {
                Some(c) => {
                    assert(nodes[h].children[rest[0] as int].is_some());
                    assert(nodes.contains_key(c));
                    lemma_hash_lookup_grows(nodes, more, c, rest.skip(1));
                },
                None => {},
            }
        }
    }
}

/// A table that grows keeps owned nodes well formed, and what they hold.
pub proof fn lemma_node_grows(nodes: NodeTable, more: NodeTable, node: CowNode)
    requires
        table_wf(nodes),
        nodes.submap_of(more),
        node_wf(nodes, node),
    ensures
        node_wf(more, node),
        forall|key: Seq<u8>| #[trigger] node_lookup(more, node, key) == node_lookup(nodes, node, key),
    decreases node,
{
    assert forall|i: int| 0 <= i < node.children@.len() implies (
    #[trigger] node.children@[i] matches Some(r) ==> ref_wf(more, r) && forall|key: Seq<u8>| #[trigger]
        ref_lookup(more, r, key) == ref_lookup(nodes, r, key)) by {
        match node.children@[i] {
            Some(r) => {
                lemma_ref_grows(nodes, more, r);
            },
            None => {},
        }
    }
    assert forall|key: Seq<u8>| #[trigger]
        node_lookup(more, node, key) == node_lookup(nodes, node, key) by {
        if starts_with(key, node.path@) {
            let rest = key.skip(node.path@.len() as int);
            if rest.len() > 0 && rest[0] < node.children@.len() {
                match node.children@[rest[0] as int] {
                    Some(r) => {
                        assert(ref_lookup(more, r, rest.skip(1)) == ref_lookup(
                            nodes,
                            r,
                            rest.skip(1),
                        ));
                    },
                    None => {},
                }
            }
        }
    }
}

/// A table that grows keeps references well formed, and what they lead to.
pub proof fn lemma_ref_grows(nodes: NodeTable, more: NodeTable, r: CowNodeRef)
    requires
        table_wf(nodes),
        nodes.submap_of(more),
        ref_wf(nodes, r),
    ensures
        ref_wf(more, r),
        forall|key: Seq<u8>| #[trigger] ref_lookup(more, r, key) == ref_lookup(nodes, r, key),
    decreases r,
{
    match r {
        CowNodeRef::Owned(b) => {
            lemma_node_grows(nodes, more, *b);
            assert forall|key: Seq<u8>| #[trigger]
                ref_lookup(more, r, key) == ref_lookup(nodes, r, key) by {
                assert(node_lookup(more, *b, key) == node_lookup(nodes, *b, key));
            }
        },
        CowNodeRef::Committed(h) => {
            assert(nodes.dom().contains(h));
            assert forall|key: Seq<u8>| #[trigger]
                ref_lookup(more, r, key) == ref_lookup(nodes, r, key) by {
                lemma_hash_lookup_grows(nodes, more, h, key);
            }
        },
    }
}

// ---------------------------------------------------------------------------
// Reading
// ---------------------------------------------------------------------------

/// A path is a prefix of a key exactly if the two share the whole path.
pub proof fn lemma_prefix_match(path: Seq<u8>, key: Seq<u8>)
    ensures
        starts_with(key, path) <==> common_prefix_len(path, key) == path.len(),
{
    lemma_common_prefix(path, key);
    let c = common_prefix_len(path, key) as int;
    if c == path.len() {
        assert(path.subrange(0, c) =~= path);
    } else if starts_with(key, path) {
        assert(key.subrange(0, path.len() as int)[c] == path[c]);
    }
}

pub(crate) fn copy_value(value: &Option<Vec<u8>>) -> (out: Option<Vec<u8>>)
    ensures
        option_bytes_view(out) == option_bytes_view(*value),
{
    match value {
        Some(v) => {
            let c = copy_range(v, 0, v.len());
            assert(c@ =~= v@);
            Some(c)
        },
        None => None,
    }
}

/// Reads what the persisted node under `h` holds for `key` from `pos` on.
pub fn hash_get(
    db: &DeltaDb,
    mm: &mut DeltaMptsNodeMemoryManager,
    h: MerkleHash,
    key: &Vec<u8>,
    pos: usize,
) -> (r: Option<Vec<u8>>)
    requires
        db.wf(),
        old(mm).wf(),
        old(mm).coherent(db.nodes()),
        db.nodes().contains_key(h),
        pos <= key@.len(),
    ensures
        final(mm).wf(),
        final(mm).coherent(db.nodes()),
        final(mm).limits() == old(mm).limits(),
        option_bytes_view(r) == hash_lookup(db.nodes(), h, key@.skip(pos as int)),
    decreases key@.len() - pos,
{
    let ghost nodes = db.nodes();
    let ghost rest_key = key@.skip(pos as int);
    let slot = mm.load(db, h);
    let node = mm.node(slot);
    proof {
        lemma_prefix_match(nodes[h].path, rest_key);
    }
    let c = match_len(node.path(), key, pos);
    if c < node.path().len() {
        return None;
    }
    if pos + c == key.len() {
        return copy_value(node.value());
    }
    let idx = key[pos + c];
    proof {
        assert(rest_key.skip(c as int)[0] == idx);
        assert(rest_key.skip(c as int).skip(1) =~= key@.skip(pos + c + 1));
    }
    if idx >= 16 {
        return None;
    }
    match node.child(idx as usize) {
        None => None,
        Some(child) => {
            assert(nodes[h].children[idx as int].is_some());
            hash_get(db, mm, child, key, pos + c + 1)
        },
    }
}

/// Reads what an owned node holds for `key` from `pos` on.
pub fn node_get(
    db: &DeltaDb,
    mm: &mut DeltaMptsNodeMemoryManager,
    node: &CowNode,
    key: &Vec<u8>,
    pos: usize,
) -> (r: Option<Vec<u8>>)
    requires
        db.wf(),
        old(mm).wf(),
        old(mm).coherent(db.nodes()),
        node_wf(db.nodes(), *node),
        pos <= key@.len(),
    ensures
        final(mm).wf(),
        final(mm).coherent(db.nodes()),
        final(mm).limits() == old(mm).limits(),
        option_bytes_view(r) == node_lookup(db.nodes(), *node, key@.skip(pos as int)),
    decreases key@.len() - pos, 0int,
{
    let ghost rest_key = key@.skip(pos as int);
    proof {
        lemma_prefix_match(node.path@, rest_key);
    }
    let c = match_len(&node.path, key, pos);
    if c < node.path.len() {
        return None;
    }
    if pos + c == key.len() {
        return copy_value(&node.value);
    }
    let idx = key[pos + c];
    proof {
        assert(rest_key.skip(c as int)[0] == idx);
        assert(rest_key.skip(c as int).skip(1) =~= key@.skip(pos + c + 1));
    }
    if idx >= 16 {
        return None;
    }
    match &node.children[idx as usize] {
        None => None,
        Some(r) => ref_get(db, mm, r, key, pos + c + 1),
    }
}

/// Reads what the node behind a reference holds for `key` from `pos` on.
pub fn ref_get(
    db: &DeltaDb,
    mm: &mut DeltaMptsNodeMemoryManager,
    r: &CowNodeRef,
    key: &Vec<u8>,
    pos: usize,
) -> (v: Option<Vec<u8>>)
    requires
        db.wf(),
        old(mm).wf(),
        old(mm).coherent(db.nodes()),
        ref_wf(db.nodes(), *r),
        pos <= key@.len(),
    ensures
        final(mm).wf(),
        final(mm).coherent(db.nodes()),
        final(mm).limits() == old(mm).limits(),
        option_bytes_view(v) == ref_lookup(db.nodes(), *r, key@.skip(pos as int)),
    decreases key@.len() - pos, 1int,
{
    match r {
        CowNodeRef::Owned(b) => node_get(db, mm, b, key, pos),
        CowNodeRef::Committed(h) => hash_get(db, mm, *h, key, pos),
    }
}

// ---------------------------------------------------------------------------
// Copying on the first write
// ---------------------------------------------------------------------------

/// The reference that a child entry of a persisted node becomes in a copy.
pub open spec fn shared_child(c: Option<MerkleHash>) -> Option<CowNodeRef> {
    match c {
        Some(h) => Some(CowNodeRef::Committed(h)),
        None => None,
    }
}

/// `node` is a copy of `d`: the same path and value, and every child shared.
pub open spec fn is_copy_of(node: CowNode, d: NodeData) -> bool {
    &&& node.path@ == d.path
    &&& option_bytes_view(node.value) == d.value
    &&& node.children@.len() == d.children.len()
    &&& forall|i: int|
        0 <= i < d.children.len() ==> #[trigger] node.children@[i] == shared_child(d.children[i])
}

/// A copy holds what the persisted node holds.
pub proof fn lemma_copy_lookup(nodes: NodeTable, h: MerkleHash, node: CowNode, key: Seq<u8>)
    requires
        nodes.contains_key(h),
        is_copy_of(node, nodes[h]),
    ensures
        node_lookup(nodes, node, key) == hash_lookup(nodes, h, key),
{
    if starts_with(key, node.path@) {
        let rest = key.skip(node.path@.len() as int);
        if rest.len() > 0 && rest[0] < node.children@.len() {
            assert(node.children@[rest[0] as int] == shared_child(nodes[h].children[rest[0] as int]));
        }
    }
}

/// Makes an owned copy of the persisted node under `h`.
pub fn load_owned(db: &DeltaDb, mm: &mut DeltaMptsNodeMemoryManager, h: MerkleHash) -> (node:
    CowNode)
    requires
        db.wf(),
        old(mm).wf(),
        old(mm).coherent(db.nodes()),
        db.nodes().contains_key(h),
    ensures
        final(mm).wf(),
        final(mm).coherent(db.nodes()),
        final(mm).limits() == old(mm).limits(),
        is_copy_of(node, db.nodes()[h]),
        node_wf(db.nodes(), node),
        node_shaped(node),
        forall|key: Seq<u8>| #[trigger]
            node_lookup(db.nodes(), node, key) == hash_lookup(db.nodes(), h, key),
{
    let ghost nodes = db.nodes();
    let slot = mm.load(db, h);
    let resident = mm.node(slot);
    let path = copy_range(resident.path(), 0, resident.path().len());
    assert(path@ =~= nodes[h].path);
    let value = copy_value(resident.value());
    let mut children: Vec<Option<CowNodeRef>> = Vec::new();
    let mut i: usize = 0;
    assert(nodes[h].wf());
    while i < FAN_OUT
        invariant
            i <= FAN_OUT,
            resident.wf(),
            resident@ == nodes[h],
            nodes[h].children.len() == FAN_OUT,
            children@.len() == i,
            forall|j: int| 0 <= j < i ==> #[trigger] children@[j] == shared_child(nodes[h].children[j]),
        decreases FAN_OUT - i,
    {
        let child = match resident.child(i) {
            Some(c) => Some(CowNodeRef::Committed(c)),
            None => None,
        };
        children.push(child);
        i = i + 1;
    }
    let node = CowNode { path, value, children };
    proof {
        assert forall|j: int| 0 <= j < node.children@.len() implies (
        #[trigger] node.children@[j] matches Some(r) ==> ref_wf(nodes, r)) by {
            assert(node.children@[j] == shared_child(nodes[h].children[j]));
            if nodes[h].children[j].is_some() {
                assert(nodes.contains_key(nodes[h].children[j].unwrap()));
            }
        }
        assert forall|key: Seq<u8>| #[trigger]
            node_lookup(nodes, node, key) == hash_lookup(nodes, h, key) by {
            lemma_copy_lookup(nodes, h, node, key);
        }
        lemma_copy_shaped(node, nodes[h]);
    }
    node
}

/// A copy of a node has the node's shape.
pub proof fn lemma_copy_shaped(node: CowNode, d: NodeData)
    requires
        is_copy_of(node, d),
        d.shaped(),
    ensures
        node_shaped(node),
{
    if d.value.is_none() {
        let (i, j) = choose|i: int, j: int|
            0 <= i < j < d.children.len() && (#[trigger] d.children[i]).is_some() && (
            #[trigger] d.children[j]).is_some();
        assert(node.children@[i] == shared_child(d.children[i]));
        assert(node.children@[j] == shared_child(d.children[j]));
        assert(node.children@[i].is_some() && node.children@[j].is_some());
    }
}

/// The node behind a reference as a node that the write owns: the node
/// itself where the write owns it already, a fresh copy where it is shared.
pub fn into_owned(db: &DeltaDb, mm: &mut DeltaMptsNodeMemoryManager, r: CowNodeRef) -> (node:
    CowNode)
    requires
        db.wf(),
        old(mm).wf(),
        old(mm).coherent(db.nodes()),
        ref_wf(db.nodes(), r),
    ensures
        final(mm).wf(),
        final(mm).coherent(db.nodes()),
        final(mm).limits() == old(mm).limits(),
        node_wf(db.nodes(), node),
        node_shaped(node),
        forall|key: Seq<u8>| #[trigger]
            node_lookup(db.nodes(), node, key) == ref_lookup(db.nodes(), r, key),
        r matches CowNodeRef::Owned(b) ==> node == *b,
{
    match r {
        CowNodeRef::Owned(b) => *b,
        CowNodeRef::Committed(h) => load_owned(db, mm, h),
    }
}

// ---------------------------------------------------------------------------
// Writing
// ---------------------------------------------------------------------------

/// What a path holds after `value` was put under `key`.
pub open spec fn after_put(before: Option<Seq<u8>>, k: Seq<u8>, key: Seq<u8>, value: Seq<u8>) -> Option<
    Seq<u8>,
> {
    if k == key {
        Some(value)
    } else {
        before
    }
}

/// What a path holds after `key` was deleted.
pub open spec fn after_delete(before: Option<Seq<u8>>, k: Seq<u8>, key: Seq<u8>) -> Option<Seq<u8>> {
    if k == key {
        None
    } else {
        before
    }
}

/// No child at all.
pub open spec fn no_children(children: Seq<Option<CowNodeRef>>) -> bool {
    forall|i: int| 0 <= i < children.len() ==> (#[trigger] children[i]).is_none()
}

pub(crate) fn empty_children() -> (children: Vec<Option<CowNodeRef>>)
    ensures
        children@.len() == FAN_OUT,
        no_children(children@),
{
    let mut children: Vec<Option<CowNodeRef>> = Vec::new();
    let mut i: usize = 0;
    while i < FAN_OUT
        invariant
            i <= FAN_OUT,
            children@.len() == i,
            forall|j: int| 0 <= j < i ==> (#[trigger] children@[j]).is_none(),
        decreases FAN_OUT - i,
    {
        children.push(None);
        i = i + 1;
    }
    children
}

/// A node without children holds its value under its path, and nothing else.
pub proof fn lemma_leaf_lookup(nodes: NodeTable, leaf: CowNode, k: Seq<u8>)
    requires
        no_children(leaf.children@),
    ensures
        node_lookup(nodes, leaf, k) == if k == leaf.path@ {
            option_bytes_view(leaf.value)
        } else {
            None
        },
{
    if k == leaf.path@ {
        assert(k.subrange(0, k.len() as int) =~= k);
    }
    if starts_with(k, leaf.path@) {
        let rest = k.skip(leaf.path@.len() as int);
        if rest.len() == 0 {
            assert(k =~= leaf.path@);
        } else if rest[0] < leaf.children@.len() {
            assert(leaf.children@[rest[0] as int].is_none());
        }
    }
}

/// A new node that holds `value` under the rest of `key` from `pos` on.
fn new_leaf(key: &Vec<u8>, pos: usize, value: Vec<u8>) -> (leaf: CowNode)
    requires
        pos <= key.len(),
        is_nibble_path(key@),
    ensures
        leaf.path@ == key@.skip(pos as int),
        leaf.value == Some(value),
        leaf.children@.len() == FAN_OUT,
        no_children(leaf.children@),
        node_shaped(leaf),
        forall|nodes: NodeTable| #[trigger] node_wf(nodes, leaf),
{
    let path = copy_range(key, pos, key.len());
    assert(path@ =~= key@.skip(pos as int));
    let leaf = CowNode { path, value: Some(value), children: empty_children() };
    assert forall|nodes: NodeTable| #[trigger] node_wf(nodes, leaf) by {
        assert forall|i: int| 0 <= i < leaf.children@.len() implies (
        #[trigger] leaf.children@[i] matches Some(r) ==> ref_wf(nodes, r)) by {
            assert(leaf.children@[i].is_none());
        }
    }
    leaf
}

/// Setting the value of a node puts the value under the node's path.
pub proof fn lemma_set_value(nodes: NodeTable, a: CowNode, b: CowNode, k: Seq<u8>)
    requires
        b.path@ == a.path@,
        b.children@ == a.children@,
    ensures
        node_lookup(nodes, b, k) == if k == a.path@ {
            option_bytes_view(b.value)
        } else {
            node_lookup(nodes, a, k)
        },
{
    if k == a.path@ {
        assert(k.subrange(0, k.len() as int) =~= k);
    }
    if starts_with(k, a.path@) {
        let rest = k.skip(a.path@.len() as int);
        if rest.len() == 0 {
            assert(k =~= a.path@);
        }
    }
}

/// `b` is `a` with the child at `idx` replaced.
pub open spec fn child_replaced(a: CowNode, b: CowNode, idx: int) -> bool {
    &&& b.path@ == a.path@
    &&& option_bytes_view(b.value) == option_bytes_view(a.value)
    &&& b.children@.len() == a.children@.len()
    &&& 0 <= idx < a.children@.len()
    &&& forall|i: int|
        0 <= i < a.children@.len() && i != idx ==> #[trigger] b.children@[i] == a.children@[i]
}

/// A path through the child at `idx` of a node: the node's path, the index,
/// and a path below the child.
pub open spec fn path_through(path: Seq<u8>, idx: int, sub: Seq<u8>) -> Seq<u8> {
    path + seq![idx as u8] + sub
}

/// What a node with a replaced child holds: below that child what the new
/// child holds, elsewhere what it held.
pub proof fn lemma_child_replaced(nodes: NodeTable, a: CowNode, b: CowNode, idx: int, k: Seq<u8>)
    requires
        child_replaced(a, b, idx),
        idx < 256,
    ensures
        node_lookup(nodes, b, k) == if starts_with(k, a.path@) && k.len() > a.path@.len()
            && k[a.path@.len() as int] == idx {
            root_lookup(nodes, b.children@[idx], k.skip(a.path@.len() as int + 1))
        } else {
            node_lookup(nodes, a, k)
        },
        starts_with(k, a.path@) && k.len() > a.path@.len() && k[a.path@.len() as int] == idx
            ==> node_lookup(nodes, a, k) == root_lookup(
            nodes,
            a.children@[idx],
            k.skip(a.path@.len() as int + 1),
        ) && k == path_through(a.path@, idx, k.skip(a.path@.len() as int + 1)),
{
    if starts_with(k, a.path@) {
        let n = a.path@.len() as int;
        let rest = k.skip(n);
        if rest.len() > 0 {
            assert(rest[0] == k[n]);
            assert(rest.skip(1) =~= k.skip(n + 1));
            if k[n] == idx {
                assert(k =~= path_through(a.path@, idx, k.skip(n + 1)));
            } else if rest[0] < a.children@.len() {
                assert(b.children@[rest[0] as int] == a.children@[rest[0] as int]);
            }
        }
    }
}

/// A key that runs through a child: it starts with the path, goes on with
/// the index, and its rest is the path below.
pub proof fn lemma_path_through(path: Seq<u8>, idx: int, sub: Seq<u8>)
    requires
        0 <= idx < 256,
    ensures
        starts_with(path_through(path, idx, sub), path),
        path_through(path, idx, sub).len() == path.len() + 1 + sub.len(),
        path_through(path, idx, sub)[path.len() as int] == idx,
        path_through(path, idx, sub).skip(path.len() as int + 1) == sub,
{
    let k = path_through(path, idx, sub);
    assert(k.subrange(0, path.len() as int) =~= path);
    assert(k.skip(path.len() as int + 1) =~= sub);
}

/// Splitting a path: a key starts with the whole path exactly if it starts
/// with the part before `c`, goes on with element `c`, and its rest starts
/// with the part behind.
pub proof fn lemma_split_path(path: Seq<u8>, c: int, k: Seq<u8>)
    requires
        0 <= c < path.len(),
    ensures
        starts_with(k, path) <==> starts_with(k, path.subrange(0, c)) && k.len() > c && k[c]
            == path[c] && starts_with(k.skip(c + 1), path.skip(c + 1)),
        starts_with(k, path) ==> k.skip(c + 1).skip(path.len() - c - 1) == k.skip(
            path.len() as int,
        ),
{
    let front = path.subrange(0, c);
    let back = path.skip(c + 1);
    if starts_with(k, path) {
        assert(k.subrange(0, c) =~= front) by {
            assert forall|i: int| 0 <= i < c implies k.subrange(0, c)[i] == front[i] by {
                assert(k.subrange(0, path.len() as int)[i] == path[i]);
            }
        }
        assert(k.subrange(0, path.len() as int)[c] == path[c]);
        assert(k.skip(c + 1).subrange(0, back.len() as int) =~= back) by {
            assert forall|i: int| 0 <= i < back.len() implies k.skip(c + 1).subrange(
                0,
                back.len() as int,
            )[i] == back[i] by {
                assert(k.subrange(0, path.len() as int)[c + 1 + i] == path[c + 1 + i]);
            }
        }
        assert(k.skip(c + 1).skip(path.len() - c - 1) =~= k.skip(path.len() as int));
    }
    if starts_with(k, front) && k.len() > c && k[c] == path[c] && starts_with(k.skip(c + 1), back) {
        assert(k.subrange(0, path.len() as int) =~= path) by {
            assert forall|i: int| 0 <= i < path.len() implies k.subrange(0, path.len() as int)[i]
                == path[i] by {
                if i < c {
                    assert(k.subrange(0, c)[i] == front[i]);
                } else if i > c {
                    assert(k.skip(c + 1).subrange(0, back.len() as int)[i - c - 1] == back[i - c
                        - 1]);
                }
            }
        }
    }
}

/// What the inner node of a split holds: below element `c` of the old path
/// what the old node held, and the old node held nothing elsewhere.
pub proof fn lemma_split_inner(nodes: NodeTable, a: CowNode, inner: CowNode, c: int, k: Seq<u8>)
    requires
        0 <= c < a.path@.len(),
        inner.path@ == a.path@.skip(c + 1),
        inner.value == a.value,
        inner.children == a.children,
    ensures
        starts_with(k, a.path@.subrange(0, c)) && k.len() > c && k[c] == a.path@[c] ==> node_lookup(
            nodes,
            inner,
            k.skip(c + 1),
        ) == node_lookup(nodes, a, k),
        !(starts_with(k, a.path@.subrange(0, c)) && k.len() > c && k[c] == a.path@[c])
            ==> node_lookup(nodes, a, k).is_none(),
{
    lemma_split_path(a.path@, c, k);
}

/// A node keeps its shape when a child is put where one was or none was.
pub proof fn lemma_child_added_shaped(a: CowNode, b: CowNode, idx: int)
    requires
        child_replaced(a, b, idx),
        node_shaped(a),
        b.children@[idx].is_some(),
    ensures
        node_shaped(b),
{
    if a.value.is_none() {
        let (i, j) = choose|i: int, j: int|
            0 <= i < j < a.children@.len() && (#[trigger] a.children@[i]).is_some() && (
            #[trigger] a.children@[j]).is_some();
        if i != idx {
            assert(b.children@[i] == a.children@[i]);
        }
        if j != idx {
            assert(b.children@[j] == a.children@[j]);
        }
        assert(b.children@[i].is_some() && b.children@[j].is_some());
    }
}

/// A node with the value and the children of a node has its shape.
pub proof fn lemma_same_children_shaped(a: CowNode, b: CowNode)
    requires
        node_shaped(a),
        option_bytes_view(b.value) == option_bytes_view(a.value),
        b.children@ == a.children@,
    ensures
        node_shaped(b),
{
    if a.value.is_none() {
        let (i, j) = choose|i: int, j: int|
            0 <= i < j < a.children@.len() && (#[trigger] a.children@[i]).is_some() && (
            #[trigger] a.children@[j]).is_some();
        assert(b.children@[i].is_some() && b.children@[j].is_some());
    }
}

/// Takes the child at `idx` out of a node.
fn take_child(node: &mut CowNode, idx: usize) -> (r: Option<CowNodeRef>)
    requires
        idx < old(node).children@.len(),
    ensures
        r == old(node).children@[idx as int],
        final(node).children@ == old(node).children@.update(idx as int, None),
        final(node).path == old(node).path,
        final(node).value == old(node).value,
{
    let slot = &mut node.children[idx];
    slot.take()
}

/// Puts `value` under the rest of `key` from `pos` on, in the trie below an
/// owned node. Persisted nodes on the way are copied; nodes beside it stay
/// shared.
pub fn node_put(
    db: &DeltaDb,
    mm: &mut DeltaMptsNodeMemoryManager,
    node: CowNode,
    key: &Vec<u8>,
    pos: usize,
    value: Vec<u8>,
) -> (res: CowNode)
    requires
        db.wf(),
        old(mm).wf(),
        old(mm).coherent(db.nodes()),
        node_wf(db.nodes(), node),
        node_shaped(node),
        pos <= key.len(),
        is_nibble_path(key@),
    ensures
        final(mm).wf(),
        final(mm).coherent(db.nodes()),
        final(mm).limits() == old(mm).limits(),
        node_wf(db.nodes(), res),
        node_shaped(res),
        forall|k: Seq<u8>| #[trigger]
            node_lookup(db.nodes(), res, k) == after_put(
                node_lookup(db.nodes(), node, k),
                k,
                key@.skip(pos as int),
                value@,
            ),
    decreases key.len() - pos,
{
    let ghost nodes = db.nodes();
    let ghost target = key@.skip(pos as int);
    let ghost given = node;
    let mut node = node;
    proof {
        lemma_prefix_match(node.path@, target);
        lemma_common_prefix(node.path@, target);
    }
    let c = match_len(&node.path, key, pos);
    if c == node.path.len() {
        if pos + c == key.len() {
            node.value = Some(value);
            proof {
                assert(target =~= given.path@);
                assert forall|k: Seq<u8>| #[trigger]
                    node_lookup(nodes, node, k) == after_put(
                        node_lookup(nodes, given, k),
                        k,
                        target,
                        value@,
                    ) by {
                    lemma_set_value(nodes, given, node, k);
                }
                assert forall|i: int| 0 <= i < node.children@.len() implies (
                #[trigger] node.children@[i] matches Some(r) ==> ref_wf(nodes, r)) by {
                    assert(node.children@[i] == given.children@[i]);
                }
            }
            return node;
        }
        let idx = key[pos + c] as usize;
        let ghost sub = key@.skip(pos + c + 1);
        proof {
            assert(target[c as int] == key@[pos + c]);
            assert(target.skip(c as int + 1) =~= sub);
            assert(target =~= path_through(given.path@, idx as int, sub));
        }
        let child = take_child(&mut node, idx);
        let new_child = match child {
            None => {
                let leaf = new_leaf(key, pos + c + 1, value);
                proof {
                    assert(node_wf(nodes, leaf));
                    assert forall|k: Seq<u8>| #[trigger]
                        node_lookup(nodes, leaf, k) == after_put(
                            root_lookup(nodes, given.children@[idx as int], k),
                            k,
                            sub,
                            value@,
                        ) by {
                        lemma_leaf_lookup(nodes, leaf, k);
                    }
                }
                leaf
            },
            Some(r) => {
                assert(given.children@[idx as int] == Some(r));
                assert(ref_wf(nodes, r));
                let owned = into_owned(db, mm, r);
                node_put(db, mm, owned, key, pos + c + 1, value)
            },
        };
        node.children.set(idx, Some(CowNodeRef::Owned(Box::new(new_child))));
        proof {
            assert(child_replaced(given, node, idx as int));
            lemma_child_added_shaped(given, node, idx as int);
            assert forall|k: Seq<u8>| #[trigger]
                node_lookup(nodes, node, k) == after_put(
                    node_lookup(nodes, given, k),
                    k,
                    target,
                    value@,
                ) by {
                lemma_child_replaced(nodes, given, node, idx as int, k);
                lemma_path_through(given.path@, idx as int, sub);
                let n = given.path@.len() as int;
                if starts_with(k, given.path@) && k.len() > n && k[n] == idx {
                    let below = k.skip(n + 1);
                    assert(node_lookup(nodes, new_child, below) == after_put(
                        root_lookup(nodes, given.children@[idx as int], below),
                        below,
                        sub,
                        value@,
                    ));
                    if below == sub {
                        assert(k == target);
                    }
                }
            }
            assert forall|i: int| 0 <= i < node.children@.len() implies (
            #[trigger] node.children@[i] matches Some(r) ==> ref_wf(nodes, r)) by {
                if i != idx {
                    assert(node.children@[i] == given.children@[i]);
                }
            }
        }
        node
    } else {
        // the key leaves the node's path at element `c`: a new node takes the
        // shared part, and the old node goes below it with the rest
        let shared = copy_range(&node.path, 0, c);
        let old_idx = node.path[c] as usize;
        let rest_path = copy_range(&node.path, c + 1, node.path.len());
        assert(rest_path@ =~= given.path@.skip(c + 1));
        node.path = rest_path;
        let ghost inner = node;
        proof {
            assert forall|i: int| 0 <= i < inner.children@.len() implies (
            #[trigger] inner.children@[i] matches Some(r) ==> ref_wf(nodes, r)) by {
                assert(inner.children@[i] == given.children@[i]);
            }
            assert(node_wf(nodes, inner));
            lemma_same_children_shaped(given, inner);
        }
        let mut children = empty_children();
        children.set(old_idx, Some(CowNodeRef::Owned(Box::new(node))));
        if pos + c == key.len() {
            let parent = CowNode { path: shared, value: Some(value), children };
            proof {
                assert(target =~= parent.path@);
                assert forall|k: Seq<u8>| #[trigger]
                    node_lookup(nodes, parent, k) == after_put(
                        node_lookup(nodes, given, k),
                        k,
                        target,
                        value@,
                    ) by {
                    lemma_split_inner(nodes, given, inner, c as int, k);
                    if starts_with(k, parent.path@) {
                        let rest = k.skip(c as int);
                        if rest.len() == 0 {
                            assert(k =~= parent.path@);
                        } else {
                            assert(rest[0] == k[c as int]);
                            assert(rest.skip(1) =~= k.skip(c + 1));
                            if rest[0] < 16 && rest[0] != old_idx {
                                assert(parent.children@[rest[0] as int].is_none());
                            }
                        }
                    }
                }
                assert forall|i: int| 0 <= i < parent.children@.len() implies (
                #[trigger] parent.children@[i] matches Some(r) ==> ref_wf(nodes, r)) by {
                    if i != old_idx {
                        assert(parent.children@[i].is_none());
                    }
                }
            }
            parent
        } else {
            let idx = key[pos + c] as usize;
            let ghost sub = key@.skip(pos + c + 1);
            let leaf = new_leaf(key, pos + c + 1, value);
            let ghost leaf_copy = leaf;
            proof {
                assert(target[c as int] == key@[pos + c]);
                assert(target.skip(c as int + 1) =~= sub);
                assert(idx != old_idx);
                assert(node_wf(nodes, leaf));
            }
            children.set(idx, Some(CowNodeRef::Owned(Box::new(leaf))));
            let parent = CowNode { path: shared, value: None, children };
            proof {
                if idx < old_idx {
                    assert(parent.children@[idx as int].is_some() && parent.children@[old_idx as int].is_some());
                } else {
                    assert(parent.children@[old_idx as int].is_some() && parent.children@[idx as int].is_some());
                }
                assert(cow_two_children(parent.children@));
                assert(target.subrange(0, c as int) =~= parent.path@);
                assert forall|k: Seq<u8>| #[trigger]
                    node_lookup(nodes, parent, k) == after_put(
                        node_lookup(nodes, given, k),
                        k,
                        target,
                        value@,
                    ) by {
                    lemma_split_inner(nodes, given, inner, c as int, k);
                    lemma_path_through(parent.path@, idx as int, sub);
                    assert(target =~= path_through(parent.path@, idx as int, sub));
                    if starts_with(k, parent.path@) {
                        let rest = k.skip(c as int);
                        if rest.len() > 0 {
                            assert(rest[0] == k[c as int]);
                            assert(rest.skip(1) =~= k.skip(c + 1));
                            if rest[0] == idx {
                                lemma_leaf_lookup(nodes, leaf_copy, rest.skip(1));
                                assert(k =~= path_through(parent.path@, idx as int, rest.skip(1)));
                            } else if rest[0] < 16 && rest[0] != old_idx {
                                assert(parent.children@[rest[0] as int].is_none());
                            }
                        }
                    }
                }
                assert forall|i: int| 0 <= i < parent.children@.len() implies (
                #[trigger] parent.children@[i] matches Some(r) ==> ref_wf(nodes, r)) by {
                    if i != old_idx && i != idx {
                        assert(parent.children@[i].is_none());
                    }
                }
            }
            parent
        }
    }
}

/// What an owned node holds, if there is one.
pub open spec fn opt_node_lookup(nodes: NodeTable, node: Option<CowNode>, k: Seq<u8>) -> Option<
    Seq<u8>,
> {
    match node {
        Some(n) => node_lookup(nodes, n, k),
        None => None,
    }
}

/// The only child of a node is at `idx`.
pub open spec fn only_child(children: Seq<Option<CowNodeRef>>, idx: int) -> bool {
    &&& 0 <= idx < children.len()
    &&& children[idx].is_some()
    &&& forall|i: int| 0 <= i < children.len() && i != idx ==> (#[trigger] children[i]).is_none()
}

/// Counts the children of a node up to two, and gives the place of the first.
fn count_children(children: &Vec<Option<CowNodeRef>>) -> (r: (usize, usize))
    requires
        children@.len() == FAN_OUT,
    ensures
        r.0 == 0 ==> no_children(children@),
        r.0 == 1 ==> only_child(children@, r.1 as int),
        r.0 >= 2 ==> cow_two_children(children@),
        r.0 <= 2,
{
    let mut count: usize = 0;
    let mut first: usize = 0;
    let mut i: usize = 0;
    while i < FAN_OUT
        invariant
            i <= FAN_OUT,
            children@.len() == FAN_OUT,
            count <= 2,
            count == 0 ==> forall|j: int| 0 <= j < i ==> (#[trigger] children@[j]).is_none(),
            count == 1 ==> first < i && children@[first as int].is_some() && forall|j: int|
                0 <= j < i && j != first ==> (#[trigger] children@[j]).is_none(),
            count == 2 ==> cow_two_children(children@),
        decreases FAN_OUT - i,
    {
        if children[i].is_some() {
            if count == 0 {
                first = i;
                count = 1;
            } else {
                if count == 1 {
                    assert(children@[first as int].is_some() && children@[i as int].is_some());
                }
                count = 2;
            }
        }
        i = i + 1;
    }
    (count, first)
}

/// Brings a node into the shape that the trie keeps: a node without value
/// and children is no node, and one without value and with a single child
/// merges with that child, whose path grows by the node's path and the
/// child's place.
fn normalize(db: &DeltaDb, mm: &mut DeltaMptsNodeMemoryManager, node: CowNode) -> (res: Option<
    CowNode,
>)
    requires
        db.wf(),
        old(mm).wf(),
        old(mm).coherent(db.nodes()),
        node_wf(db.nodes(), node),
    ensures
        final(mm).wf(),
        final(mm).coherent(db.nodes()),
        final(mm).limits() == old(mm).limits(),
        res matches Some(n) ==> node_wf(db.nodes(), n) && node_shaped(n),
        forall|k: Seq<u8>| #[trigger]
            opt_node_lookup(db.nodes(), res, k) == node_lookup(db.nodes(), node, k),
{
    let ghost nodes = db.nodes();
    if node.value.is_some() {
        return Some(node);
    }
    let (count, idx) = count_children(&node.children);
    if count == 0 {
        proof {
            assert forall|k: Seq<u8>| #[trigger] node_lookup(nodes, node, k).is_none() by {
                lemma_leaf_lookup(nodes, node, k);
            }
        }
        return None;
    }
    if count >= 2 {
        return Some(node);
    }
    let ghost given = node;
    let mut node = node;
    let child_ref = take_child(&mut node, idx);
    let r = match child_ref {
        Some(r) => r,
        None => {
            proof {
                assert(false);
            }
            unreached()
        },
    };
    assert(given.children@[idx as int] == Some(r));
    assert(ref_wf(nodes, r));
    let mut child = into_owned(db, mm, r);
    let ghost inner = child;
    let mut path = node.path;
    path.push(idx as u8);
    let ghost front = path@;
    crate::node::push_all(&mut path, &child.path);
    child.path = path;
    proof {
        let c = given.path@.len() as int;
        assert(child.path@.subrange(0, c) =~= given.path@);
        assert(child.path@.skip(c + 1) =~= inner.path@);
        assert(child.path@[c] == idx);
        lemma_same_children_shaped(inner, child);
        assert forall|i: int| 0 <= i < child.children@.len() implies (
        #[trigger] child.children@[i] matches Some(x) ==> ref_wf(nodes, x)) by {
            assert(child.children@[i] == inner.children@[i]);
        }
        assert forall|k: Seq<u8>| #[trigger]
            node_lookup(nodes, child, k) == node_lookup(nodes, given, k) by {
            lemma_split_inner(nodes, child, inner, c, k);
            if starts_with(k, given.path@) {
                let rest = k.skip(c);
                if rest.len() > 0 {
                    assert(rest[0] == k[c]);
                    assert(rest.skip(1) =~= k.skip(c + 1));
                    if rest[0] < 16 && rest[0] != idx {
                        assert(given.children@[rest[0] as int].is_none());
                    }
                }
            }
        }
    }
    Some(child)
}

/// Deletes what the trie below an owned node holds under the rest of `key`
/// from `pos` on. What is left of the node is brought back into shape; the
/// result is `None` where nothing is left.
pub fn node_delete(
    db: &DeltaDb,
    mm: &mut DeltaMptsNodeMemoryManager,
    node: CowNode,
    key: &Vec<u8>,
    pos: usize,
) -> (res: Option<CowNode>)
    requires
        db.wf(),
        old(mm).wf(),
        old(mm).coherent(db.nodes()),
        node_wf(db.nodes(), node),
        node_shaped(node),
        pos <= key.len(),
    ensures
        final(mm).wf(),
        final(mm).coherent(db.nodes()),
        final(mm).limits() == old(mm).limits(),
        res matches Some(n) ==> node_wf(db.nodes(), n) && node_shaped(n),
        forall|k: Seq<u8>| #[trigger]
            opt_node_lookup(db.nodes(), res, k) == after_delete(
                node_lookup(db.nodes(), node, k),
                k,
                key@.skip(pos as int),
            ),
    decreases key.len() - pos,
{
    let ghost nodes = db.nodes();
    let ghost target = key@.skip(pos as int);
    let ghost given = node;
    let mut node = node;
    proof {
        lemma_prefix_match(node.path@, target);
        lemma_common_prefix(node.path@, target);
    }
    let c = match_len(&node.path, key, pos);
    if c < node.path.len() {
        return Some(node);
    }
    if pos + c == key.len() {
        node.value = None;
        proof {
            assert(target =~= given.path@);
            assert forall|i: int| 0 <= i < node.children@.len() implies (
            #[trigger] node.children@[i] matches Some(r) ==> ref_wf(nodes, r)) by {
                assert(node.children@[i] == given.children@[i]);
            }
        }
        let ghost cleared = node;
        let res = normalize(db, mm, node);
        proof {
            assert forall|k: Seq<u8>| #[trigger]
                opt_node_lookup(nodes, res, k) == after_delete(
                    node_lookup(nodes, given, k),
                    k,
                    target,
                ) by {
                lemma_set_value(nodes, given, cleared, k);
            }
        }
        return res;
    }
    let idx = key[pos + c] as usize;
    let ghost sub = key@.skip(pos + c + 1);
    proof {
        assert(target[c as int] == key@[pos + c]);
        assert(target.skip(c as int + 1) =~= sub);
        assert(target.skip(c as int)[0] == idx);
        assert(target.skip(c as int).skip(1) =~= sub);
    }
    if idx >= FAN_OUT {
        return Some(node);
    }
    let child = take_child(&mut node, idx);
    match child {
        None => {
            proof {
                assert(node.children@ =~= given.children@);
                assert forall|i: int| 0 <= i < node.children@.len() implies (
                #[trigger] node.children@[i] matches Some(r) ==> ref_wf(nodes, r)) by {
                    assert(node.children@[i] == given.children@[i]);
                }
                lemma_same_children_shaped(given, node);
            }
            Some(node)
        },
        Some(r) => {
            assert(given.children@[idx as int] == Some(r));
            assert(ref_wf(nodes, r));
            let owned = into_owned(db, mm, r);
            let below = node_delete(db, mm, owned, key, pos + c + 1);
            let ghost below_copy = below;
            match below {
                Some(n) => {
                    node.children.set(idx, Some(CowNodeRef::Owned(Box::new(n))));
                },
                None => {},
            }
            let ghost changed = node;
            proof {
                assert(child_replaced(given, changed, idx as int));
                assert forall|i: int| 0 <= i < changed.children@.len() implies (
                #[trigger] changed.children@[i] matches Some(x) ==> ref_wf(nodes, x)) by {
                    if i != idx {
                        assert(changed.children@[i] == given.children@[i]);
                    }
                }
            }
            let res = normalize(db, mm, node);
            proof {
                assert forall|k: Seq<u8>| #[trigger]
                    opt_node_lookup(nodes, res, k) == after_delete(
                        node_lookup(nodes, given, k),
                        k,
                        target,
                    ) by {
                    lemma_child_replaced(nodes, given, changed, idx as int, k);
                    lemma_path_through(given.path@, idx as int, sub);
                    assert(target =~= path_through(given.path@, idx as int, sub));
                    let n = given.path@.len() as int;
                    if starts_with(k, given.path@) && k.len() > n && k[n] == idx {
                        let under = k.skip(n + 1);
                        assert(opt_node_lookup(nodes, below_copy, under) == after_delete(
                            node_lookup(nodes, owned, under),
                            under,
                            sub,
                        ));
                        if under == sub {
                            assert(k == target);
                        }
                    }
                }
            }
            res
        },
    }
}

// ---------------------------------------------------------------------------
// Persisting
// ---------------------------------------------------------------------------

/// What a child holds once it is persisted under `hash`: what it held before.
pub open spec fn child_persisted(
    nodes: NodeTable,
    before: NodeTable,
    child: Option<CowNodeRef>,
    hash: Option<MerkleHash>,
) -> bool {
    match child {
        None => hash.is_none(),
        Some(r) => hash.is_some() && nodes.contains_key(hash.unwrap()) && forall|k: Seq<u8>| #[trigger]
            hash_lookup(nodes, hash.unwrap(), k) == ref_lookup(before, r, k),
    }
}

/// The rows of a store.
pub type Rows = Map<MerkleHash, Seq<u8>>;

/// What persisting an owned node does to the rows of a store, and the hash
/// under which the node then stands. The owned nodes below it are persisted
/// first, child by child in the order of their places; then the node's own
/// bytes are stored under their content hash. Where that hash is the key of
/// a row with other bytes, nothing more is stored and there is no hash: the
/// two nodes collide.
pub open spec fn flush_tree(rows: Rows, node: CowNode) -> (Rows, Option<MerkleHash>)
    decreases node, node.children@.len() + 1,
{
    let below = flush_children(rows, node, node.children@.len());
    match below.1 {
        None => (below.0, None),
        Some(hashes) => {
            let bytes = encode_spec(
                NodeData {
                    path: node.path@,
                    value: option_bytes_view(node.value),
                    children: hashes,
                },
            );
            let h = content_hash(bytes);
            if below.0.contains_key(h) && below.0[h] != bytes {
                (below.0, None)
            } else {
                (below.0.insert(h, bytes), Some(h))
            }
        },
    }
}

/// What persisting the first `n` children of an owned node does to the rows
/// of a store, and the hashes under which those children then stand: its
/// own hash for a child that is persisted already, none for a place without
/// child. There are no hashes where a node collided.
pub open spec fn flush_children(rows: Rows, node: CowNode, n: nat) -> (
    Rows,
    Option<Seq<Option<MerkleHash>>>,
)
    decreases node, n,
{
    if n == 0 || n > node.children@.len() {
        (rows, Some(Seq::empty()))
    } else {
        let before = flush_children(rows, node, (n - 1) as nat);
        match before.1 {
            None => (before.0, None),
            Some(hashes) => match node.children@[n - 1] {
                None => (before.0, Some(hashes.push(None))),
                Some(CowNodeRef::Committed(h)) => (before.0, Some(hashes.push(Some(h)))),
                Some(CowNodeRef::Owned(b)) => {
                    let child = flush_tree(before.0, *b);
                    match child.1 {
                        Some(h) => (child.0, Some(hashes.push(Some(h)))),
                        None => (child.0, None),
                    }
                },
            },
        }
    }
}

/// What persisting the root of a state does to the rows of a store, and the
/// root under which the state then stands: `Some(None)` for a state that
/// holds nothing, the root itself for one that is persisted already, and
/// nothing where a node collided.
pub open spec fn flush_root(rows: Rows, root: Option<CowNodeRef>) -> (Rows, Option<Option<MerkleHash>>) {
    match root {
        None => (rows, Some(None)),
        Some(CowNodeRef::Committed(h)) => (rows, Some(Some(h))),
        Some(CowNodeRef::Owned(b)) => {
            let flushed = flush_tree(rows, *b);
            match flushed.1 {
                Some(h) => (flushed.0, Some(Some(h))),
                None => (flushed.0, None),
            }
        },
    }
}

/// The hashes of a node without children: none at each place.
pub open spec fn no_hashes(n: nat) -> Seq<Option<MerkleHash>> {
    Seq::new(n, |i: int| None::<MerkleHash>)
}

/// The bytes of a node without children.
pub open spec fn leaf_bytes(leaf: CowNode) -> Seq<u8> {
    encode_spec(
        NodeData {
            path: leaf.path@,
            value: option_bytes_view(leaf.value),
            children: no_hashes(leaf.children@.len()),
        },
    )
}

/// Nothing is persisted for the children of a node that has none.
pub proof fn lemma_flush_no_children(rows: Rows, leaf: CowNode, n: nat)
    requires
        no_children(leaf.children@),
        n <= leaf.children@.len(),
    ensures
        flush_children(rows, leaf, n) == (rows, Some(no_hashes(n))),
    decreases n,
{
    if n > 0 {
        lemma_flush_no_children(rows, leaf, (n - 1) as nat);
        assert(leaf.children@[n - 1].is_none());
        assert(no_hashes((n - 1) as nat).push(None) =~= no_hashes(n));
    } else {
        assert(Seq::<Option<MerkleHash>>::empty() =~= no_hashes(0));
    }
}

/// A node without children is persisted as its own bytes under their
/// content hash, unless that hash is the key of a row with other bytes. So
/// it is persisted in any store that has no row under that hash, such as a
/// store without rows.
pub proof fn lemma_flush_leaf(rows: Rows, leaf: CowNode)
    requires
        no_children(leaf.children@),
    ensures
        flush_tree(rows, leaf) == if rows.contains_key(content_hash(leaf_bytes(leaf)))
            && rows[content_hash(leaf_bytes(leaf))] != leaf_bytes(leaf) {
            (rows, None::<MerkleHash>)
        } else {
            (
                rows.insert(content_hash(leaf_bytes(leaf)), leaf_bytes(leaf)),
                Some(content_hash(leaf_bytes(leaf))),
            )
        },
{
    lemma_flush_no_children(rows, leaf, leaf.children@.len());
}

/// Once a child has collided, the children behind it are not persisted.
pub proof fn lemma_flush_children_stops(rows: Rows, node: CowNode, n: nat, m: nat)
    requires
        flush_children(rows, node, n).1.is_none(),
        n <= m <= node.children@.len(),
    ensures
        flush_children(rows, node, m) == flush_children(rows, node, n),
    decreases m,
{
    if m > n {
        lemma_flush_children_stops(rows, node, n, (m - 1) as nat);
    }
}

/// Persists an owned node and the owned nodes below it, children first, and
/// gives the content hash under which the node now stands. Fails where a
/// node's hash is that of different bytes in the store; what was written
/// until then stays in the store, where nothing refers to it.
pub fn flush_node(db: &mut DeltaDb, node: CowNode) -> (r: Result<MerkleHash, ErrorKind>)
    requires
        old(db).wf(),
        node_wf(old(db).nodes(), node),
        node_shaped(node),
    ensures
        final(db).wf(),
        final(db).epoch_roots() == old(db).epoch_roots(),
        final(db).root_records() == old(db).root_records(),
        final(db).rows() == flush_tree(old(db).rows(), node).0,
        r == match flush_tree(old(db).rows(), node).1 {
            Some(h) => Ok::<MerkleHash, ErrorKind>(h),
            None => Err::<MerkleHash, ErrorKind>(ErrorKind::HashCollision),
        },
        old(db).nodes().submap_of(final(db).nodes()),
        match r {
            Ok(h) => final(db).nodes().contains_key(h) && forall|k: Seq<u8>| #[trigger]
                hash_lookup(final(db).nodes(), h, k) == node_lookup(old(db).nodes(), node, k),
            Err(e) => e == ErrorKind::HashCollision,
        },
    decreases node,
{
    let ghost before = db.nodes();
    let ghost start = db.rows();
    let ghost given = node;
    let CowNode { path, value, children } = node;
    let mut children = children;
    let mut hashes: Vec<Option<MerkleHash>> = Vec::new();
    let mut i: usize = 0;
    while i < FAN_OUT
        invariant
            i <= FAN_OUT,
            db.wf(),
            table_wf(before),
            before.submap_of(db.nodes()),
            node_wf(before, given),
            node_shaped(given),
            before == old(db).nodes(),
            db.epoch_roots() == old(db).epoch_roots(),
            db.root_records() == old(db).root_records(),
            given == node,
            children@.len() == FAN_OUT,
            given.children@.len() == FAN_OUT,
            hashes@.len() == i,
            start == old(db).rows(),
            flush_children(start, given, i as nat) == (db.rows(), Some(hashes@)),
            forall|j: int| i <= j < FAN_OUT ==> #[trigger] children@[j] == given.children@[j],
            forall|j: int|
                0 <= j < i ==> child_persisted(
                    db.nodes(),
                    before,
                    #[trigger] given.children@[j],
                    hashes@[j],
                ),
        decreases FAN_OUT - i,
    {
        let ghost current = db.nodes();
        let ghost done = hashes@;
        let slot = &mut children[i];
        let child = slot.take();
        assert(child == given.children@[i as int]);
        let hash = match child {
            None => None,
            Some(CowNodeRef::Committed(h)) => {
                proof {
                    assert(ref_wf(before, CowNodeRef::Committed(h)));
                    lemma_ref_grows(before, current, CowNodeRef::Committed(h));
                    assert forall|k: Seq<u8>| #[trigger]
                        hash_lookup(current, h, k) == ref_lookup(
                            before,
                            CowNodeRef::Committed(h),
                            k,
                        ) by {
                        assert(ref_lookup(current, CowNodeRef::Committed(h), k) == ref_lookup(
                            before,
                            CowNodeRef::Committed(h),
                            k,
                        ));
                    }
                }
                Some(h)
            },
            Some(CowNodeRef::Owned(b)) => {
                proof {
                    assert(ref_wf(before, CowNodeRef::Owned(b)));
                    lemma_node_grows(before, current, *b);
                    assert(node.children@[i as int] == Some(CowNodeRef::Owned(b)));
                    assert(decreases_to!(node => node.children));
                    assert(decreases_to!(node.children => node.children@));
                    assert(decreases_to!(node.children@ => node.children@[i as int]));
                    assert(decreases_to!(node.children@[i as int] => node.children@[i as int]->0));
                    assert(decreases_to!(node => *b));
                }
                match flush_node(db, *b) {
                    Ok(h) => {
                        proof {
                            assert forall|k: Seq<u8>| #[trigger]
                                hash_lookup(db.nodes(), h, k) == ref_lookup(
                                    before,
                                    CowNodeRef::Owned(b),
                                    k,
                                ) by {
                                assert(node_lookup(current, *b, k) == node_lookup(before, *b, k));
                            }
                        }
                        Some(h)
                    },
                    Err(e) => {
                        proof {
                            lemma_submap_trans(before, current, db.nodes());
                            assert(flush_children(start, given, (i + 1) as nat) == (
                                db.rows(),
                                None::<Seq<Option<MerkleHash>>>,
                            ));
                            lemma_flush_children_stops(
                                start,
                                given,
                                (i + 1) as nat,
                                given.children@.len(),
                            );
                        }
                        return Err(e);
                    },
                }
            },
        };
        assert(child_persisted(db.nodes(), before, child, hash));
        hashes.push(hash);
        proof {
            assert(flush_children(start, given, (i + 1) as nat) == (db.rows(), Some(hashes@)));
            lemma_submap_trans(before, current, db.nodes());
            assert forall|j: int| 0 <= j < i + 1 implies child_persisted(
                db.nodes(),
                before,
                #[trigger] given.children@[j],
                hashes@[j],
            ) by {
                if j < i {
                    assert(child_persisted(current, before, given.children@[j], done[j]));
                    if given.children@[j].is_some() {
                        let hj = done[j].unwrap();
                        assert forall|k: Seq<u8>| #[trigger]
                            hash_lookup(db.nodes(), hj, k) == ref_lookup(
                                before,
                                given.children@[j].unwrap(),
                                k,
                            ) by {
                            lemma_hash_lookup_grows(current, db.nodes(), hj, k);
                        }
                    }
                }
            }
        }
        i = i + 1;
    }
    let ghost current = db.nodes();
    let ghost path_view = path@;
    let ghost value_view = option_bytes_view(value);
    let (stored, bytes) = TrieNode::new(path, value, hashes);
    proof {
        stored.lemma_size();
        lemma_decode_encode(stored@);
        if value_view.is_none() {
            let (a, b) = choose|a: int, b: int|
                0 <= a < b < given.children@.len() && (#[trigger] given.children@[a]).is_some()
                    && (#[trigger] given.children@[b]).is_some();
            assert(child_persisted(current, before, given.children@[a], hashes@[a]));
            assert(child_persisted(current, before, given.children@[b], hashes@[b]));
            assert(stored@.children[a].is_some() && stored@.children[b].is_some());
        }
        assert(stored@.shaped());
        assert forall|j: int|
            0 <= j < FAN_OUT && (#[trigger] decode_spec(bytes@).unwrap().children[j]).is_some()
                implies current.contains_key(decode_spec(bytes@).unwrap().children[j].unwrap()) by {
            assert(child_persisted(current, before, given.children@[j], hashes@[j]));
        }
    }
    match db.insert_node(bytes) {
        Err(e) => {
            proof {
                lemma_submap_trans(before, current, db.nodes());
            }
            Err(e)
        },
        Ok(h) => {
            proof {
                lemma_submap_trans(before, current, db.nodes());
                let after = db.nodes();
                assert(after[h] == stored@);
                assert forall|k: Seq<u8>| #[trigger]
                    hash_lookup(after, h, k) == node_lookup(before, given, k) by {
                    if starts_with(k, path_view) {
                        let rest = k.skip(path_view.len() as int);
                        if rest.len() > 0 && rest[0] < FAN_OUT {
                            let j = rest[0] as int;
                            assert(child_persisted(
                                current,
                                before,
                                given.children@[j],
                                hashes@[j],
                            ));
                            if given.children@[j].is_some() {
                                lemma_hash_lookup_grows(
                                    current,
                                    after,
                                    hashes@[j].unwrap(),
                                    rest.skip(1),
                                );
                            }
                        }
                    }
                }
            }
            Ok(h)
        },
    }
}

/// A table within a table within a table.
pub proof fn lemma_submap_trans(a: NodeTable, b: NodeTable, c: NodeTable)
    requires
        a.submap_of(b),
        b.submap_of(c),
    ensures
        a.submap_of(c),
{
    assert forall|h: MerkleHash| #[trigger] a.dom().contains(h) implies c.dom().contains(h) && a[h]
        == c[h] by {
        assert(b.dom().contains(h));
    }
}

} // verus!
