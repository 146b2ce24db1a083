//! Trie nodes as they are kept and persisted, and their byte format.
//!
//! A node holds a compressed path of nibbles, an optional value, and up to
//! sixteen children, each named by the content hash of the child. Its bytes
//! are: a discriminator; the length of the path and the path; for a node that
//! is no leaf, sixteen child entries of nine bytes; the value, behind a flag
//! and its length; and last the number of bytes before that last field.

use vstd::prelude::*;
use vstd::bytes::spec_u64_from_le_bytes;
use vstd::bytes::spec_u64_to_le_bytes;
use vstd::bytes::u64_from_le_bytes;
use vstd::bytes::u64_to_le_bytes;
use vstd::bytes::lemma_auto_spec_u64_to_from_le_bytes;
use vstd::slice::slice_subrange;
use crate::nibbles::is_nibble_path;

verus! {

/// The number of children that a node can have.
pub const FAN_OUT: usize = 16;

/// The bytes that the sixteen child entries of a node take.
pub const CHILD_BLOCK_LEN: usize = 144;

/// The content hash that names a persisted node.
pub type MerkleHash = u64;

/// What a node is, by its shape.
#[derive(Clone, Copy, Debug, PartialEq, Eq, Structural)]
pub enum NodeKind {
    /// No children.
    Leaf,
    /// Children, and no compressed path before them.
    Branch,
    /// Children behind a compressed path.
    Extension,
}

/// The content of a node.
#[verifier::ext_equal]
pub struct NodeData {
    pub path: Seq<u8>,
    pub value: Option<Seq<u8>>,
    pub children: Seq<Option<MerkleHash>>,
}

/// At least two children.
pub open spec fn two_children(children: Seq<Option<MerkleHash>>) -> bool {
    exists|i: int, j: int|
        0 <= i < j < children.len() && (#[trigger] children[i]).is_some() && (
        #[trigger] children[j]).is_some()
}

pub open spec fn has_child(children: Seq<Option<MerkleHash>>) -> bool {
    exists|i: int| 0 <= i < children.len() && (#[trigger] children[i]).is_some()
}

impl NodeData {
    pub open spec fn kind(self) -> NodeKind {
        if !has_child(self.children) {
            NodeKind::Leaf
        } else if self.path.len() == 0 {
            NodeKind::Branch
        } else {
            NodeKind::Extension
        }
    }

    /// The shape that the trie keeps: a node has a value or at least two
    /// children. A node without value and children would hold nothing, and
    /// one without value and with a single child is merged with that child.
    pub open spec fn shaped(self) -> bool {
        self.value.is_some() || two_children(self.children)
    }

    /// Sixteen child entries, a path of nibbles, and bytes that fit the
    /// length fields of the format.
    pub open spec fn wf(self) -> bool {
        &&& self.children.len() == FAN_OUT
        &&& is_nibble_path(self.path)
        &&& body_bytes(self).len() <= u64::MAX
    }
}

pub open spec fn kind_code(kind: NodeKind) -> u8 {
    match kind {
        NodeKind::Leaf => 0,
        NodeKind::Branch => 1,
        NodeKind::Extension => 2,
    }
}

/// Byte `j` of the child entries: entry `j / 9` is a flag and the eight bytes
/// of the child's hash, low byte first; an absent child is nine zero bytes.
pub open spec fn child_byte(children: Seq<Option<MerkleHash>>, j: int) -> u8 {
    match children[j / 9] {
        Some(h) => if j % 9 == 0 {
            1
        } else {
            spec_u64_to_le_bytes(h)[j % 9 - 1]
        },
        None => 0,
    }
}

pub open spec fn child_block(children: Seq<Option<MerkleHash>>) -> Seq<u8> {
    Seq::new(CHILD_BLOCK_LEN as nat, |j: int| child_byte(children, j))
}

pub open spec fn value_block(value: Option<Seq<u8>>) -> Seq<u8> {
    match value {
        None => seq![0u8],
        Some(v) => seq![1u8] + spec_u64_to_le_bytes(v.len() as u64) + v,
    }
}

pub open spec fn head_bytes(d: NodeData) -> Seq<u8> {
    seq![kind_code(d.kind())] + spec_u64_to_le_bytes(d.path.len() as u64) + d.path
}

pub open spec fn children_bytes(d: NodeData) -> Seq<u8> {
    if d.kind() == NodeKind::Leaf {
        Seq::empty()
    } else {
        child_block(d.children)
    }
}

/// Everything but the trailing size.
pub open spec fn body_bytes(d: NodeData) -> Seq<u8> {
    head_bytes(d) + children_bytes(d) + value_block(d.value)
}

/// The bytes of a node.
#[verifier::opaque]
pub open spec fn encode_spec(d: NodeData) -> Seq<u8> {
    body_bytes(d) + spec_u64_to_le_bytes(body_bytes(d).len() as u64)
}

pub open spec fn read_u64_spec(b: Seq<u8>, at: int) -> u64 {
    spec_u64_from_le_bytes(b.subrange(at, at + 8))
}

/// The child that the entry at `at` names.
pub open spec fn decode_child(b: Seq<u8>, at: int) -> Option<MerkleHash> {
    if b[at] == 1 {
        Some(read_u64_spec(b, at + 1))
    } else {
        None
    }
}

pub open spec fn decode_children(b: Seq<u8>, kind: u8, at: int) -> Seq<Option<MerkleHash>> {
    Seq::new(
        FAN_OUT as nat,
        |i: int|
            if kind == 0 {
                None
            } else {
                decode_child(b, at + 9 * i)
            },
    )
}

pub open spec fn child_flags_ok(b: Seq<u8>, kind: u8, at: int) -> bool {
    kind != 0 ==> forall|i: int| 0 <= i < FAN_OUT ==> #[trigger] b[at + 9 * i] <= 1
}

/// Where the value starts: behind the path and, unless the node is a leaf,
/// the child entries.
pub open spec fn value_start(kind: u8, path_len: int) -> int {
    if kind == 0 {
        9 + path_len
    } else {
        9 + path_len + CHILD_BLOCK_LEN
    }
}

/// Where the value ends, if flag and length are in order.
pub open spec fn value_end(b: Seq<u8>, at: int) -> Option<int> {
    if at >= b.len() {
        None
    } else if b[at] == 0 {
        Some(at + 1)
    } else if b[at] == 1 && at + 9 <= b.len() && at + 9 + read_u64_spec(b, at + 1) <= b.len() {
        Some(at + 9 + read_u64_spec(b, at + 1))
    } else {
        None
    }
}

pub open spec fn decode_value(b: Seq<u8>, at: int) -> Option<Seq<u8>> {
    if b[at] == 0 {
        None
    } else {
        Some(b.subrange(at + 9, at + 9 + read_u64_spec(b, at + 1)))
    }
}

/// The node that bytes hold, if they are the bytes of a node.
#[verifier::opaque]
pub open spec fn decode_spec(b: Seq<u8>) -> Option<NodeData> {
    if b.len() < 18 {
        None
    } else {
        let kind = b[0];
        let n = read_u64_spec(b, 1) as int;
        let at = value_start(kind, n);
        if kind > 2 || at > b.len() {
            None
        } else {
            let d = NodeData {
                path: b.subrange(9, 9 + n),
                value: decode_value(b, at),
                children: decode_children(b, kind, 9 + n),
            };
            match value_end(b, at) {
                None => None,
                Some(end) => if is_nibble_path(d.path) && child_flags_ok(b, kind, 9 + n) && end + 8
                    == b.len() && read_u64_spec(b, end) == end && kind_code(d.kind()) == kind {
                    Some(d)
                } else {
                    None
                },
            }
        }
    }
}

/// A node as it is kept in memory.
pub struct TrieNode {
    pub(crate) path: Vec<u8>,
    pub(crate) value: Option<Vec<u8>>,
    pub(crate) children: Vec<Option<MerkleHash>>,
    pub(crate) size: u64,
}

pub open spec fn option_bytes_view(value: Option<Vec<u8>>) -> Option<Seq<u8>> {
    match value {
        Some(v) => Some(v@),
        None => None,
    }
}

impl View for TrieNode {
    type V = NodeData;

    closed spec fn view(&self) -> NodeData {
        NodeData {
            path: self.path@,
            value: option_bytes_view(self.value),
            children: self.children@,
        }
    }
}

impl TrieNode {
    /// The node's content is well formed, and its size is that of its bytes.
    pub closed spec fn wf(&self) -> bool {
        &&& self@.wf()
        &&& self.size == encode_spec(self@).len()
    }

    /// The bytes that the node takes when persisted.
    pub closed spec fn spec_size(&self) -> u64 {
        self.size
    }

    #[verifier::when_used_as_spec(spec_size)]
    pub fn size(&self) -> (s: u64)
        ensures
            s == self.spec_size(),
    {
        self.size
    }

    pub proof fn lemma_size(&self)
        requires
            self.wf(),
        ensures
            self.size() == encode_spec(self@).len(),
            self@.wf(),
    {
    }

    pub fn path(&self) -> (p: &Vec<u8>)
        ensures
            p@ == self@.path,
    {
        &self.path
    }

    pub fn value(&self) -> (v: &Option<Vec<u8>>)
        ensures
            option_bytes_view(*v) == self@.value,
    {
        &self.value
    }

    /// The hash of child `i`, if the node has that child.
    pub fn child(&self, i: usize) -> (c: Option<MerkleHash>)
        requires
            self.wf(),
            i < FAN_OUT,
        ensures
            c == self@.children[i as int],
    {
        self.children[i]
    }

    /// Whether the node has the shape that the trie keeps.
    pub fn is_shaped(&self) -> (b: bool)
        requires
            self.wf(),
        ensures
            b == self@.shaped(),
    {
        if self.value.is_some() {
            return true;
        }
        let mut count: usize = 0;
        let mut first: usize = 0;
        let mut i: usize = 0;
        while i < FAN_OUT
            invariant
                i <= FAN_OUT,
                self.children@.len() == FAN_OUT,
                self.value.is_none(),
                count <= 1,
                count == 0 ==> forall|j: int| 0 <= j < i ==> (#[trigger] self.children@[j]).is_none(),
                count == 1 ==> first < i && self.children@[first as int].is_some() && forall|j: int|
                    0 <= j < i && j != first ==> (#[trigger] self.children@[j]).is_none(),
            decreases FAN_OUT - i,
        {
            if self.children[i].is_some() {
                if count == 1 {
                    assert(self.children@[first as int].is_some() && self.children@[i as int].is_some());
                    return true;
                }
                first = i;
                count = 1;
            }
            i = i + 1;
        }
        proof {
            if two_children(self.children@) {
                let (a, b) = choose|a: int, b: int|
                    0 <= a < b < self.children@.len() && (#[trigger] self.children@[a]).is_some()
                        && (#[trigger] self.children@[b]).is_some();
                assert(false);
            }
        }
        false
    }

    pub fn kind(&self) -> (k: NodeKind)
        requires
            self.wf(),
        ensures
            k == self@.kind(),
    {
        if !any_child(&self.children) {
            NodeKind::Leaf
        } else if self.path.len() == 0 {
            NodeKind::Branch
        } else {
            NodeKind::Extension
        }
    }
}

pub(crate) fn any_child(children: &Vec<Option<MerkleHash>>) -> (b: bool)
    ensures
        b == has_child(children@),
{
    let mut i: usize = 0;
    while i < children.len()
        invariant
            i <= children@.len(),
            forall|j: int| 0 <= j < i ==> (#[trigger] children@[j]).is_none(),
        decreases children@.len() - i,
    {
        if children[i].is_some() {
            return true;
        }
        i = i + 1;
    }
    false
}

/// The FNV-1a offset basis.
pub const HASH_BASIS: u64 = 0xcbf2_9ce4_8422_2325;

/// The FNV-1a prime.
pub const HASH_PRIME: u64 = 0x0000_0100_0000_01b3;

pub open spec fn hash_step(h: u64, b: u8) -> u64 {
    (((h ^ (b as u64)) as nat * HASH_PRIME as nat) % 0x1_0000_0000_0000_0000) as u64
}

/// The content hash of bytes: 64-bit FNV-1a.
pub open spec fn content_hash(bytes: Seq<u8>) -> MerkleHash
    decreases bytes.len(),
{
    if bytes.len() == 0 {
        HASH_BASIS
    } else {
        hash_step(content_hash(bytes.drop_last()), bytes.last())
    }
}

/// Computes the content hash of bytes.
pub fn hash_bytes(bytes: &Vec<u8>) -> (h: MerkleHash)
    ensures
        h == content_hash(bytes@),
{
    let mut h: u64 = HASH_BASIS;
    let mut i: usize = 0;
    assert(bytes@.subrange(0, 0) =~= Seq::<u8>::empty());
    while i < bytes.len()
        invariant
            i <= bytes@.len(),
            h == content_hash(bytes@.subrange(0, i as int)),
        decreases bytes@.len() - i,
    {
        proof {
            let longer = bytes@.subrange(0, i + 1);
            assert(longer.drop_last() =~= bytes@.subrange(0, i as int));
            assert(longer.last() == bytes@[i as int]);
        }
        h = (h ^ (bytes[i] as u64)).wrapping_mul(HASH_PRIME);
        i = i + 1;
    }
    assert(bytes@.subrange(0, i as int) =~= bytes@);
    h
}

// ---------------------------------------------------------------------------
// Writing and reading bytes
// ---------------------------------------------------------------------------

pub(crate) fn push_all(out: &mut Vec<u8>, src: &Vec<u8>)
    ensures
        final(out)@ == old(out)@ + src@,
{
    let mut i: usize = 0;
    assert(out@ =~= old(out)@ + src@.subrange(0, 0));
    while i < src.len()
        invariant
            i <= src@.len(),
            out@ == old(out)@ + src@.subrange(0, i as int),
        decreases src@.len() - i,
    {
        out.push(src[i]);
        assert(out@ =~= old(out)@ + src@.subrange(0, i + 1));
        i = i + 1;
    }
    assert(src@.subrange(0, i as int) =~= src@);
}

pub(crate) fn copy_range(src: &Vec<u8>, from: usize, to: usize) -> (out: Vec<u8>)
    requires
        from <= to <= src@.len(),
    ensures
        out@ == src@.subrange(from as int, to as int),
{
    let mut out: Vec<u8> = Vec::new();
    let mut i: usize = from;
    assert(out@ =~= src@.subrange(from as int, from as int));
    while i < to
        invariant
            from <= i <= to <= src@.len(),
            out@ == src@.subrange(from as int, i as int),
        decreases to - i,
    {
        out.push(src[i]);
        assert(out@ =~= src@.subrange(from as int, i + 1));
        i = i + 1;
    }
    out
}

pub(crate) fn bytes_equal(a: &Vec<u8>, b: &Vec<u8>) -> (eq: bool)
    ensures
        eq == (a@ == b@),
{
    if a.len() != b.len() {
        return false;
    }
    let mut i: usize = 0;
    while i < a.len()
        invariant
            i <= a@.len(),
            a@.len() == b@.len(),
            a@.subrange(0, i as int) == b@.subrange(0, i as int),
        decreases a@.len() - i,
    {
        if a[i] != b[i] {
            return false;
        }
        assert(a@.subrange(0, i + 1) =~= a@.subrange(0, i as int).push(a@[i as int]));
        assert(b@.subrange(0, i + 1) =~= b@.subrange(0, i as int).push(b@[i as int]));
        i = i + 1;
    }
    assert(a@.subrange(0, i as int) =~= a@);
    assert(b@.subrange(0, i as int) =~= b@);
    true
}

pub(crate) fn push_u64(out: &mut Vec<u8>, x: u64)
    ensures
        final(out)@ == old(out)@ + spec_u64_to_le_bytes(x),
{
    let bytes = u64_to_le_bytes(x);
    push_all(out, &bytes);
}

pub(crate) fn read_u64(b: &Vec<u8>, at: usize) -> (x: u64)
    requires
        at + 8 <= b.len(),
    ensures
        x == read_u64_spec(b@, at as int),
{
    u64_from_le_bytes(slice_subrange(b.as_slice(), at, at + 8))
}

fn push_children(out: &mut Vec<u8>, children: &Vec<Option<MerkleHash>>)
    requires
        children@.len() == FAN_OUT,
    ensures
        final(out)@ == old(out)@ + child_block(children@),
{
    let mut i: usize = 0;
    assert(out@ =~= old(out)@ + child_block(children@).subrange(0, 0));
    while i < 16
        invariant
            i <= 16,
            children@.len() == FAN_OUT,
            out@ == old(out)@ + child_block(children@).subrange(0, 9 * i),
        decreases 16 - i,
    {
        let ghost before = out@;
        proof {
            lemma_auto_spec_u64_to_from_le_bytes();
        }
        match children[i] {
            Some(h) => {
                out.push(1);
                push_u64(out, h);
            },
            None => {
                out.push(0);
                push_u64(out, 0);
                assert(spec_u64_to_le_bytes(0) =~= seq![0u8, 0u8, 0u8, 0u8, 0u8, 0u8, 0u8, 0u8])
                    by {
                    vstd::bytes::spec_u64_to_le_bytes_to_open(0);
                    assert(0u64 & 0xff == 0 && (0u64 >> 8) & 0xff == 0 && (0u64 >> 16) & 0xff == 0
                        && (0u64 >> 24) & 0xff == 0 && (0u64 >> 32) & 0xff == 0 && (0u64 >> 40)
                        & 0xff == 0 && (0u64 >> 48) & 0xff == 0 && (0u64 >> 56) & 0xff == 0)
                        by (bit_vector);
                }
            },
        }
        assert(out@ =~= old(out)@ + child_block(children@).subrange(0, 9 * (i + 1))) by {
            let block = child_block(children@);
            let base = before.len() as int;
            assert(out@.len() == base + 9);
            assert(out@[base + 0] == block[9 * i + 0]);
            assert(out@[base + 1] == block[9 * i + 1]);
            assert(out@[base + 2] == block[9 * i + 2]);
            assert(out@[base + 3] == block[9 * i + 3]);
            assert(out@[base + 4] == block[9 * i + 4]);
            assert(out@[base + 5] == block[9 * i + 5]);
            assert(out@[base + 6] == block[9 * i + 6]);
            assert(out@[base + 7] == block[9 * i + 7]);
            assert(out@[base + 8] == block[9 * i + 8]);
        }
        i = i + 1;
    }
    assert(child_block(children@).subrange(0, 144) =~= child_block(children@));
}

/// Writes the bytes of a node with the given content.
pub(crate) fn encode_parts(
    path: &Vec<u8>,
    value: &Option<Vec<u8>>,
    children: &Vec<Option<MerkleHash>>,
) -> (out: Vec<u8>)
    requires
        children@.len() == FAN_OUT,
    ensures
        out@ == encode_spec(
            NodeData { path: path@, value: option_bytes_view(*value), children: children@ },
        ),
{
    let ghost d = NodeData { path: path@, value: option_bytes_view(*value), children: children@ };
    proof {
        reveal(encode_spec);
    }
    let mut out: Vec<u8> = Vec::new();
    let leaf = !any_child(children);
    let code: u8 = if leaf {
        0
    } else if path.len() == 0 {
        1
    } else {
        2
    };
    out.push(code);
    push_u64(&mut out, path.len() as u64);
    push_all(&mut out, path);
    assert(out@ =~= head_bytes(d));
    if !leaf {
        push_children(&mut out, children);
    }
    assert(out@ =~= head_bytes(d) + children_bytes(d));
    match value {
        None => {
            out.push(0);
        },
        Some(v) => {
            out.push(1);
            push_u64(&mut out, v.len() as u64);
            push_all(&mut out, v);
        },
    }
    assert(out@ =~= body_bytes(d));
    let body_len = out.len();
    push_u64(&mut out, body_len as u64);
    out
}

/// The length of a node's bytes, part by part.
pub proof fn lemma_encoded_len(d: NodeData)
    ensures
        encode_spec(d).len() == value_start(kind_code(d.kind()), d.path.len() as int) + (match d.value {
            None => 1,
            Some(v) => 9 + v.len(),
        }) + 8,
        body_bytes(d).len() + 8 == encode_spec(d).len(),
{
    reveal(encode_spec);
    lemma_auto_spec_u64_to_from_le_bytes();
}

fn all_nibbles(path: &Vec<u8>) -> (ok: bool)
    ensures
        ok == is_nibble_path(path@),
{
    let mut i: usize = 0;
    while i < path.len()
        invariant
            i <= path@.len(),
            forall|j: int| 0 <= j < i ==> #[trigger] path@[j] < 16,
        decreases path@.len() - i,
    {
        if path[i] >= 16 {
            return false;
        }
        i = i + 1;
    }
    true
}

/// Reads the sixteen child entries that start at `at`; `None` where a flag is
/// neither zero nor one.
fn read_children(b: &Vec<u8>, at: usize) -> (r: Option<Vec<Option<MerkleHash>>>)
    requires
        at + CHILD_BLOCK_LEN <= b.len(),
    ensures
        match r {
            Some(children) => child_flags_ok(b@, 1, at as int) && children@ == decode_children(
                b@,
                1,
                at as int,
            ),
            None => !child_flags_ok(b@, 1, at as int),
        },
{
    let mut children: Vec<Option<MerkleHash>> = Vec::new();
    let mut i: usize = 0;
    while i < 16
        invariant
            i <= 16,
            at + CHILD_BLOCK_LEN <= b.len(),
            children@.len() == i,
            forall|j: int| 0 <= j < i ==> #[trigger] b@[at + 9 * j] <= 1,
            forall|j: int| 0 <= j < i ==> #[trigger] children@[j] == decode_child(b@, at + 9 * j),
        decreases 16 - i,
    {
        let flag = b[at + 9 * i];
        if flag > 1 {
            return None;
        }
        if flag == 1 {
            children.push(Some(read_u64(b, at + 9 * i + 1)));
        } else {
            children.push(None);
        }
        i = i + 1;
    }
    assert(children@ =~= decode_children(b@, 1, at as int));
    Some(children)
}

fn no_children() -> (children: Vec<Option<MerkleHash>>)
    ensures
        children@.len() == FAN_OUT,
        forall|i: int| 0 <= i < FAN_OUT ==> (#[trigger] children@[i]).is_none(),
        !has_child(children@),
{
    let mut children: Vec<Option<MerkleHash>> = Vec::new();
    let mut i: usize = 0;
    while i < 16
        invariant
            i <= 16,
            children@.len() == i,
            forall|j: int| 0 <= j < i ==> (#[trigger] children@[j]).is_none(),
        decreases 16 - i,
    {
        children.push(None);
        i = i + 1;
    }
    children
}

impl TrieNode {
    /// Builds a node and its bytes.
    pub fn new(path: Vec<u8>, value: Option<Vec<u8>>, children: Vec<Option<MerkleHash>>) -> (r: (
        TrieNode,
        Vec<u8>,
    ))
        requires
            children@.len() == FAN_OUT,
            is_nibble_path(path@),
        ensures
            r.0.wf(),
            r.0@ == (NodeData {
                path: path@,
                value: option_bytes_view(value),
                children: children@,
            }),
            r.1@ == encode_spec(r.0@),
    {
        let bytes = encode_parts(&path, &value, &children);
        let size = bytes.len() as u64;
        let node = TrieNode { path, value, children, size };
        proof {
            lemma_encoded_len(node@);
        }
        (node, bytes)
    }

    /// The bytes of the node.
    pub fn encode(&self) -> (bytes: Vec<u8>)
        requires
            self.wf(),
        ensures
            bytes@ == encode_spec(self@),
    {
        encode_parts(&self.path, &self.value, &self.children)
    }

    /// Reads a node from its bytes; `None` where they are not the bytes of a node.
    pub fn decode(b: &Vec<u8>) -> (r: Option<TrieNode>)
        ensures
            match r {
                Some(node) => decode_spec(b@) == Some(node@) && node.wf() && node.size() == b@.len(),
                None => decode_spec(b@).is_none(),
            },
    {
        proof {
            reveal(decode_spec);
        }
        let len = b.len();
        if len < 18 {
            return None;
        }
        let kind = b[0];
        let n64 = read_u64(b, 1);
        if kind > 2 {
            return None;
        }
        // the path, the child entries of a node that is no leaf, and at least
        // a value flag and the size have to fit
        let fixed: usize = if kind == 0 {
            9
        } else {
            9 + CHILD_BLOCK_LEN
        };
        if len < fixed || n64 > (len - fixed) as u64 {
            return None;
        }
        let n = n64 as usize;
        let at: usize = fixed + n;
        assert(at == value_start(kind, n as int));
        if at >= len {
            return None;
        }
        let path = copy_range(b, 9, 9 + n);
        let flag = b[at];
        let end: usize;
        let value: Option<Vec<u8>>;
        if flag == 0 {
            end = at + 1;
            value = None;
        } else if flag == 1 {
            if len - at < 9 {
                return None;
            }
            let m64 = read_u64(b, at + 1);
            if m64 > (len - at - 9) as u64 {
                return None;
            }
            end = at + 9 + m64 as usize;
            value = Some(copy_range(b, at + 9, end));
        } else {
            return None;
        }
        assert(value_end(b@, at as int) == Some(end as int));
        assert(option_bytes_view(value) == decode_value(b@, at as int));
        if !all_nibbles(&path) {
            return None;
        }
        let children = if kind == 0 {
            let c = no_children();
            assert(c@ =~= decode_children(b@, kind, 9 + n));
            c
        } else {
            match read_children(b, 9 + n) {
                None => {
                    return None;
                },
                Some(c) => {
                    assert(c@ =~= decode_children(b@, kind, 9 + n));
                    c
                },
            }
        };
        if len - end != 8 {
            return None;
        }
        if read_u64(b, end) != end as u64 {
            return None;
        }
        let code: u8 = if !any_child(&children) {
            0
        } else if path.len() == 0 {
            1
        } else {
            2
        };
        if code != kind {
            return None;
        }
        let node = TrieNode { path, value, children, size: len as u64 };
        proof {
            lemma_encoded_len(node@);
        }
        Some(node)
    }
}

/// Reading the bytes of a node gives the node back.
pub proof fn lemma_decode_encode(d: NodeData)
    requires
        d.wf(),
    ensures
        decode_spec(encode_spec(d)) == Some(d),
{
    reveal(encode_spec);
    reveal(decode_spec);
    lemma_auto_spec_u64_to_from_le_bytes();
    lemma_encoded_len(d);
    let b = encode_spec(d);
    let kind = kind_code(d.kind());
    let n = d.path.len() as int;
    let head = head_bytes(d);
    let body = body_bytes(d);
    assert(head.len() == 9 + n);
    assert(b[0] == kind);
    assert(b.subrange(1, 9) =~= spec_u64_to_le_bytes(d.path.len() as u64));
    assert(read_u64_spec(b, 1) == n);
    assert(b.subrange(9, 9 + n) =~= d.path);
    let at = value_start(kind, n);
    assert(b.subrange(at, at + value_block(d.value).len()) =~= value_block(d.value));
    match d.value {
        None => {
            assert(b[at] == 0);
        },
        Some(v) => {
            assert(b[at] == 1);
            assert(b.subrange(at + 1, at + 9) =~= spec_u64_to_le_bytes(v.len() as u64));
            assert(read_u64_spec(b, at + 1) == v.len());
            assert(b.subrange(at + 9, at + 9 + v.len()) =~= v);
        },
    }
    let end = body.len() as int;
    assert(value_end(b, at) == Some(end));
    assert(decode_value(b, at) == d.value);
    assert(b.subrange(end, end + 8) =~= spec_u64_to_le_bytes(body.len() as u64));
    assert(read_u64_spec(b, end) == end);
    if kind != 0 {
        assert forall|i: int| 0 <= i < FAN_OUT implies #[trigger] b[9 + n + 9 * i] <= 1
            && decode_child(b, 9 + n + 9 * i) == d.children[i] by {
            let block = child_block(d.children);
            assert(b[9 + n + 9 * i] == block[9 * i]);
            assert((9 * i) / 9 == i && (9 * i) % 9 == 0);
            match d.children[i] {
                Some(h) => {
                    assert(b.subrange(9 + n + 9 * i + 1, 9 + n + 9 * i + 9)
                        =~= spec_u64_to_le_bytes(h)) by {
                        assert forall|k: int| 0 <= k < 8 implies b[9 + n + 9 * i + 1 + k]
                            == spec_u64_to_le_bytes(h)[k] by {
                            assert(b[9 + n + 9 * i + 1 + k] == block[9 * i + 1 + k]);
                            assert((9 * i + 1 + k) / 9 == i);
                            assert((9 * i + 1 + k) % 9 == k + 1);
                        }
                    }
                },
                None => {},
            }
        }
    } else {
        assert forall|i: int| 0 <= i < FAN_OUT implies (#[trigger] d.children[i]).is_none() by {}
    }
    assert(decode_children(b, kind, 9 + n) =~= d.children);
}

} // verus!
