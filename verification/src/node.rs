//! Trie nodes as the storage layer sees them: a kind, the pointers to the
//! children, and a body that storage carries without reading.
use vstd::prelude::*;
use crate::hash::TrieHash;

verus! {

/// The bytes that tag a node, or a pointer to one, with the node's kind.
pub struct TrieNodeID;

#[allow(non_upper_case_globals)]
impl TrieNodeID {
    /// The tag of a pointer slot that is not in use.
    pub const Empty: u8 = 0;

    pub const Leaf: u8 = 1;

    pub const Node4: u8 = 2;

    pub const Node16: u8 = 3;

    pub const Node48: u8 = 4;

    pub const Node256: u8 = 5;
}

/// Whether a tag marks a pointer into the trie of an earlier block: its top bit is set.
pub open spec fn spec_is_backptr(id: u8) -> bool {
    id >= 0x80
}

/// The tag with the back-pointer mark taken off.
pub open spec fn spec_clear_backptr(id: u8) -> u8 {
    if id >= 0x80 {
        (id - 0x80) as u8
    } else {
        id
    }
}

/// The tag with the back-pointer mark put on.
pub open spec fn spec_set_backptr(id: u8) -> u8 {
    if id >= 0x80 {
        id
    } else {
        (id + 0x80) as u8
    }
}

/// Whether a tag marks a pointer into the trie of an earlier block.
pub fn is_backptr(id: u8) -> (back: bool)
    ensures
        back == spec_is_backptr(id),
{
    assert((id & 0x80 != 0) == (id >= 0x80)) by (bit_vector);
    id & 0x80 != 0
}

/// The tag with the back-pointer mark taken off.
pub fn clear_backptr(id: u8) -> (cleared: u8)
    ensures
        cleared == spec_clear_backptr(id),
{
    assert(id & 0x7f == (if id >= 0x80 {
        id - 0x80
    } else {
        id as int
    })) by (bit_vector);
    id & 0x7f
}

/// The tag with the back-pointer mark put on.
pub fn set_backptr(id: u8) -> (marked: u8)
    ensures
        marked == spec_set_backptr(id),
{
    assert(id | 0x80 == (if id >= 0x80 {
        id as int
    } else {
        id + 0x80
    })) by (bit_vector);
    id | 0x80
}

/// Where a node is kept: the tag of its kind, the path character that leads to
/// it, its place in the trie that holds it, and how many blocks back that trie is.
#[derive(Clone, Copy, Debug, PartialEq, Eq, Structural)]
pub struct TriePtr {
    pub id: u8,
    pub chr: u8,
    pub ptr: u32,
    pub back_block: u32,
}

impl TriePtr {
    /// Whether the pointer leads to a node in the same trie as the node that holds it.
    pub open spec fn is_local(self) -> bool {
        self.id != TrieNodeID::Empty && !spec_is_backptr(self.id)
    }

    /// A pointer to place `ptr` of the trie at hand.
    pub fn new(id: u8, chr: u8, ptr: u32) -> (p: TriePtr)
        ensures
            p == (TriePtr { id, chr, ptr, back_block: 0 }),
    {
        TriePtr { id, chr, ptr, back_block: 0 }
    }

    /// Whether the pointer leads to a node in the same trie as the node that holds it.
    pub fn local(&self) -> (local: bool)
        ensures
            local == self.is_local(),
    {
        self.id != TrieNodeID::Empty && !is_backptr(self.id)
    }
}

/// An inner node: its pointer slots, the rest of its contents, and the number
/// of bytes that it takes on disk together with its hash.
#[derive(Debug, PartialEq, Eq)]
pub struct TrieBranch {
    pub ptrs: Vec<TriePtr>,
    pub body: Vec<u8>,
    pub byte_len: usize,
}

/// A leaf: its contents, and the number of bytes that it takes on disk together with its hash.
#[derive(Debug, PartialEq, Eq)]
pub struct TrieLeaf {
    pub body: Vec<u8>,
    pub byte_len: usize,
}

/// A trie node of any kind.
#[derive(Debug, PartialEq, Eq)]
pub enum TrieNodeType {
    Node4(TrieBranch),
    Node16(TrieBranch),
    Node48(TrieBranch),
    Node256(TrieBranch),
    Leaf(TrieLeaf),
}

/// What a trie node holds. A leaf has no pointer slots.
#[verifier::ext_equal]
pub struct NodeView {
    pub id: u8,
    pub ptrs: Seq<TriePtr>,
    pub body: Seq<u8>,
    pub byte_len: nat,
}

/// A node and its hash, as a trie keeps them.
#[verifier::ext_equal]
pub struct NodeRecord {
    pub node: NodeView,
    pub hash: TrieHash,
}

impl NodeView {
    pub open spec fn is_leaf(self) -> bool {
        self.id == TrieNodeID::Leaf
    }
}

impl TrieBranch {
    /// What an inner node tagged `id` with these contents holds.
    pub open spec fn viewed(&self, id: u8) -> NodeView {
        NodeView { id, ptrs: self.ptrs@, body: self.body@, byte_len: self.byte_len as nat }
    }

    fn duplicate(&self) -> (copy: Self)
        ensures
            forall|id: u8| #[trigger] copy.viewed(id) == self.viewed(id),
    {
        let ptrs = self.ptrs.clone();
        let body = self.body.clone();
        assert(ptrs@ =~= self.ptrs@);
        assert(body@ =~= self.body@);
        TrieBranch { ptrs, body, byte_len: self.byte_len }
    }
}

impl View for TrieNodeType {
    type V = NodeView;

    open spec fn view(&self) -> NodeView {
        match *self {
            TrieNodeType::Node4(branch) => branch.viewed(TrieNodeID::Node4),
            TrieNodeType::Node16(branch) => branch.viewed(TrieNodeID::Node16),
            TrieNodeType::Node48(branch) => branch.viewed(TrieNodeID::Node48),
            TrieNodeType::Node256(branch) => branch.viewed(TrieNodeID::Node256),
            TrieNodeType::Leaf(leaf) => NodeView {
                id: TrieNodeID::Leaf,
                ptrs: Seq::empty(),
                body: leaf.body@,
                byte_len: leaf.byte_len as nat,
            },
        }
    }
}

impl Clone for TrieNodeType {
    fn clone(&self) -> (copy: Self)
        ensures
            copy@ == self@,
    {
        match self {
            TrieNodeType::Node4(branch) => TrieNodeType::Node4(branch.duplicate()),
            TrieNodeType::Node16(branch) => TrieNodeType::Node16(branch.duplicate()),
            TrieNodeType::Node48(branch) => TrieNodeType::Node48(branch.duplicate()),
            TrieNodeType::Node256(branch) => TrieNodeType::Node256(branch.duplicate()),
            TrieNodeType::Leaf(leaf) => {
                let body = leaf.body.clone();
                assert(body@ =~= leaf.body@);
                TrieNodeType::Leaf(TrieLeaf { body, byte_len: leaf.byte_len })
            },
        }
    }
}

impl TrieNodeType {
    /// The tag of the node's kind.
    pub fn id(&self) -> (id: u8)
        ensures
            id == self@.id,
    {
        match self {
            TrieNodeType::Node4(_) => TrieNodeID::Node4,
            TrieNodeType::Node16(_) => TrieNodeID::Node16,
            TrieNodeType::Node48(_) => TrieNodeID::Node48,
            TrieNodeType::Node256(_) => TrieNodeID::Node256,
            TrieNodeType::Leaf(_) => TrieNodeID::Leaf,
        }
    }

    pub fn is_leaf(&self) -> (leaf: bool)
        ensures
            leaf == self@.is_leaf(),
    {
        match self {
            TrieNodeType::Leaf(_) => true,
            _ => false,
        }
    }

    /// The pointer slots of an inner node.
    pub fn ptrs(&self) -> (ptrs: &Vec<TriePtr>)
        requires
            !self@.is_leaf(),
        ensures
            ptrs@ == self@.ptrs,
    {
        match self {
            TrieNodeType::Node4(branch) => &branch.ptrs,
            TrieNodeType::Node16(branch) => &branch.ptrs,
            TrieNodeType::Node48(branch) => &branch.ptrs,
            TrieNodeType::Node256(branch) => &branch.ptrs,
            TrieNodeType::Leaf(leaf) => vstd::pervasive::unreached(),
        }
    }

    /// Makes pointer slot `slot` of an inner node lead to place `ptr`.
    pub fn redirect(&mut self, slot: usize, ptr: u32)
        requires
            !old(self)@.is_leaf(),
            slot < old(self)@.ptrs.len(),
        ensures
            final(self)@ == (NodeView {
                ptrs: old(self)@.ptrs.update(
                    slot as int,
                    TriePtr { ptr, ..old(self)@.ptrs[slot as int] },
                ),
                ..old(self)@
            }),
    {
        let ptrs = match self {
            TrieNodeType::Node4(branch) => &mut branch.ptrs,
            TrieNodeType::Node16(branch) => &mut branch.ptrs,
            TrieNodeType::Node48(branch) => &mut branch.ptrs,
            TrieNodeType::Node256(branch) => &mut branch.ptrs,
            TrieNodeType::Leaf(leaf) => vstd::pervasive::unreached(),
        };
        let p: TriePtr = ptrs[slot];
        ptrs[slot] = TriePtr { ptr, ..p };
    }
}

/// The number of bytes that a node takes on disk together with its hash.
pub fn get_node_byte_len(node: &TrieNodeType) -> (len: usize)
    ensures
        len == node@.byte_len,
{
    match node {
        TrieNodeType::Node4(branch) => branch.byte_len,
        TrieNodeType::Node16(branch) => branch.byte_len,
        TrieNodeType::Node48(branch) => branch.byte_len,
        TrieNodeType::Node256(branch) => branch.byte_len,
        TrieNodeType::Leaf(leaf) => leaf.byte_len,
    }
}

/// A pointer leads to a node of the same trie exactly if its tag is that of a
/// kind of node, without the back-pointer mark.
pub proof fn law_local_tags(p: TriePtr)
    ensures
        p.is_local() <==> 0 < p.id < 0x80,
{
}

/// The tags of the kinds of nodes.
pub proof fn law_kinds_have_tags()
    ensures
        TrieNodeID::Empty == 0,
        TrieNodeID::Leaf == 1,
        TrieNodeID::Node4 == 2,
        TrieNodeID::Node16 == 3,
        TrieNodeID::Node48 == 4,
        TrieNodeID::Node256 == 5,
{
}

/// A tag below 0x80 has no back-pointer mark. Putting the mark on adds 0x80 to
/// it, once, and taking the mark off gives the tag back.
pub proof fn law_back_pointer_mark(id: u8)
    requires
        id < 0x80,
    ensures
        !spec_is_backptr(id),
        spec_set_backptr(id) == id + 0x80,
        spec_clear_backptr(id) == id,
        spec_is_backptr((id + 0x80) as u8),
        spec_set_backptr((id + 0x80) as u8) == id + 0x80,
        spec_clear_backptr((id + 0x80) as u8) == id,
{
}

/// What is known of an inner node is all that it holds.
pub proof fn law_inner_node_is_seen_whole(branch: TrieBranch)
    ensures
        TrieNodeType::Node4(branch)@.id == 2,
        TrieNodeType::Node16(branch)@.id == 3,
        TrieNodeType::Node48(branch)@.id == 4,
        TrieNodeType::Node256(branch)@.id == 5,
        forall|node: TrieNodeType|
            node == TrieNodeType::Node4(branch) || node == TrieNodeType::Node16(branch) || node
                == TrieNodeType::Node48(branch) || node == TrieNodeType::Node256(branch) ==> {
                &&& !(#[trigger] node@).is_leaf()
                &&& node@.ptrs == branch.ptrs@
                &&& node@.body == branch.body@
                &&& node@.byte_len == branch.byte_len
            },
{
}

/// What is known of a leaf is all that it holds, and it has no pointers.
pub proof fn law_leaf_is_seen_whole(leaf: TrieLeaf)
    ensures
        TrieNodeType::Leaf(leaf)@.id == 1,
        TrieNodeType::Leaf(leaf)@.is_leaf(),
        TrieNodeType::Leaf(leaf)@.ptrs.len() == 0,
        TrieNodeType::Leaf(leaf)@.body == leaf.body@,
        TrieNodeType::Leaf(leaf)@.byte_len == leaf.byte_len,
{
}

} // verus!
