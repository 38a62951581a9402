//! An embedded, persistent, keyed tree store. Each node carries two
//! counters and up to a fixed number of children, each under a 16-bit key.
//! `tree_map` keeps one tree in two files of fixed-size records;
//! `multi_file_tree_map` spreads the top node's children over several such
//! trees. The stores work on the byte images of their files: reading and
//! writing the files themselves is left to the caller.
use vstd::prelude::*;

pub mod layout;
pub mod multi_file_tree_map;
pub mod tree_map;
pub mod utils;

verus! {

/// Identifier of a node: its record's position in the node file divided by the record size.
pub type NodeId = usize;

/// A node record as read from the node file.
#[derive(Clone, Debug, PartialEq, Eq, Structural)]
pub struct NodeData {
    pub node_id: NodeId,
    pub node_pos: u64,
    pub parent: Option<NodeId>,
    pub hits: u64,
    pub score: u64,
    pub first_child_pos: u64,
    pub n_children: u32,
    pub max_children: u32,
}

/// How a store treats files that already exist.
#[derive(Clone, Copy, Debug, PartialEq, Eq, Structural)]
pub enum OpenMode {
    TruncateCreate,
    OpenCreate,
    MustExist,
}

/// The errors a store reports.
#[derive(Clone, Debug)]
pub enum TreeFileError {
    NonExistingFiles,
    NonExistingNode,
    LogicError { msg: String },
    FileIOError { msg: String },
}

/// The children of a node, handed out one at a time.
pub struct Iter {
    key_vals: Vec<(u16, NodeId)>,
}

impl Iter {
    pub closed spec fn remaining(&self) -> Seq<(u16, NodeId)> {
        self.key_vals@
    }

    pub fn new(key_vals: Vec<(u16, NodeId)>) -> (r: Iter)
        ensures
            r.remaining() == key_vals@,
    {
        Iter { key_vals }
    }

    /// The children not handed out yet.
    pub fn into_vec(self) -> (r: Vec<(u16, NodeId)>)
        ensures
            r@ == self.remaining(),
    {
        self.key_vals
    }

    /// The next child; the last one in `remaining` comes first.
    pub fn next(&mut self) -> (r: Option<(u16, NodeId)>)
        ensures
            old(self).remaining().len() == 0 ==> r is None && final(self).remaining() == old(
                self,
            ).remaining(),
            old(self).remaining().len() > 0 ==> r == Some(old(self).remaining().last())
                && final(self).remaining() == old(self).remaining().drop_last(),
    {
        self.key_vals.pop()
    }
}

} // verus!
