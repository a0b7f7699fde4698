//! The XBEL document model: parsing a document into an ordered tree of
//! folders, bookmarks and separators.
use vstd::prelude::*;
use crate::error::{AppError, ErrorV, validation};

verus! {

/// Deepest folder nesting that an uploaded document may have.
pub const MAX_TREE_DEPTH: usize = 128;

/// Largest number of nodes that an uploaded document may hold.
pub const MAX_TREE_NODES: usize = 100000;

/// Longest bookmark URL, in bytes.
pub const MAX_URL_BYTES: usize = 8000;

/// The three kinds of node in an XBEL tree.
#[derive(Debug, Clone, Copy, PartialEq, Eq, Structural)]
pub enum NodeKind {
    Folder,
    Bookmark,
    Separator,
}

impl NodeKind {
    /// The name under which the node kind is stored and reported.
    pub fn as_str(&self) -> (s: &'static str)
        ensures
            s@ == self.name(),
    {
        match self {
            NodeKind::Folder => "folder",
            NodeKind::Bookmark => "bookmark",
            NodeKind::Separator => "separator",
        }
    }

    pub open spec fn name(self) -> Seq<char> {
        match self {
            NodeKind::Folder => "folder"@,
            NodeKind::Bookmark => "bookmark"@,
            NodeKind::Separator => "separator"@,
        }
    }
}

/// A node of a parsed XBEL tree.
#[derive(Debug)]
pub struct ParsedNode {
    pub external_id: Option<String>,
    pub node_type: NodeKind,
    pub title: String,
    pub url: Option<String>,
    pub description: String,
    pub children: Vec<ParsedNode>,
}

/// A parsed XBEL document: its title and its top-level nodes in order.
#[derive(Debug)]
pub struct ParsedDocument {
    pub title: String,
    pub nodes: Vec<ParsedNode>,
}

/// The mathematical value of a `ParsedNode`.
pub struct XNode {
    pub external_id: Option<Seq<char>>,
    pub kind: NodeKind,
    pub title: Seq<char>,
    pub url: Option<Seq<char>>,
    pub description: Seq<char>,
    pub children: Seq<XNode>,
}

/// The mathematical value of a `ParsedDocument`.
pub struct XDoc {
    pub title: Seq<char>,
    pub nodes: Seq<XNode>,
}

pub open spec fn opt_view(o: Option<String>) -> Option<Seq<char>> {
    match o {
        Some(s) => Some(s@),
        None => None,
    }
}

impl ParsedNode {
    pub open spec fn xv(&self) -> XNode
        decreases self,
    {
        XNode {
            external_id: opt_view(self.external_id),
            kind: self.node_type,
            title: self.title@,
            url: opt_view(self.url),
            description: self.description@,
            children: Seq::new(
                self.children@.len(),
                |i: int|
                    {
                        if 0 <= i < self.children@.len() {
                            proof {
                                vstd::std_specs::vec::axiom_vec_index_decreases(self.children, i);
                            }
                            self.children@[i].xv()
                        } else {
                            arbitrary()
                        }
                    },
            ),
        }
    }
}

/// The values of a sequence of nodes.
pub open spec fn nodes_v(v: Seq<ParsedNode>) -> Seq<XNode> {
    Seq::new(v.len(), |i: int| v[i].xv())
}

impl ParsedDocument {
    pub open spec fn xv(&self) -> XDoc {
        XDoc { title: self.title@, nodes: nodes_v(self.nodes@) }
    }
}

} // verus!
