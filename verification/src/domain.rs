//! The records that the service stores: sync documents and their nodes,
//! collections, links, tags, workspaces and access tokens.
use vstd::prelude::*;
use crate::text::strs_v;

verus! {

/// One `.xbel` file of a user.
#[derive(Debug, Clone)]
pub struct SyncDocument {
    pub id: i64,
    pub uuid: String,
    pub user_id: i64,
    pub path: String,
    pub title: String,
    pub revision: i64,
    pub next_external_id: i64,
    pub updated_unix: i64,
    pub created_by: i64,
    pub created_at: String,
    pub updated_at: String,
}

/// One folder, bookmark or separator of a sync document.
#[derive(Debug, Clone)]
pub struct BookmarkNode {
    pub id: i64,
    pub uuid: String,
    pub document_id: i64,
    pub user_id: i64,
    pub parent_id: Option<i64>,
    pub node_type: String,
    pub external_id: String,
    pub title: String,
    pub url: Option<String>,
    pub description: String,
    pub color: Option<String>,
    pub position: i64,
    pub created_by: i64,
    pub deleted_at: Option<String>,
    pub created_at: String,
    pub updated_at: String,
}

/// A node with its tags and its children in order.
#[derive(Debug)]
pub struct BookmarkTreeNode {
    pub node: BookmarkNode,
    pub tags: Vec<String>,
    pub children: Vec<BookmarkTreeNode>,
}

/// The value of a `BookmarkTreeNode`: the node, its tag names and the
/// values of its children.
pub struct TreeV {
    pub node: BookmarkNode,
    pub tags: Seq<Seq<char>>,
    pub children: Seq<TreeV>,
}

impl BookmarkTreeNode {
    pub open spec fn tv(&self) -> TreeV
        decreases self,
    {
        TreeV {
            node: self.node,
            tags: strs_v(self.tags@),
            children: Seq::new(
                self.children@.len(),
                |i: int|
                    {
                        if 0 <= i < self.children@.len() {
                            proof {
                                vstd::std_specs::vec::axiom_vec_index_decreases(self.children, i);
                            }
                            self.children@[i].tv()
                        } else {
                            arbitrary()
                        }
                    },
            ),
        }
    }
}

/// The values of a sequence of tree nodes.
pub open spec fn trees_v(v: Seq<BookmarkTreeNode>) -> Seq<TreeV> {
    Seq::new(v.len(), |i: int| v[i].tv())
}

/// A collection of links.
#[derive(Debug, Clone)]
pub struct Collection {
    pub id: i64,
    pub uuid: String,
    pub tenant_id: i64,
    pub parent_id: Option<i64>,
    pub name: String,
    pub description: String,
    pub color: Option<String>,
    pub position: i64,
    pub created_by: i64,
    pub deleted_at: Option<String>,
    pub created_at: String,
    pub updated_at: String,
}

/// A collection with its sub-collections.
#[derive(Debug)]
pub struct CollectionNode {
    pub id: i64,
    pub name: String,
    pub parent_id: Option<i64>,
    pub description: String,
    pub color: Option<String>,
    pub children: Vec<CollectionNode>,
}

/// A saved link.
#[derive(Debug, Clone)]
pub struct Link {
    pub id: i64,
    pub uuid: String,
    pub tenant_id: i64,
    pub collection_id: i64,
    pub url: String,
    pub name: String,
    pub description: String,
    pub position: i64,
    pub created_by: i64,
    pub deleted_at: Option<String>,
    pub created_at: String,
    pub updated_at: String,
}

/// A link with the names of its tags.
#[derive(Debug, Clone)]
pub struct LinkWithTags {
    pub link: Link,
    pub tags: Vec<String>,
}

/// A tag of a user.
#[derive(Debug, Clone)]
pub struct Tag {
    pub id: i64,
    pub uuid: String,
    pub user_id: i64,
    pub name: String,
    pub normalized_name: String,
    pub created_at: String,
}

/// A workspace.
#[derive(Debug, Clone)]
pub struct Tenant {
    pub id: i64,
    pub uuid: String,
    pub name: String,
    pub slug: String,
    pub created_by: i64,
    pub created_at: String,
    pub updated_at: String,
}

/// The membership of a user in a workspace.
#[derive(Debug, Clone)]
pub struct TenantMember {
    pub tenant_id: i64,
    pub user_id: i64,
    pub role: String,
    pub created_at: String,
    pub updated_at: String,
}

/// An access token, without its secret.
#[derive(Debug, Clone)]
pub struct AccessToken {
    pub id: i64,
    pub uuid: String,
    pub tenant_id: i64,
    pub user_id: i64,
    pub name: String,
    pub token_prefix: String,
    pub scopes: String,
    pub expires_at: Option<String>,
    pub last_used_at: Option<String>,
    pub revoked_at: Option<String>,
    pub created_at: String,
}

impl AccessToken {
    /// Whether the token has been revoked.
    pub fn is_revoked(&self) -> (b: bool)
        ensures
            b == self.revoked_at.is_some(),
    {
        self.revoked_at.is_some()
    }
}

/// A newly created token together with its secret, which is shown only once.
#[derive(Debug, Clone)]
pub struct AccessTokenCreated {
    pub token: AccessToken,
    pub plaintext: String,
}

} // verus!
