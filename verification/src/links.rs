//! Saved links, their Linkwarden-shaped views, passkeys, the audit log and
//! the administration checks.
use vstd::prelude::*;
use crate::auth::{AuthUser, permit};
use crate::domain::{Collection, Link};
use crate::error::{AppError, AppResult, ErrorV, validation};
use crate::search::SearchLink;
use crate::text::{byte_len, trim, trimmed, utf8_len};

verus! {

/// A new link.
#[derive(Debug)]
pub struct CreateLinkInput {
    pub url: String,
    pub name: Option<String>,
    pub description: Option<String>,
    pub collection_id: i64,
    pub tags: Option<Vec<String>>,
}

/// Changes to a link; a field left out stays as it is.
#[derive(Debug)]
pub struct UpdateLinkInput {
    pub url: Option<String>,
    pub name: Option<String>,
    pub description: Option<String>,
    pub collection_id: Option<i64>,
    pub tags: Option<Vec<String>>,
}

/// Links to move into one collection.
#[derive(Debug)]
pub struct BatchMoveInput {
    pub link_ids: Vec<i64>,
    pub target_collection_id: i64,
}

/// Links to delete, to the trash or for good.
#[derive(Debug)]
pub struct BatchDeleteInput {
    pub link_ids: Vec<i64>,
    pub permanent: bool,
}

/// Links to tag.
#[derive(Debug)]
pub struct BatchTagInput {
    pub link_ids: Vec<i64>,
    pub tags: Vec<String>,
}

/// How many links a batch changed.
#[derive(Debug, Clone, Copy)]
pub struct BatchResult {
    pub affected: usize,
}

/// The service that keeps a workspace's links.
pub struct LinkService;

/// The URL a new link is stored under: trimmed, 1 to 8000 bytes.
pub fn link_url(url: &str) -> (r: AppResult<String>)
    ensures
        ({
            let t = trim(url@);
            if t.len() == 0 || utf8_len(t) > 8000 {
                r matches Err(e) && e@ == ErrorV::Validation("url length invalid"@)
            } else {
                r matches Ok(u) && u@ == t
            }
        }),
{
    let t = trimmed(url);
    if t.as_str().is_empty() || byte_len(t.as_str()) > 8000 {
        return Err(validation("url length invalid"));
    }
    Ok(t)
}

/// The fields of an edited link.
#[derive(Debug)]
pub struct LinkEdit {
    pub url: String,
    pub name: String,
    pub description: String,
    pub collection_id: i64,
}

/// The edit of `existing` by `req`: fields left out keep their values.
pub fn resolve_link_update(existing: &Link, req: UpdateLinkInput) -> (r: LinkEdit)
    ensures
        r.url@ == (match req.url { Some(u) => u@, None => existing.url@ }),
        r.name@ == (match req.name { Some(n) => n@, None => existing.name@ }),
        r.description@ == (match req.description { Some(d) => d@, None => existing.description@ }),
        r.collection_id == (match req.collection_id { Some(c) => c, None => existing.collection_id }),
{
    LinkEdit {
        url: match req.url {
            Some(u) => u,
            None => existing.url.clone(),
        },
        name: match req.name {
            Some(n) => n,
            None => existing.name.clone(),
        },
        description: match req.description {
            Some(d) => d,
            None => existing.description.clone(),
        },
        collection_id: match req.collection_id {
            Some(c) => c,
            None => existing.collection_id,
        },
    }
}

/// Whether an edit moves the link to another collection, which must then
/// be checked to exist in the workspace.
pub fn moves_collection(existing: &Link, req: &UpdateLinkInput) -> (b: bool)
    ensures
        b == (req.collection_id matches Some(c) && c != existing.collection_id),
{
    match req.collection_id {
        Some(c) => c != existing.collection_id,
        None => false,
    }
}

/// A collection as Linkwarden clients see it.
#[derive(Debug)]
pub struct LwCollection {
    pub id: i64,
    pub name: String,
    pub parent_id: Option<i64>,
    pub owner_id: i64,
}

impl LwCollection {
    /// The Linkwarden view of `c`: its creator is its owner.
    pub fn from(c: Collection) -> (r: LwCollection)
        ensures
            r.id == c.id,
            r.name == c.name,
            r.parent_id == c.parent_id,
            r.owner_id == c.created_by,
    {
        LwCollection { id: c.id, name: c.name, parent_id: c.parent_id, owner_id: c.created_by }
    }
}

/// A link as Linkwarden clients see it in search results.
#[derive(Debug)]
pub struct LwLink {
    pub id: i64,
    pub name: String,
    pub url: String,
    pub collection_id: i64,
}

impl LwLink {
    /// The Linkwarden view of a found link.
    pub fn from_search(s: SearchLink) -> (r: LwLink)
        ensures
            r.id == s.id,
            r.name == s.name,
            r.url == s.url,
            r.collection_id == s.collection_id,
    {
        LwLink { id: s.id, name: s.name, url: s.url, collection_id: s.collection_id }
    }
}

/// A passkey of a user.
#[derive(Debug)]
pub struct PasskeyInfo {
    pub id: i64,
    pub uuid: String,
    pub name: String,
    pub last_used_at: Option<String>,
    pub created_at: String,
}

/// The options of a passkey ceremony, with the id of its flow.
#[derive(Debug)]
pub struct ChallengeResponse<T> {
    pub flow_id: String,
    pub options: T,
}

/// The start of a passkey sign-in.
#[derive(Debug)]
pub struct LoginStartRequest {
    pub username: String,
}

/// The service that keeps passkeys.
pub struct PasskeyService;

/// What a refused passkey ceremony is answered with, whatever the reason.
pub fn webauthn_error() -> (e: AppError)
    ensures
        e@ == ErrorV::Validation("passkey verification failed"@),
{
    validation("passkey verification failed")
}

/// An entry of the audit log.
#[derive(Debug)]
pub struct AuditEntry {
    pub id: i64,
    pub tenant_id: Option<i64>,
    pub user_id: Option<i64>,
    pub action: String,
    pub resource_type: Option<String>,
    pub resource_id: Option<i64>,
    pub detail: Option<String>,
    pub ip_address: Option<String>,
    pub created_at: String,
}

/// The service that keeps the audit log.
pub struct AuditService;

/// Administration is for system administrators only.
pub fn require_admin(user: &AuthUser) -> (r: AppResult<()>)
    ensures
        r == permit(user.is_system_admin),
{
    if !user.is_system_admin {
        return Err(AppError::Forbidden);
    }
    Ok(())
}

/// The number of audit entries shown when a request names none.
pub fn default_limit() -> (n: i64)
    ensures
        n == 100,
{
    100
}

} // verus!
