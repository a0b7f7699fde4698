//! Workspaces and their members: names, slugs, who may manage them, and
//! the rule that a workspace keeps an owner.
use vstd::prelude::*;
use crate::account::{slug_of, slugify};
use crate::auth::{AuthUser, TenantRole, permit, manages, role_of};
use crate::domain::{Tenant, TenantMember};
use crate::error::{AppError, AppResult, ErrorV, validation};
use crate::text::{byte_len, str_eq, trim, trimmed, utf8_len};

verus! {

/// A new workspace.
#[derive(Debug)]
pub struct CreateTenantRequest {
    pub name: String,
    pub slug: Option<String>,
}

/// Changes to a workspace.
#[derive(Debug)]
pub struct UpdateTenantRequest {
    pub name: Option<String>,
    pub slug: Option<String>,
}

/// A workspace with the role of the user who asked for it.
#[derive(Debug)]
pub struct TenantWithRole {
    pub tenant: Tenant,
    pub role: String,
}

/// A user to add to a workspace, with a role.
#[derive(Debug)]
pub struct AddMemberRequest {
    pub username: String,
    pub role: String,
}

/// A member's new role.
#[derive(Debug)]
pub struct UpdateMemberRequest {
    pub role: String,
}

/// A member of a workspace.
#[derive(Debug)]
pub struct MemberInfo {
    pub user_id: i64,
    pub username: String,
    pub display_name: String,
    pub uuid: String,
    pub role: String,
    pub created_at: String,
    pub updated_at: String,
}

/// The service that keeps workspaces and their members.
pub struct TenantService;

/// The name a workspace is stored under: trimmed, 1 to 100 bytes.
pub fn tenant_name(name: &str) -> (r: AppResult<String>)
    ensures
        ({
            let t = trim(name@);
            if t.len() == 0 || utf8_len(t) > 100 {
                r matches Err(e) && e@ == ErrorV::Validation("tenant name length invalid"@)
            } else {
                r matches Ok(n) && n@ == t
            }
        }),
{
    let t = trimmed(name);
    if t.as_str().is_empty() || byte_len(t.as_str()) > 100 {
        return Err(validation("tenant name length invalid"));
    }
    Ok(t)
}

/// The slug of a new workspace: the slug of the one asked for, or else that
/// of its name, or `ws` when that is empty.
pub open spec fn new_slug(requested: Option<Seq<char>>, name: Seq<char>) -> Seq<char> {
    match requested {
        Some(s) => slug_of(s),
        None => if slug_of(name).len() == 0 { "ws"@ } else { slug_of(name) },
    }
}

/// The slug of a new workspace named `name`.
pub fn tenant_slug(requested: Option<&str>, name: &str) -> (r: String)
    ensures
        r@ == new_slug(match requested { Some(s) => Some(s@), None => None }, name@),
{
    match requested {
        Some(s) => slugify(s),
        None => {
            let base = slugify(name);
            if base.as_str().is_empty() {
                String::from_str("ws")
            } else {
                base
            }
        },
    }
}

/// The role a member is given; `invalid role` for an unknown name.
pub fn member_role(role: &str) -> (r: AppResult<TenantRole>)
    ensures
        match role_of(role@) {
            Some(x) => r == Ok::<TenantRole, AppError>(x),
            None => r matches Err(e) && e@ == ErrorV::Validation("invalid role"@),
        },
{
    match TenantRole::parse(role) {
        Some(x) => Ok(x),
        None => Err(validation("invalid role")),
    }
}

/// Whether a stored role (if any) lets its holder administer a workspace.
pub open spec fn admin_role(role: Option<Seq<char>>) -> bool {
    role == Some("owner"@) || role == Some("admin"@)
}

/// The check before managing workspace `tenant_id`: in the user's active
/// workspace by the user's role there; in another one by the role that the
/// store holds for the user there (`role_there`).
pub fn manage_check(user: &AuthUser, tenant_id: i64, role_there: Option<&str>) -> (r: AppResult<()>)
    ensures
        r == permit(if tenant_id != user.tenant_id {
            admin_role(match role_there { Some(s) => Some(s@), None => None })
        } else {
            manages(user.tenant_role)
        }),
{
    if tenant_id != user.tenant_id {
        match role_there {
            Some(s) => if str_eq(s, "owner") || str_eq(s, "admin") {
                Ok(())
            } else {
                Err(AppError::Forbidden)
            },
            None => Err(AppError::Forbidden),
        }
    } else {
        user.require_manage_members()
    }
}

/// Owners left after a member (`target_is_owner`) gets a role that is or is
/// not owner (`stays_owner`) or leaves (`stays_owner` false), out of
/// `owner_count` owners.
pub open spec fn owners_after(owner_count: int, target_is_owner: bool, stays_owner: bool) -> int {
    if target_is_owner && !stays_owner { owner_count - 1 } else { owner_count }
}

/// The check before a member loses the owner role, by a new role
/// (`removing` false) or by leaving (`removing` true): the last owner of a
/// workspace may do neither.
pub fn last_owner_check(target_is_owner: bool, owner_count: i64, removing: bool) -> (r: AppResult<()>)
    ensures
        target_is_owner && owner_count <= 1 ==> (r matches Err(e) && e@ == ErrorV::Validation(
            if removing { "cannot remove the last owner"@ } else { "cannot demote the last owner"@ })),
        !(target_is_owner && owner_count <= 1) ==> r is Ok,
{
    if target_is_owner && owner_count <= 1 {
        if removing {
            return Err(validation("cannot remove the last owner"));
        }
        return Err(validation("cannot demote the last owner"));
    }
    Ok(())
}

/// A workspace with at least one owner keeps one through every role change
/// and removal that the last-owner check lets through.
pub proof fn lemma_owner_kept(owner_count: int, target_is_owner: bool, stays_owner: bool)
    requires
        owner_count >= 1,
        !(target_is_owner && !stays_owner && owner_count <= 1),
    ensures
        owners_after(owner_count, target_is_owner, stays_owner) >= 1,
{
}

/// The role shown for workspace `tenant_id` from the user's memberships:
/// that of the last membership in it, else `member`.
pub open spec fn role_in(ms: Seq<TenantMember>, tenant_id: i64) -> Seq<char>
    decreases ms.len(),
{
    if ms.len() == 0 {
        "member"@
    } else if ms.last().tenant_id == tenant_id {
        ms.last().role@
    } else {
        role_in(ms.drop_last(), tenant_id)
    }
}

fn role_for(ms: &Vec<TenantMember>, tenant_id: i64) -> (r: String)
    ensures
        r@ == role_in(ms@, tenant_id),
{
    let mut k = ms.len();
    assert(ms@.take(k as int) =~= ms@);
    while k > 0
        invariant
            k <= ms@.len(),
            role_in(ms@, tenant_id) == role_in(ms@.take(k as int), tenant_id),
        decreases k,
    {
        let ghost t = ms@.take(k as int);
        assert(t.last() == ms@[k - 1]);
        if ms[k - 1].tenant_id == tenant_id {
            return ms[k - 1].role.clone();
        }
        assert(t.drop_last() =~= ms@.take(k - 1));
        k = k - 1;
    }
    String::from_str("member")
}

/// The user's workspaces, in order, each with the user's role in it.
pub fn with_roles(tenants: Vec<Tenant>, memberships: &Vec<TenantMember>) -> (r: Vec<TenantWithRole>)
    ensures
        r@.len() == tenants@.len(),
        forall|i: int| 0 <= i < r@.len() ==> #[trigger] r@[i].tenant == tenants@[i]
            && r@[i].role@ == role_in(memberships@, tenants@[i].id),
{
    let ghost all = tenants@;
    let mut rest = tenants;
    let mut out: Vec<TenantWithRole> = Vec::new();
    while rest.len() > 0
        invariant
            out@.len() + rest@.len() == all.len(),
            rest@ == all.skip(out@.len() as int),
            forall|i: int| 0 <= i < out@.len() ==> #[trigger] out@[i].tenant == all[i]
                && out@[i].role@ == role_in(memberships@, all[i].id),
        decreases rest.len(),
    {
        let ghost k = out@.len();
        let t = rest.remove(0);
        assert(t == all[k as int]);
        assert(rest@ =~= all.skip(k as int + 1));
        let role = role_for(memberships, t.id);
        out.push(TenantWithRole { tenant: t, role });
    }
    out
}

} // verus!
