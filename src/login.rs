use crate::error::{AppError, BusinessRule};
use crate::model::{MenuNode, RoleAssignment, RoleMenuAssignment, menu_views};
use crate::permission::{permission_set, resolve};
use crate::token::{Claims, ClaimsView, texts, token_bytes};
use vstd::prelude::*;
use vstd::string::*;
use vstd::utf8::*;

verus! {

/// The stored account that a login names.
pub struct LoginUser {
    pub id: i64,
    pub user_name: String,
    pub password: String,
}

/// The expiry of a credential issued at `now` for `ttl` seconds.
pub open spec fn expiry(now: u64, ttl: u64) -> u64 {
    if now + ttl <= u64::MAX {
        (now + ttl) as u64
    } else {
        u64::MAX
    }
}

/// Whether `token` is a credential for `user` carrying exactly the user's permissions, issued
/// at `now` for `ttl` seconds and signed with `secret`.
pub open spec fn issued_for(
    token: Seq<char>,
    user: &LoginUser,
    permissions: Set<Seq<char>>,
    secret: Seq<u8>,
    now: u64,
    ttl: u64,
) -> bool {
    exists|c: ClaimsView|
        encode_utf8(token) == #[trigger] token_bytes(c, secret) && c.subject_id == user.id
            && c.subject_name == user.user_name@ && c.permissions.to_set() == permissions
            && c.permissions.no_duplicates() && c.issued_at == now && c.expires_at == expiry(
            now,
            ttl,
        )
}

/// Logs a user in: the account must exist, the password must match, and the user must hold at
/// least one permission; the credential then carries the user's permissions.
pub fn login(
    user: Option<&LoginUser>,
    password: &str,
    roles: &Vec<RoleAssignment>,
    grants: &Vec<RoleMenuAssignment>,
    menus: &Vec<MenuNode>,
    secret: &str,
    now: u64,
    ttl: u64,
) -> (r: Result<String, AppError>)
    ensures
        match user {
            None => r == Err::<String, AppError>(AppError::BusinessError(BusinessRule::UserNotFound)),
            Some(u) => if u.password@ != password@ {
                r == Err::<String, AppError>(AppError::BusinessError(BusinessRule::WrongPassword))
            } else if permission_set(u.id, roles@, grants@, menu_views(menus@)).is_empty() {
                r == Err::<String, AppError>(AppError::BusinessError(BusinessRule::NoPermissions))
            } else {
                r matches Ok(t) && issued_for(
                    t@,
                    u,
                    permission_set(u.id, roles@, grants@, menu_views(menus@)),
                    secret.spec_bytes(),
                    now,
                    ttl,
                )
            },
        },
{
    let u = match user {
        Some(u) => u,
        None => {
            return Err(AppError::BusinessError(BusinessRule::UserNotFound));
        },
    };
    let given = password.to_owned();
    if u.password != given {
        return Err(AppError::BusinessError(BusinessRule::WrongPassword));
    }
    let permissions = resolve(u.id, roles, grants, menus);
    let ghost granted = permission_set(u.id, roles@, grants@, menu_views(menus@));
    if permissions.len() == 0 {
        assert(texts(permissions@) =~= Seq::<Seq<char>>::empty());
        assert(granted =~= Set::<Seq<char>>::empty());
        return Err(AppError::BusinessError(BusinessRule::NoPermissions));
    }
    assert(granted.contains(texts(permissions@)[0]));
    let claims = Claims::new(u.id, u.user_name.clone(), permissions, now, ttl);
    let token = claims.create_token(secret);
    assert(token_bytes(claims@, secret.spec_bytes()) == encode_utf8(token@));
    Ok(token)
}

} // verus!
