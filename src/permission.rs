use crate::error::{AppError, BusinessRule};
use crate::model::{is_empty_text, MenuNode, MenuView, RoleAssignment, RoleMenuAssignment, menu_views};
use crate::token::texts;
use vstd::prelude::*;

verus! {

/// The distinguished role whose holders bypass every per-menu check.
pub const SUPERADMIN_ROLE_ID: i64 = 1;

/// Whether `user` holds `role`.
pub open spec fn holds_role(user: i64, role: i64, roles: Seq<RoleAssignment>) -> bool {
    exists|i: int| 0 <= i < roles.len() && #[trigger] roles[i].user_id == user && roles[i].role_id == role
}

/// Whether `user` holds the superadmin role.
pub open spec fn holds_superadmin(user: i64, roles: Seq<RoleAssignment>) -> bool {
    holds_role(user, SUPERADMIN_ROLE_ID, roles)
}

/// Whether one of the roles that `user` holds grants the menu with id `menu`.
pub open spec fn role_grants(
    user: i64,
    menu: i64,
    roles: Seq<RoleAssignment>,
    grants: Seq<RoleMenuAssignment>,
) -> bool {
    exists|j: int|
        0 <= j < grants.len() && #[trigger] grants[j].menu_id == menu && holds_role(
            user,
            grants[j].role_id,
            roles,
        )
}

/// Whether the menu record `m` is granted to `user`: every record is granted to a superadmin,
/// and otherwise a record is granted through the user's roles.
pub open spec fn menu_granted(
    user: i64,
    m: MenuView,
    roles: Seq<RoleAssignment>,
    grants: Seq<RoleMenuAssignment>,
) -> bool {
    holds_superadmin(user, roles) || role_grants(user, m.id, roles, grants)
}

/// The API paths that `user` may invoke: the non-empty API paths of the menu records granted
/// to the user.
pub open spec fn permission_set(
    user: i64,
    roles: Seq<RoleAssignment>,
    grants: Seq<RoleMenuAssignment>,
    menus: Seq<MenuView>,
) -> Set<Seq<char>> {
    Set::new(
        |u: Seq<char>|
            u.len() > 0 && exists|k: int|
                0 <= k < menus.len() && #[trigger] menus[k].api_url == u && menu_granted(
                    user,
                    menus[k],
                    roles,
                    grants,
                ),
    )
}

/// Whether `user` holds `role`.
pub fn has_role(user: i64, role: i64, roles: &Vec<RoleAssignment>) -> (r: bool)
    ensures
        r == holds_role(user, role, roles@),
{
    let mut i: usize = 0;
    while i < roles.len()
        invariant
            i <= roles@.len(),
            forall|j: int| 0 <= j < i ==> !(#[trigger] roles@[j].user_id == user && roles@[j].role_id == role),
        decreases roles@.len() - i,
    {
        if roles[i].user_id == user && roles[i].role_id == role {
            return true;
        }
        i = i + 1;
    }
    false
}

/// Whether `user` holds the superadmin role.
pub fn is_superadmin(user: i64, roles: &Vec<RoleAssignment>) -> (r: bool)
    ensures
        r == holds_superadmin(user, roles@),
{
    has_role(user, SUPERADMIN_ROLE_ID, roles)
}

/// Whether one of the roles that `user` holds grants the menu with id `menu`.
pub fn grants_menu(
    user: i64,
    menu: i64,
    roles: &Vec<RoleAssignment>,
    grants: &Vec<RoleMenuAssignment>,
) -> (r: bool)
    ensures
        r == role_grants(user, menu, roles@, grants@),
{
    let mut j: usize = 0;
    while j < grants.len()
        invariant
            j <= grants@.len(),
            forall|k: int|
                0 <= k < j ==> !(#[trigger] grants@[k].menu_id == menu && holds_role(
                    user,
                    grants@[k].role_id,
                    roles@,
                )),
        decreases grants@.len() - j,
    {
        if grants[j].menu_id == menu && has_role(user, grants[j].role_id, roles) {
            return true;
        }
        j = j + 1;
    }
    false
}

/// Whether a list of strings holds `s`.
pub fn contains_text(v: &Vec<String>, s: &String) -> (r: bool)
    ensures
        r == texts(v@).contains(s@),
{
    let mut i: usize = 0;
    while i < v.len()
        invariant
            i <= v@.len(),
            forall|j: int| 0 <= j < i ==> v@[j]@ != s@,
        decreases v@.len() - i,
    {
        if v[i] == *s {
            assert(texts(v@)[i as int] == s@);
            return true;
        }
        i = i + 1;
    }
    assert forall|j: int| 0 <= j < texts(v@).len() implies texts(v@)[j] != s@ by {
        assert(texts(v@)[j] == v@[j]@);
    }
    false
}

/// The API paths that `user` may invoke, each once. A superadmin may invoke every non-empty
/// API path of every menu record, whatever its status; anyone else those of the records that
/// the user's roles grant. A user with no role gets none, and must not be let in.
pub fn resolve(
    user_id: i64,
    roles: &Vec<RoleAssignment>,
    grants: &Vec<RoleMenuAssignment>,
    menus: &Vec<MenuNode>,
) -> (r: Vec<String>)
    ensures
        texts(r@).to_set() == permission_set(user_id, roles@, grants@, menu_views(menus@)),
        texts(r@).no_duplicates(),
{
    let ghost mv = menu_views(menus@);
    let superadmin = is_superadmin(user_id, roles);
    let mut out: Vec<String> = Vec::new();
    let mut k: usize = 0;
    while k < menus.len()
        invariant
            k <= menus@.len(),
            mv == menu_views(menus@),
            superadmin == holds_superadmin(user_id, roles@),
            texts(out@).no_duplicates(),
            forall|u: Seq<char>|
                texts(out@).contains(u) <==> (u.len() > 0 && exists|j: int|
                    0 <= j < k && #[trigger] mv[j].api_url == u && menu_granted(
                        user_id,
                        mv[j],
                        roles@,
                        grants@,
                    )),
        decreases menus@.len() - k,
    {
        let m = &menus[k];
        assert(mv[k as int] == m@);
        let ghost o0 = texts(out@);
        let take = !is_empty_text(&m.api_url) && (superadmin || grants_menu(
            user_id,
            m.id,
            roles,
            grants,
        ));
        assert(take == (m@.api_url.len() > 0 && menu_granted(user_id, m@, roles@, grants@)));
        if take {
            if !contains_text(&out, &m.api_url) {
                out.push(m.api_url.clone());
                assert(texts(out@) =~= o0.push(m.api_url@));
            }
        }
        assert(forall|u: Seq<char>| #[trigger] texts(out@).contains(u) <==> (o0.contains(u) || (take
            && u == m@.api_url))) by {
            if take && !o0.contains(m@.api_url) {
                assert(texts(out@) == o0.push(m@.api_url));
                assert forall|u: Seq<char>| #[trigger] texts(out@).contains(u) <==> (o0.contains(u)
                    || u == m@.api_url) by {
                    if texts(out@).contains(u) && u != m@.api_url {
                        let i = choose|i: int| 0 <= i < texts(out@).len() && texts(out@)[i] == u;
                        assert(o0[i] == u);
                    }
                    if u == m@.api_url {
                        assert(texts(out@)[o0.len() as int] == u);
                    }
                    if o0.contains(u) {
                        let i = choose|i: int| 0 <= i < o0.len() && o0[i] == u;
                        assert(texts(out@)[i] == u);
                    }
                }
            }
        }
        k = k + 1;
        assert forall|u: Seq<char>| texts(out@).contains(u) <==> (u.len() > 0 && exists|j: int|
            0 <= j < k && #[trigger] mv[j].api_url == u && menu_granted(
                user_id,
                mv[j],
                roles@,
                grants@,
            )) by {
            if take && u == m@.api_url {
                assert(mv[k - 1].api_url == u);
            }
            if u.len() > 0 && exists|j: int|
                0 <= j < k && #[trigger] mv[j].api_url == u && menu_granted(
                    user_id,
                    mv[j],
                    roles@,
                    grants@,
                ) {
                let j = choose|j: int|
                    0 <= j < k && #[trigger] mv[j].api_url == u && menu_granted(
                        user_id,
                        mv[j],
                        roles@,
                        grants@,
                    );
                if j < k - 1 {
                    assert(o0.contains(u));
                }
            }
        }
    }
    assert(texts(out@).to_set() =~= permission_set(user_id, roles@, grants@, mv));
    out
}

/// A user who holds no role may invoke nothing.
pub proof fn lemma_no_role_no_permission(
    user_id: i64,
    roles: Seq<RoleAssignment>,
    grants: Seq<RoleMenuAssignment>,
    menus: Seq<MenuView>,
)
    requires
        forall|i: int| 0 <= i < roles.len() ==> #[trigger] roles[i].user_id != user_id,
    ensures
        permission_set(user_id, roles, grants, menus) == Set::<Seq<char>>::empty(),
{
    assert(permission_set(user_id, roles, grants, menus) =~= Set::<Seq<char>>::empty());
}

/// A superadmin may invoke every non-empty API path of every menu record, whatever the
/// role-menu grants say.
pub proof fn lemma_superadmin_all_paths(
    user_id: i64,
    roles: Seq<RoleAssignment>,
    grants: Seq<RoleMenuAssignment>,
    menus: Seq<MenuView>,
)
    requires
        holds_superadmin(user_id, roles),
    ensures
        permission_set(user_id, roles, grants, menus) == Set::new(
            |u: Seq<char>|
                u.len() > 0 && exists|k: int| 0 <= k < menus.len() && #[trigger] menus[k].api_url == u,
        ),
{
    assert(permission_set(user_id, roles, grants, menus) =~= Set::new(
        |u: Seq<char>|
            u.len() > 0 && exists|k: int| 0 <= k < menus.len() && #[trigger] menus[k].api_url == u,
    ));
}


/// Whether a grant belongs to `role`.
pub open spec fn grant_of(role: i64) -> spec_fn(RoleMenuAssignment) -> bool {
    |g: RoleMenuAssignment| g.role_id == role
}

/// The menu ids that a role holds: every menu for the superadmin role, otherwise the menus
/// granted to the role, in the order of the grants.
pub open spec fn role_menus(role: i64, grants: Seq<RoleMenuAssignment>, menus: Seq<MenuView>) -> Seq<
    i64,
> {
    if role == SUPERADMIN_ROLE_ID {
        menus.map_values(|m: MenuView| m.id)
    } else {
        grants.filter(grant_of(role)).map_values(|g: RoleMenuAssignment| g.menu_id)
    }
}

/// The menu ids that a role holds.
pub fn role_menu_ids(role_id: i64, grants: &Vec<RoleMenuAssignment>, menus: &Vec<MenuNode>) -> (r:
    Vec<i64>)
    ensures
        r@ == role_menus(role_id, grants@, menu_views(menus@)),
{
    let mut out: Vec<i64> = Vec::new();
    if role_id == SUPERADMIN_ROLE_ID {
        let ghost mv = menu_views(menus@);
        let mut k: usize = 0;
        while k < menus.len()
            invariant
                k <= menus@.len(),
                mv == menu_views(menus@),
                out@ == mv.subrange(0, k as int).map_values(|m: MenuView| m.id),
            decreases menus@.len() - k,
        {
            assert(mv[k as int] == menus@[k as int]@);
            out.push(menus[k].id);
            k = k + 1;
            assert(out@ =~= mv.subrange(0, k as int).map_values(|m: MenuView| m.id));
        }
        assert(mv.subrange(0, k as int) =~= mv);
    } else {
        let mut j: usize = 0;
        while j < grants.len()
            invariant
                j <= grants@.len(),
                role_id != SUPERADMIN_ROLE_ID,
                out@ == grants@.subrange(0, j as int).filter(grant_of(role_id)).map_values(
                    |g: RoleMenuAssignment| g.menu_id,
                ),
            decreases grants@.len() - j,
        {
            let g = grants[j];
            proof {
                assert(grants@.subrange(0, j + 1) =~= grants@.subrange(0, j as int).push(g));
                grants@.subrange(0, j as int).lemma_filter_push(g, grant_of(role_id));
            }
            let ghost o0 = out@;
            if g.role_id == role_id {
                out.push(g.menu_id);
            }
            j = j + 1;
            assert(out@ =~= grants@.subrange(0, j as int).filter(grant_of(role_id)).map_values(
                |g: RoleMenuAssignment| g.menu_id,
            ));
        }
        assert(grants@.subrange(0, j as int) =~= grants@);
    }
    out
}

/// Guards an edit of a role's grants: the superadmin role holds every menu by definition and
/// cannot be edited.
pub fn check_role_menu_edit(role_id: i64) -> (r: Result<(), AppError>)
    ensures
        role_id == SUPERADMIN_ROLE_ID ==> r == Err::<(), AppError>(
            AppError::BusinessError(BusinessRule::SuperadminRoleLocked),
        ),
        role_id != SUPERADMIN_ROLE_ID ==> r is Ok,
{
    if role_id == SUPERADMIN_ROLE_ID {
        Err(AppError::BusinessError(BusinessRule::SuperadminRoleLocked))
    } else {
        Ok(())
    }
}

} // verus!
