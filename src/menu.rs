use crate::model::{
    contains_id, MenuNode, MenuType, MenuView, ROOT_PARENT_ID, RoleAssignment, RoleMenuAssignment, menu_views,
};
use crate::permission::{
    grants_menu, holds_superadmin, is_superadmin, menu_granted, permission_set, resolve,
};
use crate::token::texts;
use vstd::prelude::*;
use vstd::set_lib::lemma_len_subset;

verus! {

/// Whether the id `x` is put into the menu tree directly by the record `m`: a visible record
/// granted to the user that is not a button contributes its own id and its parent's.
pub open spec fn is_seed(
    user: i64,
    roles: Seq<RoleAssignment>,
    grants: Seq<RoleMenuAssignment>,
    m: MenuView,
    x: i64,
) -> bool {
    m.visible && m.menu_type != MenuType::Button && menu_granted(user, m, roles, grants) && (m.id
        == x || m.parent_id == x)
}

/// The ids that the granted records put into the menu tree directly.
pub open spec fn seed_ids(
    user: i64,
    roles: Seq<RoleAssignment>,
    grants: Seq<RoleMenuAssignment>,
    menus: Seq<MenuView>,
) -> Set<i64> {
    Set::new(
        |x: i64|
            exists|k: int| 0 <= k < menus.len() && is_seed(user, roles, grants, #[trigger] menus[k], x),
    )
}

/// One step up the tree: `s` with the parent of every record whose id is in `s`.
pub open spec fn widen(s: Set<i64>, menus: Seq<MenuView>) -> Set<i64> {
    s.union(
        Set::new(
            |x: i64|
                x != ROOT_PARENT_ID && exists|k: int|
                    0 <= k < menus.len() && s.contains(menus[k].id) && #[trigger] menus[k].parent_id
                        == x,
        ),
    )
}

/// `s` after `n` steps up the tree.
pub open spec fn widen_n(s: Set<i64>, menus: Seq<MenuView>, n: nat) -> Set<i64>
    decreases n,
{
    if n == 0 {
        s
    } else {
        widen(widen_n(s, menus, (n - 1) as nat), menus)
    }
}

/// `s` with all the ancestors of its members.
pub open spec fn ancestor_closure(s: Set<i64>, menus: Seq<MenuView>) -> Set<i64> {
    Set::new(|x: i64| exists|n: nat| #[trigger] widen_n(s, menus, n).contains(x))
}

/// Whether no record before position `k` has the id of the record at `k`.
#[verifier::opaque]
pub open spec fn first_with_id(menus: Seq<MenuView>, k: int) -> bool {
    forall|j: int| 0 <= j < k ==> #[trigger] menus[j].id != menus[k].id
}

/// The records among the first `n` whose id is in `ids`, one per id (the first), in order.
pub open spec fn kept_upto(menus: Seq<MenuView>, ids: Set<i64>, n: int) -> Seq<MenuView>
    decreases n,
{
    if n <= 0 {
        Seq::empty()
    } else {
        let t = kept_upto(menus, ids, n - 1);
        if ids.contains(menus[n - 1].id) && first_with_id(menus, n - 1) {
            t.push(menus[n - 1])
        } else {
            t
        }
    }
}

/// The user's menu tree: for each id that a granted record puts in, or that is an ancestor of
/// such an id, the first record with that id, in the order of the input.
pub open spec fn tree_of(
    user: i64,
    roles: Seq<RoleAssignment>,
    grants: Seq<RoleMenuAssignment>,
    menus: Seq<MenuView>,
) -> Seq<MenuView> {
    kept_upto(
        menus,
        ancestor_closure(seed_ids(user, roles, grants, menus), menus),
        menus.len() as int,
    )
}

/// The positions of the records that `kept_upto` keeps.
pub open spec fn kept_positions(menus: Seq<MenuView>, ids: Set<i64>, n: int) -> Seq<int>
    decreases n,
{
    if n <= 0 {
        Seq::empty()
    } else {
        let t = kept_positions(menus, ids, n - 1);
        if ids.contains(menus[n - 1].id) && first_with_id(menus, n - 1) {
            t.push(n - 1)
        } else {
            t
        }
    }
}

/// Each record kept is the first record with its id, and that id is in `ids`; the kept
/// records have distinct ids; and every first record whose id is in `ids` is kept.
proof fn lemma_kept(menus: Seq<MenuView>, ids: Set<i64>, n: int)
    requires
        0 <= n <= menus.len(),
    ensures
        kept_positions(menus, ids, n).len() == kept_upto(menus, ids, n).len(),
        forall|i: int|
            #![trigger kept_positions(menus, ids, n)[i]]
            0 <= i < kept_upto(menus, ids, n).len() ==> {
                let k = kept_positions(menus, ids, n)[i];
                &&& 0 <= k < n
                &&& kept_upto(menus, ids, n)[i] == menus[k]
                &&& ids.contains(menus[k].id)
                &&& first_with_id(menus, k)
            },
        forall|i: int, j: int|
            0 <= i < j < kept_upto(menus, ids, n).len() ==> #[trigger] kept_upto(menus, ids, n)[i].id
                != #[trigger] kept_upto(menus, ids, n)[j].id,
        forall|k: int|
            0 <= k < n && ids.contains(menus[k].id) && first_with_id(menus, k) ==> #[trigger] kept_upto(
                menus,
                ids,
                n,
            ).contains(menus[k]),
    decreases n,
{
    if n > 0 {
        lemma_kept(menus, ids, n - 1);
        let t = kept_upto(menus, ids, n - 1);
        let p = kept_positions(menus, ids, n - 1);
        let u = kept_upto(menus, ids, n);
        let q = kept_positions(menus, ids, n);
        let m = menus[n - 1];
        if ids.contains(m.id) && first_with_id(menus, n - 1) {
            assert(u == t.push(m));
            assert(q == p.push(n - 1));
            assert forall|i: int| #![trigger q[i]] 0 <= i < u.len() implies {
                let k = q[i];
                &&& 0 <= k < n
                &&& u[i] == menus[k]
                &&& ids.contains(menus[k].id)
                &&& first_with_id(menus, k)
            } by {
                if i < t.len() {
                    assert(u[i] == t[i] && q[i] == p[i]);
                }
            }
            assert forall|i: int, j: int| 0 <= i < j < u.len() implies #[trigger] u[i].id
                != #[trigger] u[j].id by {
                assert(q[i] == p[i] || i >= t.len());
                if j < t.len() {
                    assert(u[i] == t[i] && u[j] == t[j]);
                } else {
                    assert(u[i] == t[i] && q[i] == p[i]);
                    let k = p[i];
                    reveal(first_with_id);
                    assert(menus[k].id != menus[n - 1].id);
                }
            }
            assert forall|k: int|
                0 <= k < n && ids.contains(menus[k].id) && first_with_id(menus, k) implies #[trigger] u.contains(
                menus[k],
            ) by {
                if k < n - 1 {
                    assert(t.contains(menus[k]));
                    let r = choose|r: int| 0 <= r < t.len() && t[r] == menus[k];
                    assert(u[r] == menus[k]);
                } else {
                    assert(u[t.len() as int] == menus[k]);
                }
            }
        } else {
            assert(u == t);
            assert(q == p);
            assert forall|k: int|
                0 <= k < n && ids.contains(menus[k].id) && first_with_id(menus, k) implies #[trigger] u.contains(
                menus[k],
            ) by {
                if k < n - 1 {
                    assert(t.contains(menus[k]));
                }
            }
        }
    }
}

/// Some record with a given id comes first among the records with that id.
proof fn lemma_first_record(menus: Seq<MenuView>, j: int)
    requires
        0 <= j < menus.len(),
    ensures
        exists|k: int| 0 <= k <= j && menus[k].id == menus[j].id && first_with_id(menus, k),
    decreases j,
{
    reveal(first_with_id);
    if !first_with_id(menus, j) {
        let j2 = choose|j2: int| 0 <= j2 < j && #[trigger] menus[j2].id == menus[j].id;
        lemma_first_record(menus, j2);
    } else {
        assert(menus[j].id == menus[j].id);
    }
}

/// Whether `s` holds the parent of every record whose id it holds.
pub open spec fn closed_upward(s: Set<i64>, menus: Seq<MenuView>) -> bool {
    forall|k: int|
        0 <= k < menus.len() && s.contains(#[trigger] menus[k].id) && menus[k].parent_id
            != ROOT_PARENT_ID ==> s.contains(menus[k].parent_id)
}

proof fn lemma_closed_holds_closure(seeds: Set<i64>, s: Set<i64>, menus: Seq<MenuView>)
    requires
        seeds.subset_of(s),
        closed_upward(s, menus),
    ensures
        ancestor_closure(seeds, menus).subset_of(s),
{
    assert forall|x: i64| ancestor_closure(seeds, menus).contains(x) implies s.contains(x) by {
        let n = choose|n: nat| #[trigger] widen_n(seeds, menus, n).contains(x);
        lemma_widen_n_within(seeds, s, menus, n);
    }
}

proof fn lemma_widen_n_within(seeds: Set<i64>, s: Set<i64>, menus: Seq<MenuView>, n: nat)
    requires
        seeds.subset_of(s),
        closed_upward(s, menus),
    ensures
        widen_n(seeds, menus, n).subset_of(s),
    decreases n,
{
    if n > 0 {
        lemma_widen_n_within(seeds, s, menus, (n - 1) as nat);
        let prev = widen_n(seeds, menus, (n - 1) as nat);
        assert forall|x: i64| widen(prev, menus).contains(x) implies s.contains(x) by {
            if !prev.contains(x) {
                let k = choose|k: int|
                    0 <= k < menus.len() && prev.contains(menus[k].id) && #[trigger] menus[k].parent_id
                        == x;
                assert(s.contains(menus[k].id));
            }
        }
    }
}

proof fn lemma_closure_step(seeds: Set<i64>, menus: Seq<MenuView>, k: int)
    requires
        0 <= k < menus.len(),
        ancestor_closure(seeds, menus).contains(menus[k].id),
        menus[k].parent_id != ROOT_PARENT_ID,
    ensures
        ancestor_closure(seeds, menus).contains(menus[k].parent_id),
{
    let n = choose|n: nat| #[trigger] widen_n(seeds, menus, n).contains(menus[k].id);
    assert(widen_n(seeds, menus, n + 1).contains(menus[k].parent_id));
}

proof fn lemma_push_contains(s: Seq<i64>, v: i64)
    ensures
        forall|x: i64| #[trigger] s.push(v).contains(x) <==> (s.contains(x) || x == v),
{
    assert forall|x: i64| #[trigger] s.push(v).contains(x) <==> (s.contains(x) || x == v) by {
        if s.contains(x) {
            let i = choose|i: int| 0 <= i < s.len() && s[i] == x;
            assert(s.push(v)[i] == x);
        }
        if x == v {
            assert(s.push(v)[s.len() as int] == x);
        }
        if s.push(v).contains(x) && x != v {
            let i = choose|i: int| 0 <= i < s.push(v).len() && s.push(v)[i] == x;
            assert(s[i] == x);
        }
    }
}

/// Whether a record before position `k` has the id of the record at `k`.
fn seen_before(menus: &Vec<MenuNode>, k: usize) -> (r: bool)
    requires
        k < menus@.len(),
    ensures
        r == !first_with_id(menu_views(menus@), k as int),
{
    let ghost mv = menu_views(menus@);
    let mut j: usize = 0;
    while j < k
        invariant
            j <= k < menus@.len(),
            mv == menu_views(menus@),
            forall|q: int| 0 <= q < j ==> #[trigger] mv[q].id != mv[k as int].id,
        decreases k - j,
    {
        assert(mv[j as int].id == menus@[j as int].id && mv[k as int].id == menus@[k as int].id);
        if menus[j].id == menus[k].id {
            assert(mv[j as int].id == mv[k as int].id);
            proof {
                reveal(first_with_id);
            }
            assert(!first_with_id(mv, k as int));
            return true;
        }
        j = j + 1;
    }
    proof {
        reveal(first_with_id);
    }
    false
}

/// What the menu tree builder hands back: the user's menu tree, and every API path the user
/// may invoke, buttons included.
pub struct MenuTree {
    pub tree: Vec<MenuNode>,
    pub permission_urls: Vec<String>,
}


/// The parent ids of a list of records.
pub open spec fn parent_ids(menus: Seq<MenuView>) -> Seq<i64> {
    menus.map_values(|m: MenuView| m.parent_id)
}

/// Builds the user's menu tree and permission paths. Every granted record that is not a
/// button puts its own id and its parent's into the tree, and the ancestors of those ids are
/// added until the set is closed; the tree holds the records with those ids. The permission
/// paths are the non-empty API paths of every granted record, buttons included, each once.
pub fn build(
    user_id: i64,
    roles: &Vec<RoleAssignment>,
    grants: &Vec<RoleMenuAssignment>,
    menus: &Vec<MenuNode>,
) -> (r: MenuTree)
    ensures
        menu_views(r.tree@) == tree_of(user_id, roles@, grants@, menu_views(menus@)),
        forall|i: int, j: int|
            0 <= i < j < r.tree@.len() ==> #[trigger] r.tree@[i].id != #[trigger] r.tree@[j].id,
        texts(r.permission_urls@).to_set() == permission_set(
            user_id,
            roles@,
            grants@,
            menu_views(menus@),
        ),
        texts(r.permission_urls@).no_duplicates(),
{
    let ghost mv = menu_views(menus@);
    let ghost seeds = seed_ids(user_id, roles@, grants@, mv);
    let ghost closure = ancestor_closure(seeds, mv);
    let superadmin = is_superadmin(user_id, roles);
    let mut ids: Vec<i64> = Vec::new();
    let mut k: usize = 0;
    while k < menus.len()
        invariant
            k <= menus@.len(),
            mv == menu_views(menus@),
            superadmin == holds_superadmin(user_id, roles@),
            ids@.no_duplicates(),
            forall|x: i64|
                ids@.contains(x) <==> exists|j: int|
                    0 <= j < k && is_seed(user_id, roles@, grants@, #[trigger] mv[j], x),
        decreases menus@.len() - k,
    {
        let m = &menus[k];
        assert(mv[k as int] == m@);
        let ghost i0 = ids@;
        let take = m.visible && m.menu_type != MenuType::Button && (superadmin || grants_menu(
            user_id,
            m.id,
            roles,
            grants,
        ));
        assert(take == (m@.visible && m@.menu_type != MenuType::Button && menu_granted(
            user_id,
            m@,
            roles@,
            grants@,
        )));
        if take {
            if !contains_id(&ids, m.id) {
                proof {
                    lemma_push_contains(ids@, m.id);
                }
                ids.push(m.id);
            }
            if !contains_id(&ids, m.parent_id) {
                proof {
                    lemma_push_contains(ids@, m.parent_id);
                }
                ids.push(m.parent_id);
            }
        }
        assert(forall|x: i64| #[trigger] ids@.contains(x) <==> (i0.contains(x) || is_seed(
            user_id,
            roles@,
            grants@,
            mv[k as int],
            x,
        )));
        k = k + 1;
        assert forall|x: i64| ids@.contains(x) <==> exists|j: int|
            0 <= j < k && is_seed(user_id, roles@, grants@, #[trigger] mv[j], x) by {
            if is_seed(user_id, roles@, grants@, mv[k - 1], x) {
                assert(0 <= k - 1 < k);
            }
            if i0.contains(x) {
                let j = choose|j: int|
                    0 <= j < k - 1 && is_seed(user_id, roles@, grants@, #[trigger] mv[j], x);
                assert(0 <= j < k);
            }
        }
    }
    assert forall|x: i64| seeds.contains(x) implies #[trigger] ids@.contains(x) by {
        let j = choose|j: int| 0 <= j < mv.len() && is_seed(user_id, roles@, grants@, #[trigger] mv[j], x);
        assert(0 <= j < k);
    }
    assert forall|x: i64| #[trigger] ids@.contains(x) implies closure.contains(x) by {
        assert(widen_n(seeds, mv, 0).contains(x));
    }
    let ghost seed_len = ids@.len();
    let ghost pset = parent_ids(mv).to_set();
    proof {
        parent_ids(mv).lemma_cardinality_of_set();
    }
    loop
        invariant
            mv == menu_views(menus@),
            seeds == seed_ids(user_id, roles@, grants@, mv),
            closure == ancestor_closure(seeds, mv),
            ids@.no_duplicates(),
            seed_len <= ids@.len() <= seed_len + menus@.len(),
            forall|x: i64| seeds.contains(x) ==> #[trigger] ids@.contains(x),
            forall|x: i64| #[trigger] ids@.contains(x) ==> closure.contains(x),
            forall|i: int| seed_len <= i < ids@.len() ==> pset.contains(#[trigger] ids@[i]),
            pset == parent_ids(mv).to_set(),
            pset.len() <= mv.len(),
        ensures
            mv == menu_views(menus@),
            seeds == seed_ids(user_id, roles@, grants@, mv),
            closure == ancestor_closure(seeds, mv),
            forall|x: i64| seeds.contains(x) ==> #[trigger] ids@.contains(x),
            forall|x: i64| #[trigger] ids@.contains(x) ==> closure.contains(x),
            forall|j: int|
                0 <= j < mv.len() && ids@.contains(#[trigger] mv[j].id) && mv[j].parent_id
                    != ROOT_PARENT_ID ==> ids@.contains(mv[j].parent_id),
        decreases seed_len + menus@.len() - ids@.len(),
    {
        let ghost start = ids@;
        let mut changed = false;
        let mut k: usize = 0;
        while k < menus.len()
            invariant
                mv == menu_views(menus@),
                seeds == seed_ids(user_id, roles@, grants@, mv),
                closure == ancestor_closure(seeds, mv),
                ids@.no_duplicates(),
                seed_len <= ids@.len() <= seed_len + menus@.len(),
                forall|x: i64| seeds.contains(x) ==> #[trigger] ids@.contains(x),
                forall|x: i64| #[trigger] ids@.contains(x) ==> closure.contains(x),
                forall|i: int| seed_len <= i < ids@.len() ==> pset.contains(#[trigger] ids@[i]),
                pset == parent_ids(mv).to_set(),
                pset.len() <= mv.len(),
                k <= menus@.len(),
                start.len() <= ids@.len(),
                start == ids@.subrange(0, start.len() as int),
                changed == (ids@.len() > start.len()),
                !changed ==> forall|j: int|
                    0 <= j < k && ids@.contains(#[trigger] mv[j].id) && mv[j].parent_id
                        != ROOT_PARENT_ID ==> ids@.contains(mv[j].parent_id),
            decreases menus@.len() - k,
        {
            let m = &menus[k];
            assert(mv[k as int] == m@);
            let ghost before = ids@;
            if m.parent_id != ROOT_PARENT_ID && contains_id(&ids, m.id) && !contains_id(
                &ids,
                m.parent_id,
            ) {
                let ghost i0 = ids@;
                proof {
                    assert(ids@.contains(mv[k as int].id));
                    assert(closure.contains(mv[k as int].id));
                    lemma_closure_step(seeds, mv, k as int);
                    lemma_push_contains(ids@, m.parent_id);
                    assert(parent_ids(mv)[k as int] == m.parent_id);
                    let fresh = i0.subrange(seed_len as int, i0.len() as int).push(m.parent_id);
                    assert(fresh.no_duplicates()) by {
                        assert forall|a: int, b: int|
                            0 <= a < fresh.len() && 0 <= b < fresh.len() && a != b implies fresh[a]
                            != fresh[b] by {
                            if a < fresh.len() - 1 && b < fresh.len() - 1 {
                                assert(fresh[a] == i0[seed_len + a]);
                                assert(fresh[b] == i0[seed_len + b]);
                            } else if a < fresh.len() - 1 {
                                assert(fresh[a] == i0[seed_len + a]);
                            } else if b < fresh.len() - 1 {
                                assert(fresh[b] == i0[seed_len + b]);
                            }
                        }
                    }
                    assert(fresh.to_set().subset_of(pset)) by {
                        assert forall|x: i64| fresh.to_set().contains(x) implies pset.contains(x) by {
                            let i = choose|i: int| 0 <= i < fresh.len() && fresh[i] == x;
                            if i < fresh.len() - 1 {
                                assert(fresh[i] == i0[seed_len + i]);
                            }
                        }
                    }
                    fresh.unique_seq_to_set();
                    lemma_len_subset(fresh.to_set(), pset);
                }
                ids.push(m.parent_id);
                changed = true;
                proof {
                    assert forall|x: i64| #[trigger] ids@.contains(x) implies closure.contains(x) by {
                        if x != m.parent_id {
                            let i = choose|i: int| 0 <= i < ids@.len() && ids@[i] == x;
                            assert(i0[i] == x);
                        }
                    }
                    assert forall|x: i64| seeds.contains(x) implies #[trigger] ids@.contains(x) by {
                        assert(i0.contains(x));
                        let i = choose|i: int| 0 <= i < i0.len() && i0[i] == x;
                        assert(ids@[i] == x);
                    }
                    assert(ids@.subrange(0, start.len() as int) =~= start);
                }
            }
            k = k + 1;
            assert(!changed ==> ids@ == before);
        }
        if !changed {
            assert(ids@ =~= start);
            break ;
        }
    }
    proof {
        assert(closed_upward(ids@.to_set(), mv));
        assert(seeds.subset_of(ids@.to_set()));
        lemma_closed_holds_closure(seeds, ids@.to_set(), mv);
    }
    let mut tree: Vec<MenuNode> = Vec::new();
    let mut k: usize = 0;
    while k < menus.len()
        invariant
            k <= menus@.len(),
            mv == menu_views(menus@),
            seeds == seed_ids(user_id, roles@, grants@, mv),
            closure == ancestor_closure(seeds, mv),
            forall|x: i64| #[trigger] ids@.contains(x) <==> closure.contains(x),
            menu_views(tree@) == kept_upto(mv, closure, k as int),
        decreases menus@.len() - k,
    {
        let ghost t0 = menu_views(tree@);
        assert(mv[k as int] == menus@[k as int]@);
        if contains_id(&ids, menus[k].id) && !seen_before(menus, k) {
            tree.push(menus[k].clone());
            assert(menu_views(tree@) =~= t0.push(menus@[k as int]@));
        }
        k = k + 1;
    }
    proof {
        lemma_kept(mv, closure, mv.len() as int);
        let kt = kept_upto(mv, closure, mv.len() as int);
        assert(menu_views(tree@) == kt);
        assert forall|i: int, j: int| 0 <= i < j < tree@.len() implies #[trigger] tree@[i].id
            != #[trigger] tree@[j].id by {
            assert(menu_views(tree@)[i] == tree@[i]@);
            assert(menu_views(tree@)[j] == tree@[j]@);
            assert(kt[i].id != kt[j].id);
        }
    }
    let permission_urls = resolve(user_id, roles, grants, menus);
    MenuTree { tree, permission_urls }
}

/// Every record in the menu tree whose parent is not the root has its parent in the tree too,
/// provided that every parent id in the input names a record.
pub proof fn lemma_tree_has_parents(
    user: i64,
    roles: Seq<RoleAssignment>,
    grants: Seq<RoleMenuAssignment>,
    menus: Seq<MenuView>,
)
    requires
        forall|k: int|
            0 <= k < menus.len() ==> #[trigger] menus[k].parent_id == ROOT_PARENT_ID || exists|j: int|
                0 <= j < menus.len() && menus[j].id == menus[k].parent_id,
    ensures
        forall|i: int|
            0 <= i < tree_of(user, roles, grants, menus).len() ==> #[trigger] tree_of(
                user,
                roles,
                grants,
                menus,
            )[i].parent_id == ROOT_PARENT_ID || exists|j: int|
                0 <= j < tree_of(user, roles, grants, menus).len() && tree_of(
                    user,
                    roles,
                    grants,
                    menus,
                )[j].id == tree_of(user, roles, grants, menus)[i].parent_id,
{
    let t = tree_of(user, roles, grants, menus);
    let seeds = seed_ids(user, roles, grants, menus);
    let closure = ancestor_closure(seeds, menus);
    lemma_kept(menus, closure, menus.len() as int);
    assert forall|i: int| 0 <= i < t.len() implies #[trigger] t[i].parent_id == ROOT_PARENT_ID
        || exists|j: int| 0 <= j < t.len() && t[j].id == t[i].parent_id by {
        if t[i].parent_id != ROOT_PARENT_ID {
            let k = kept_positions(menus, closure, menus.len() as int)[i];
            lemma_closure_step(seeds, menus, k);
            let j = choose|j: int| 0 <= j < menus.len() && menus[j].id == menus[k].parent_id;
            lemma_first_record(menus, j);
            let f = choose|f: int| 0 <= f <= j && menus[f].id == menus[j].id && first_with_id(menus, f);
            assert(t.contains(menus[f]));
            let q = choose|q: int| 0 <= q < t.len() && t[q] == menus[f];
            assert(t[q].id == t[i].parent_id);
        }
    }
}

} // verus!
