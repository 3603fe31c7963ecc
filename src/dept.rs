use crate::error::{AppError, BusinessRule, ValidationRule};
use crate::model::{contains_id, Status};
use vstd::prelude::*;

verus! {

/// A department. `ancestors` lists the ids from the root down to the parent.
#[derive(Debug)]
pub struct DeptNode {
    pub id: i64,
    pub parent_id: i64,
    pub ancestors: Vec<i64>,
    pub status: Status,
}

/// What a department holds, as mathematical values.
pub ghost struct DeptView {
    pub id: i64,
    pub parent_id: i64,
    pub ancestors: Seq<i64>,
    pub status: Status,
}

impl View for DeptNode {
    type V = DeptView;

    open spec fn view(&self) -> DeptView {
        DeptView {
            id: self.id,
            parent_id: self.parent_id,
            ancestors: self.ancestors@,
            status: self.status,
        }
    }
}

fn copy_ids(v: &Vec<i64>) -> (r: Vec<i64>)
    ensures
        r@ == v@,
{
    let mut r: Vec<i64> = Vec::new();
    let mut i: usize = 0;
    while i < v.len()
        invariant
            i <= v@.len(),
            r@ == v@.subrange(0, i as int),
        decreases v@.len() - i,
    {
        r.push(v[i]);
        i = i + 1;
    }
    assert(v@.subrange(0, i as int) =~= v@);
    r
}

impl Clone for DeptNode {
    fn clone(&self) -> (r: DeptNode)
        ensures
            r@ == self@,
    {
        DeptNode {
            id: self.id,
            parent_id: self.parent_id,
            ancestors: copy_ids(&self.ancestors),
            status: self.status,
        }
    }
}

/// The views of a list of departments.
pub open spec fn dept_views(v: Seq<DeptNode>) -> Seq<DeptView> {
    v.map_values(|d: DeptNode| d@)
}

/// Whether `i` is the first position of a department with id `id`.
pub open spec fn is_first(ds: Seq<DeptView>, id: i64, i: int) -> bool {
    0 <= i < ds.len() && ds[i].id == id && forall|j: int| 0 <= j < i ==> #[trigger] ds[j].id != id
}

/// Whether a department with id `id` exists.
pub open spec fn has_dept(ds: Seq<DeptView>, id: i64) -> bool {
    exists|i: int| 0 <= i < ds.len() && #[trigger] ds[i].id == id
}

/// The position of the first department with id `id`.
pub open spec fn first_index(ds: Seq<DeptView>, id: i64) -> int {
    choose|i: int| is_first(ds, id, i)
}

/// The first department with id `id`.
pub open spec fn first_dept(ds: Seq<DeptView>, id: i64) -> DeptView {
    ds[first_index(ds, id)]
}

/// The position of the first department with id `id`, if there is one.
fn find(depts: &Vec<DeptNode>, id: i64) -> (r: Option<usize>)
    ensures
        match r {
            Some(i) => is_first(dept_views(depts@), id, i as int) && first_index(
                dept_views(depts@),
                id,
            ) == i,
            None => !has_dept(dept_views(depts@), id),
        },
{
    let ghost ds = dept_views(depts@);
    let mut i: usize = 0;
    while i < depts.len()
        invariant
            i <= depts@.len(),
            ds == dept_views(depts@),
            forall|j: int| 0 <= j < i ==> #[trigger] ds[j].id != id,
        decreases depts@.len() - i,
    {
        if depts[i].id == id {
            assert(is_first(ds, id, i as int));
            let ghost c = first_index(ds, id);
            assert(is_first(ds, id, c));
            assert(c == i) by {
                if c < i {
                    assert(ds[c].id != id);
                } else if c > i {
                    assert(ds[i as int].id != id);
                }
            }
            return Some(i);
        }
        i = i + 1;
    }
    None
}

/// The path of a department created below `parent`.
pub open spec fn child_path(parent: DeptView) -> Seq<i64> {
    parent.ancestors.push(parent.id)
}

/// Creates a department below `parent_id`. The parent must exist and be enabled; the new
/// department's path is the parent's path followed by the parent.
pub fn on_create(depts: &Vec<DeptNode>, id: i64, parent_id: i64, status: Status) -> (r: Result<
    DeptNode,
    AppError,
>)
    ensures
        !has_dept(dept_views(depts@), parent_id) ==> r == Err::<DeptNode, AppError>(
            AppError::ValidationError(ValidationRule::ParentMissing),
        ),
        has_dept(dept_views(depts@), parent_id) && first_dept(dept_views(depts@), parent_id).status
            == Status::Disabled ==> r == Err::<DeptNode, AppError>(
            AppError::ValidationError(ValidationRule::ParentDisabled),
        ),
        has_dept(dept_views(depts@), parent_id) && first_dept(dept_views(depts@), parent_id).status
            == Status::Enabled ==> (r matches Ok(d) && d@ == (DeptView {
            id,
            parent_id,
            ancestors: child_path(first_dept(dept_views(depts@), parent_id)),
            status,
        })),
{
    let p = match find(depts, parent_id) {
        Some(p) => p,
        None => {
            return Err(AppError::ValidationError(ValidationRule::ParentMissing));
        },
    };
    let parent = &depts[p];
    assert(dept_views(depts@)[p as int] == parent@);
    if parent.status == Status::Disabled {
        return Err(AppError::ValidationError(ValidationRule::ParentDisabled));
    }
    let mut ancestors = copy_ids(&parent.ancestors);
    ancestors.push(parent.id);
    Ok(DeptNode { id, parent_id, ancestors, status })
}


/// Whether `p` is a prefix of `a`.
pub open spec fn starts_with(a: Seq<i64>, p: Seq<i64>) -> bool {
    p.len() <= a.len() && a.subrange(0, p.len() as int) == p
}

/// `d` with the prefix `from` of its path replaced by `to`; `d` itself if its path does not
/// start with `from`.
pub open spec fn rebase(d: DeptView, from: Seq<i64>, to: Seq<i64>) -> DeptView {
    if starts_with(d.ancestors, from) {
        DeptView { ancestors: to + d.ancestors.subrange(from.len() as int, d.ancestors.len() as int), ..d }
    } else {
        d
    }
}

/// The departments after moving the department `id` below `new_parent_id`: it takes the new
/// parent and the path below it, and each of its descendants has the old path prefix through
/// `id` replaced by the new one.
pub open spec fn moved(ds: Seq<DeptView>, id: i64, new_parent_id: i64) -> Seq<DeptView> {
    let n = first_index(ds, id);
    let new_path = child_path(first_dept(ds, new_parent_id));
    Seq::new(
        ds.len(),
        |i: int|
            if i == n {
                DeptView { parent_id: new_parent_id, ancestors: new_path, ..ds[n] }
            } else {
                rebase(ds[i], child_path(ds[n]), new_path.push(id))
            },
    )
}

/// Why moving the department `id` below `new_parent_id` is refused, if it is.
pub open spec fn move_error(ds: Seq<DeptView>, id: i64, new_parent_id: i64) -> Option<AppError> {
    if id == new_parent_id {
        Some(AppError::ValidationError(ValidationRule::SelfAsParent))
    } else if !has_dept(ds, id) {
        Some(AppError::NotFoundError)
    } else if !has_dept(ds, new_parent_id) {
        Some(AppError::ValidationError(ValidationRule::ParentMissing))
    } else if first_dept(ds, new_parent_id).ancestors.contains(id) {
        Some(AppError::ValidationError(ValidationRule::ParentIsDescendant))
    } else {
        None
    }
}

fn has_prefix(a: &Vec<i64>, p: &Vec<i64>) -> (r: bool)
    ensures
        r == starts_with(a@, p@),
{
    if p.len() > a.len() {
        return false;
    }
    let mut i: usize = 0;
    while i < p.len()
        invariant
            p@.len() <= a@.len(),
            i <= p@.len(),
            forall|j: int| 0 <= j < i ==> a@[j] == p@[j],
        decreases p@.len() - i,
    {
        if a[i] != p[i] {
            assert(a@.subrange(0, p@.len() as int)[i as int] != p@[i as int]);
            return false;
        }
        i = i + 1;
    }
    assert(a@.subrange(0, p@.len() as int) =~= p@);
    true
}

fn rebase_node(d: &DeptNode, from: &Vec<i64>, to: &Vec<i64>) -> (r: DeptNode)
    ensures
        r@ == rebase(d@, from@, to@),
{
    if !has_prefix(&d.ancestors, from) {
        return d.clone();
    }
    let mut ancestors = copy_ids(to);
    let mut i: usize = from.len();
    while i < d.ancestors.len()
        invariant
            from@.len() <= i <= d.ancestors@.len(),
            ancestors@ == to@ + d.ancestors@.subrange(from@.len() as int, i as int),
        decreases d.ancestors@.len() - i,
    {
        ancestors.push(d.ancestors[i]);
        i = i + 1;
        assert(ancestors@ =~= to@ + d.ancestors@.subrange(from@.len() as int, i as int));
    }
    DeptNode { id: d.id, parent_id: d.parent_id, ancestors, status: d.status }
}

/// Moves the department `id` below `new_parent_id`, rewriting the paths of the whole subtree
/// at once: on refusal nothing changes.
pub fn on_move(depts: &mut Vec<DeptNode>, id: i64, new_parent_id: i64) -> (r: Result<(), AppError>)
    ensures
        match move_error(dept_views(old(depts)@), id, new_parent_id) {
            Some(e) => r == Err::<(), AppError>(e) && final(depts)@ == old(depts)@,
            None => r is Ok && dept_views(final(depts)@) == moved(
                dept_views(old(depts)@),
                id,
                new_parent_id,
            ),
        },
{
    let ghost ds = dept_views(depts@);
    if id == new_parent_id {
        return Err(AppError::ValidationError(ValidationRule::SelfAsParent));
    }
    let n = match find(depts, id) {
        Some(n) => n,
        None => {
            return Err(AppError::NotFoundError);
        },
    };
    let p = match find(depts, new_parent_id) {
        Some(p) => p,
        None => {
            return Err(AppError::ValidationError(ValidationRule::ParentMissing));
        },
    };
    assert(ds[p as int] == depts@[p as int]@);
    assert(ds[n as int] == depts@[n as int]@);
    if contains_id(&depts[p].ancestors, id) {
        return Err(AppError::ValidationError(ValidationRule::ParentIsDescendant));
    }
    let mut new_path = copy_ids(&depts[p].ancestors);
    new_path.push(new_parent_id);
    let mut from = copy_ids(&depts[n].ancestors);
    from.push(id);
    let mut to = copy_ids(&new_path);
    to.push(id);
    let ghost target = moved(ds, id, new_parent_id);
    let mut out: Vec<DeptNode> = Vec::new();
    let mut i: usize = 0;
    while i < depts.len()
        invariant
            i <= depts@.len(),
            ds == dept_views(depts@),
            n == first_index(ds, id),
            n < depts@.len(),
            new_path@ == child_path(first_dept(ds, new_parent_id)),
            from@ == child_path(ds[n as int]),
            to@ == new_path@.push(id),
            target == moved(ds, id, new_parent_id),
            dept_views(out@) == target.subrange(0, i as int),
        decreases depts@.len() - i,
    {
        let ghost o0 = dept_views(out@);
        assert(ds[i as int] == depts@[i as int]@);
        if i == n {
            let d = &depts[i];
            out.push(
                DeptNode {
                    id: d.id,
                    parent_id: new_parent_id,
                    ancestors: copy_ids(&new_path),
                    status: d.status,
                },
            );
        } else {
            out.push(rebase_node(&depts[i], &from, &to));
        }
        i = i + 1;
        assert(dept_views(out@) =~= o0.push(target[i - 1]));
        assert(target.subrange(0, i as int) =~= target.subrange(0, i - 1).push(target[i - 1]));
    }
    assert(target.subrange(0, i as int) =~= target);
    *depts = out;
    Ok(())
}

/// The departments after enabling the department `id`: it and every department on its path
/// are enabled, the others keep their status.
pub open spec fn enabled_along(ds: Seq<DeptView>, id: i64) -> Seq<DeptView> {
    let path = first_dept(ds, id).ancestors;
    Seq::new(
        ds.len(),
        |i: int|
            if ds[i].id == id || path.contains(ds[i].id) {
                DeptView { status: Status::Enabled, ..ds[i] }
            } else {
                ds[i]
            },
    )
}

/// Enables the department `id` and force-enables every department on its path. Nothing is
/// disabled.
pub fn on_enable(depts: &mut Vec<DeptNode>, id: i64) -> (r: Result<(), AppError>)
    ensures
        !has_dept(dept_views(old(depts)@), id) ==> r == Err::<(), AppError>(AppError::NotFoundError)
            && final(depts)@ == old(depts)@,
        has_dept(dept_views(old(depts)@), id) ==> r is Ok && dept_views(final(depts)@)
            == enabled_along(dept_views(old(depts)@), id),
{
    let ghost ds = dept_views(depts@);
    let n = match find(depts, id) {
        Some(n) => n,
        None => {
            return Err(AppError::NotFoundError);
        },
    };
    assert(ds[n as int] == depts@[n as int]@);
    let path = copy_ids(&depts[n].ancestors);
    let ghost target = enabled_along(ds, id);
    let mut out: Vec<DeptNode> = Vec::new();
    let mut i: usize = 0;
    while i < depts.len()
        invariant
            i <= depts@.len(),
            ds == dept_views(depts@),
            path@ == first_dept(ds, id).ancestors,
            target == enabled_along(ds, id),
            dept_views(out@) == target.subrange(0, i as int),
        decreases depts@.len() - i,
    {
        let ghost o0 = dept_views(out@);
        let d = &depts[i];
        assert(ds[i as int] == d@);
        let mut e = d.clone();
        if d.id == id || contains_id(&path, d.id) {
            e.status = Status::Enabled;
        }
        out.push(e);
        i = i + 1;
        assert(dept_views(out@) =~= o0.push(target[i - 1]));
        assert(target.subrange(0, i as int) =~= target.subrange(0, i - 1).push(target[i - 1]));
    }
    assert(target.subrange(0, i as int) =~= target);
    *depts = out;
    Ok(())
}

/// After enabling a department, it and every department on its path are enabled, however long
/// the path is.
pub proof fn lemma_enable_reaches_ancestors(ds: Seq<DeptView>, id: i64)
    requires
        has_dept(ds, id),
    ensures
        forall|i: int|
            0 <= i < ds.len() && (ds[i].id == id || first_dept(ds, id).ancestors.contains(ds[i].id))
                ==> #[trigger] enabled_along(ds, id)[i].status == Status::Enabled,
        forall|i: int| 0 <= i < ds.len() ==> #[trigger] enabled_along(ds, id)[i].id == ds[i].id,
{
}

/// Whether some department names `id` as its parent.
pub open spec fn has_children(ds: Seq<DeptView>, id: i64) -> bool {
    exists|i: int| 0 <= i < ds.len() && #[trigger] ds[i].parent_id == id
}

/// Guards the removal of the department `id`: it must have no child department and no
/// assigned member (`member_count` members reference it).
pub fn can_delete(depts: &Vec<DeptNode>, id: i64, member_count: u64) -> (r: Result<(), AppError>)
    ensures
        has_children(dept_views(depts@), id) ==> r == Err::<(), AppError>(
            AppError::BusinessError(BusinessRule::HasChildNodes),
        ),
        !has_children(dept_views(depts@), id) && member_count > 0 ==> r == Err::<(), AppError>(
            AppError::BusinessError(BusinessRule::HasAssignedMembers),
        ),
        !has_children(dept_views(depts@), id) && member_count == 0 ==> r is Ok,
{
    let ghost ds = dept_views(depts@);
    let mut i: usize = 0;
    while i < depts.len()
        invariant
            i <= depts@.len(),
            ds == dept_views(depts@),
            forall|j: int| 0 <= j < i ==> #[trigger] ds[j].parent_id != id,
        decreases depts@.len() - i,
    {
        assert(ds[i as int] == depts@[i as int]@);
        if depts[i].parent_id == id {
            assert(ds[i as int].parent_id == id);
            return Err(AppError::BusinessError(BusinessRule::HasChildNodes));
        }
        i = i + 1;
    }
    if member_count > 0 {
        return Err(AppError::BusinessError(BusinessRule::HasAssignedMembers));
    }
    Ok(())
}


/// Whether `x` lies on the path of one of the listed departments.
pub open spec fn on_listed_path(ds: Seq<DeptView>, ids: Seq<i64>, x: i64) -> bool {
    exists|j: int|
        0 <= j < ids.len() && has_dept(ds, #[trigger] ids[j]) && first_dept(ds, ids[j]).ancestors.contains(x)
}

/// The departments after setting the listed ones to `status`. Enabling also enables every
/// department on the path of a listed one; disabling touches the listed ones alone.
pub open spec fn statuses_set(ds: Seq<DeptView>, ids: Seq<i64>, status: Status) -> Seq<DeptView> {
    Seq::new(
        ds.len(),
        |i: int|
            if ids.contains(ds[i].id) || (status == Status::Enabled && on_listed_path(
                ds,
                ids,
                ds[i].id,
            )) {
                DeptView { status, ..ds[i] }
            } else {
                ds[i]
            },
    )
}

/// Sets the listed departments to `status`, enabling their ancestors along when enabling.
pub fn update_status(depts: &mut Vec<DeptNode>, ids: &Vec<i64>, status: Status)
    ensures
        dept_views(final(depts)@) == statuses_set(dept_views(old(depts)@), ids@, status),
{
    let ghost ds = dept_views(depts@);
    let mut lifted: Vec<i64> = Vec::new();
    if status == Status::Enabled {
        let mut j: usize = 0;
        while j < ids.len()
            invariant
                j <= ids@.len(),
                ds == dept_views(depts@),
                forall|x: i64|
                    #[trigger] lifted@.contains(x) <==> exists|k: int|
                        0 <= k < j && has_dept(ds, #[trigger] ids@[k]) && first_dept(
                            ds,
                            ids@[k],
                        ).ancestors.contains(x),
            decreases ids@.len() - j,
        {
            let ghost l0 = lifted@;
            let ghost extra: Seq<i64> = Seq::empty();
            match find(depts, ids[j]) {
                Some(n) => {
                    assert(ds[n as int] == depts@[n as int]@);
                    let path = &depts[n].ancestors;
                    let mut q: usize = 0;
                    while q < path.len()
                        invariant
                            q <= path@.len(),
                            lifted@ == l0 + path@.subrange(0, q as int),
                        decreases path@.len() - q,
                    {
                        lifted.push(path[q]);
                        q = q + 1;
                        assert(lifted@ =~= l0 + path@.subrange(0, q as int));
                    }
                    assert(path@.subrange(0, q as int) =~= path@);
                    proof {
                        extra = path@;
                    }
                },
                None => {},
            }
            assert(lifted@ == l0 + extra);
            assert(extra == Seq::<i64>::empty() || (has_dept(ds, ids@[j as int]) && extra == first_dept(
                ds,
                ids@[j as int],
            ).ancestors));
            assert(!has_dept(ds, ids@[j as int]) ==> extra == Seq::<i64>::empty());
            j = j + 1;
            assert forall|x: i64| #[trigger] lifted@.contains(x) <==> exists|k: int|
                0 <= k < j && has_dept(ds, #[trigger] ids@[k]) && first_dept(
                    ds,
                    ids@[k],
                ).ancestors.contains(x) by {
                if lifted@.contains(x) {
                    let i = choose|i: int| 0 <= i < lifted@.len() && lifted@[i] == x;
                    if i < l0.len() {
                        assert(l0[i] == x);
                        assert(l0.contains(x));
                        let k = choose|k: int|
                            0 <= k < j - 1 && has_dept(ds, #[trigger] ids@[k]) && first_dept(
                                ds,
                                ids@[k],
                            ).ancestors.contains(x);
                        assert(0 <= k < j);
                    } else {
                        assert(extra[i - l0.len()] == x);
                        assert(extra.contains(x));
                        let k = j - 1;
                        assert(has_dept(ds, ids@[k]) && first_dept(ds, ids@[k]).ancestors.contains(
                            x,
                        ));
                    }
                }
                if exists|k: int|
                    0 <= k < j && has_dept(ds, #[trigger] ids@[k]) && first_dept(
                        ds,
                        ids@[k],
                    ).ancestors.contains(x) {
                    let k = choose|k: int|
                        0 <= k < j && has_dept(ds, #[trigger] ids@[k]) && first_dept(
                            ds,
                            ids@[k],
                        ).ancestors.contains(x);
                    if k < j - 1 {
                        assert(l0.contains(x));
                        let i = choose|i: int| 0 <= i < l0.len() && l0[i] == x;
                        assert(lifted@[i] == x);
                    } else {
                        let i = choose|i: int| 0 <= i < extra.len() && extra[i] == x;
                        assert(lifted@[l0.len() + i] == x);
                    }
                }
            }
        }
    }
    let ghost target = statuses_set(ds, ids@, status);
    let mut out: Vec<DeptNode> = Vec::new();
    let mut i: usize = 0;
    while i < depts.len()
        invariant
            i <= depts@.len(),
            ds == dept_views(depts@),
            target == statuses_set(ds, ids@, status),
            forall|x: i64|
                #[trigger] lifted@.contains(x) <==> (status == Status::Enabled && on_listed_path(
                    ds,
                    ids@,
                    x,
                )),
            dept_views(out@) == target.subrange(0, i as int),
        decreases depts@.len() - i,
    {
        let ghost o0 = dept_views(out@);
        let d = &depts[i];
        assert(ds[i as int] == d@);
        let mut e = d.clone();
        if contains_id(ids, d.id) || contains_id(&lifted, d.id) {
            e.status = status;
        }
        out.push(e);
        i = i + 1;
        assert(dept_views(out@) =~= o0.push(target[i - 1]));
        assert(target.subrange(0, i as int) =~= target.subrange(0, i - 1).push(target[i - 1]));
    }
    assert(target.subrange(0, i as int) =~= target);
    *depts = out;
}


/// Whether some department below `id` (one whose path holds `id`) is enabled.
pub open spec fn has_enabled_descendant(ds: Seq<DeptView>, id: i64) -> bool {
    exists|i: int|
        0 <= i < ds.len() && #[trigger] ds[i].ancestors.contains(id) && ds[i].status
            == Status::Enabled
}

/// Guards setting the department `id` to `status`: it cannot be disabled while a department
/// below it is enabled. Enabling is always allowed.
pub fn check_status_change(depts: &Vec<DeptNode>, id: i64, status: Status) -> (r: Result<
    (),
    AppError,
>)
    ensures
        status == Status::Disabled && has_enabled_descendant(dept_views(depts@), id) ==> r == Err::<
            (),
            AppError,
        >(AppError::BusinessError(BusinessRule::HasEnabledChildren)),
        !(status == Status::Disabled && has_enabled_descendant(dept_views(depts@), id)) ==> r is Ok,
{
    if status == Status::Enabled {
        return Ok(());
    }
    let ghost ds = dept_views(depts@);
    let mut i: usize = 0;
    while i < depts.len()
        invariant
            i <= depts@.len(),
            status == Status::Disabled,
            ds == dept_views(depts@),
            forall|j: int|
                0 <= j < i ==> !(#[trigger] ds[j].ancestors.contains(id) && ds[j].status
                    == Status::Enabled),
        decreases depts@.len() - i,
    {
        assert(ds[i as int] == depts@[i as int]@);
        if depts[i].status == Status::Enabled && contains_id(&depts[i].ancestors, id) {
            assert(ds[i as int].ancestors.contains(id) && ds[i as int].status == Status::Enabled);
            return Err(AppError::BusinessError(BusinessRule::HasEnabledChildren));
        }
        i = i + 1;
    }
    Ok(())
}

} // verus!
