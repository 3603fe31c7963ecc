use rust_admin::dept::{can_delete, check_status_change, on_create, on_enable, on_move, update_status, DeptNode};
use rust_admin::error::{AppError, BusinessRule, ValidationRule};
use rust_admin::model::Status;

fn dept(id: i64, parent_id: i64, ancestors: &[i64], status: Status) -> DeptNode {
    DeptNode { id, parent_id, ancestors: ancestors.to_vec(), status }
}

fn find(ds: &[DeptNode], id: i64) -> &DeptNode {
    ds.iter().find(|d| d.id == id).unwrap()
}

fn chain() -> Vec<DeptNode> {
    vec![
        dept(1, 0, &[], Status::Disabled),
        dept(2, 1, &[1], Status::Disabled),
        dept(3, 2, &[1, 2], Status::Disabled),
    ]
}

#[test]
fn enable_cascades_up_the_chain() {
    let mut ds = chain();
    assert_eq!(on_enable(&mut ds, 3), Ok(()));
    assert!(ds.iter().all(|d| d.status == Status::Enabled));
}

#[test]
fn enable_leaves_other_branches() {
    let mut ds = chain();
    ds.push(dept(4, 1, &[1], Status::Disabled));
    assert_eq!(on_enable(&mut ds, 2), Ok(()));
    assert_eq!(find(&ds, 1).status, Status::Enabled);
    assert_eq!(find(&ds, 2).status, Status::Enabled);
    assert_eq!(find(&ds, 3).status, Status::Disabled);
    assert_eq!(find(&ds, 4).status, Status::Disabled);
}

#[test]
fn enable_unknown_department() {
    let mut ds = chain();
    assert_eq!(on_enable(&mut ds, 9), Err(AppError::NotFoundError));
    assert_eq!(ds.len(), 3);
}

#[test]
fn move_rewrites_the_subtree() {
    let mut ds = chain();
    ds.push(dept(4, 0, &[], Status::Enabled));
    assert_eq!(on_move(&mut ds, 2, 4), Ok(()));
    let b = find(&ds, 2);
    assert_eq!(b.parent_id, 4);
    assert_eq!(b.ancestors, vec![4]);
    assert_eq!(find(&ds, 3).ancestors, vec![4, 2]);
    assert_eq!(find(&ds, 1).ancestors, Vec::<i64>::new());
    assert_eq!(find(&ds, 4).ancestors, Vec::<i64>::new());
}

#[test]
fn move_below_deep_parent() {
    let mut ds = chain();
    ds.push(dept(4, 0, &[], Status::Enabled));
    ds.push(dept(5, 4, &[4], Status::Enabled));
    ds.push(dept(6, 3, &[1, 2, 3], Status::Enabled));
    assert_eq!(on_move(&mut ds, 2, 5), Ok(()));
    assert_eq!(find(&ds, 2).ancestors, vec![4, 5]);
    assert_eq!(find(&ds, 3).ancestors, vec![4, 5, 2]);
    assert_eq!(find(&ds, 6).ancestors, vec![4, 5, 2, 3]);
}

#[test]
fn move_refusals_change_nothing() {
    let mut ds = chain();
    assert_eq!(on_move(&mut ds, 2, 2), Err(AppError::ValidationError(ValidationRule::SelfAsParent)));
    assert_eq!(on_move(&mut ds, 9, 1), Err(AppError::NotFoundError));
    assert_eq!(on_move(&mut ds, 2, 9), Err(AppError::ValidationError(ValidationRule::ParentMissing)));
    assert_eq!(on_move(&mut ds, 1, 3), Err(AppError::ValidationError(ValidationRule::ParentIsDescendant)));
    assert_eq!(find(&ds, 3).ancestors, vec![1, 2]);
    assert_eq!(find(&ds, 2).parent_id, 1);
}

#[test]
fn create_below_enabled_parent() {
    let ds = vec![dept(1, 0, &[], Status::Enabled), dept(2, 1, &[1], Status::Enabled)];
    let d = on_create(&ds, 7, 2, Status::Enabled).unwrap();
    assert_eq!(d.id, 7);
    assert_eq!(d.parent_id, 2);
    assert_eq!(d.ancestors, vec![1, 2]);
}

#[test]
fn create_refusals() {
    let ds = chain();
    assert_eq!(
        on_create(&ds, 7, 2, Status::Enabled).err(),
        Some(AppError::ValidationError(ValidationRule::ParentDisabled))
    );
    assert_eq!(
        on_create(&ds, 7, 42, Status::Enabled).err(),
        Some(AppError::ValidationError(ValidationRule::ParentMissing))
    );
}

#[test]
fn delete_guard() {
    let ds = chain();
    assert_eq!(can_delete(&ds, 2, 0), Err(AppError::BusinessError(BusinessRule::HasChildNodes)));
    assert_eq!(can_delete(&ds, 2, 5), Err(AppError::BusinessError(BusinessRule::HasChildNodes)));
    assert_eq!(can_delete(&ds, 3, 1), Err(AppError::BusinessError(BusinessRule::HasAssignedMembers)));
    assert_eq!(can_delete(&ds, 3, 0), Ok(()));
}

#[test]
fn bulk_enable_lifts_ancestors() {
    let mut ds = chain();
    ds.push(dept(4, 0, &[], Status::Disabled));
    update_status(&mut ds, &vec![3], Status::Enabled);
    assert_eq!(find(&ds, 1).status, Status::Enabled);
    assert_eq!(find(&ds, 2).status, Status::Enabled);
    assert_eq!(find(&ds, 3).status, Status::Enabled);
    assert_eq!(find(&ds, 4).status, Status::Disabled);
}

#[test]
fn bulk_disable_touches_listed_only() {
    let mut ds = chain();
    update_status(&mut ds, &vec![1, 2, 3], Status::Enabled);
    update_status(&mut ds, &vec![2], Status::Disabled);
    assert_eq!(find(&ds, 1).status, Status::Enabled);
    assert_eq!(find(&ds, 2).status, Status::Disabled);
    assert_eq!(find(&ds, 3).status, Status::Enabled);
}

#[test]
fn clone_keeps_fields() {
    let d = dept(3, 2, &[1, 2], Status::Enabled);
    let c = d.clone();
    assert_eq!((c.id, c.parent_id, c.ancestors, c.status), (3, 2, vec![1, 2], Status::Enabled));
}

#[test]
fn enable_then_move_scenario() {
    let mut ds = chain();
    assert_eq!(on_enable(&mut ds, 3), Ok(()));
    for id in [1, 2, 3] {
        assert_eq!(find(&ds, id).status, Status::Enabled);
    }
    ds.push(dept(4, 1, &[1], Status::Enabled));
    assert_eq!(on_move(&mut ds, 2, 4), Ok(()));
    assert_eq!(find(&ds, 2).ancestors, vec![1, 4]);
    assert_eq!(find(&ds, 3).ancestors, vec![1, 4, 2]);
    assert!(find(&ds, 3).ancestors.contains(&4));
}

#[test]
fn disabling_needs_disabled_descendants() {
    let mut ds = chain();
    update_status(&mut ds, &vec![3], Status::Enabled);
    assert_eq!(
        check_status_change(&ds, 1, Status::Disabled),
        Err(AppError::BusinessError(BusinessRule::HasEnabledChildren))
    );
    assert_eq!(
        check_status_change(&ds, 2, Status::Disabled),
        Err(AppError::BusinessError(BusinessRule::HasEnabledChildren))
    );
    assert_eq!(check_status_change(&ds, 3, Status::Disabled), Ok(()));
    assert_eq!(check_status_change(&ds, 1, Status::Enabled), Ok(()));
    update_status(&mut ds, &vec![2, 3], Status::Disabled);
    assert_eq!(check_status_change(&ds, 1, Status::Disabled), Ok(()));
    assert_eq!(
        AppError::BusinessError(BusinessRule::HasEnabledChildren).message(),
        "该部门包含未停用的子部门"
    );
    assert_eq!(AppError::ValidationError(ValidationRule::DuplicateName).message(), "部门名称已存在");
}
