use rust_admin::model::{MenuNode, MenuType, RoleAssignment, RoleMenuAssignment, Status};
use rust_admin::error::{AppError, BusinessRule};
use rust_admin::permission::{
    check_role_menu_edit, contains_text, grants_menu, has_role, is_superadmin, resolve, role_menu_ids, SUPERADMIN_ROLE_ID,
};

fn menu(id: i64, parent_id: i64, api_url: &str, menu_type: MenuType, status: Status) -> MenuNode {
    MenuNode {
        id,
        parent_id,
        name: format!("menu{}", id),
        path: String::new(),
        icon: String::new(),
        api_url: api_url.to_string(),
        menu_type,
        visible: true,
        status,
    }
}

fn sample_menus() -> Vec<MenuNode> {
    vec![
        menu(10, 0, "", MenuType::Directory, Status::Enabled),
        menu(11, 10, "/post/list", MenuType::Page, Status::Enabled),
        menu(12, 11, "/post/add", MenuType::Button, Status::Enabled),
        menu(13, 11, "/post/delete", MenuType::Button, Status::Disabled),
        menu(14, 10, "/user/list", MenuType::Page, Status::Enabled),
    ]
}

fn sorted(mut v: Vec<String>) -> Vec<String> {
    v.sort();
    v
}

#[test]
fn user_without_roles_gets_nothing() {
    let roles = vec![RoleAssignment { user_id: 2, role_id: 5 }];
    let grants = vec![RoleMenuAssignment { role_id: 5, menu_id: 11 }];
    assert!(resolve(7, &roles, &grants, &sample_menus()).is_empty());
    assert!(resolve(7, &Vec::new(), &Vec::new(), &Vec::new()).is_empty());
}

#[test]
fn superadmin_gets_every_non_empty_path() {
    let roles = vec![RoleAssignment { user_id: 1, role_id: SUPERADMIN_ROLE_ID }];
    let got = resolve(1, &roles, &Vec::new(), &sample_menus());
    assert_eq!(sorted(got), vec!["/post/add", "/post/delete", "/post/list", "/user/list"]);
}

#[test]
fn editor_scenario_resolves_granted_paths() {
    let alice = 100;
    let editor = 7;
    let roles = vec![RoleAssignment { user_id: alice, role_id: editor }];
    let grants = vec![
        RoleMenuAssignment { role_id: editor, menu_id: 11 },
        RoleMenuAssignment { role_id: editor, menu_id: 12 },
    ];
    let got = resolve(alice, &roles, &grants, &sample_menus());
    assert_eq!(sorted(got), vec!["/post/add", "/post/list"]);
}

#[test]
fn duplicate_paths_collapse_across_roles() {
    let roles = vec![RoleAssignment { user_id: 3, role_id: 4 }, RoleAssignment { user_id: 3, role_id: 5 }];
    let grants = vec![
        RoleMenuAssignment { role_id: 4, menu_id: 11 },
        RoleMenuAssignment { role_id: 5, menu_id: 11 },
        RoleMenuAssignment { role_id: 5, menu_id: 20 },
    ];
    let mut menus = sample_menus();
    menus.push(menu(20, 10, "/post/list", MenuType::Page, Status::Enabled));
    assert_eq!(resolve(3, &roles, &grants, &menus), vec!["/post/list".to_string()]);
}

#[test]
fn directories_without_path_grant_nothing() {
    let roles = vec![RoleAssignment { user_id: 3, role_id: 4 }];
    let grants = vec![RoleMenuAssignment { role_id: 4, menu_id: 10 }];
    assert!(resolve(3, &roles, &grants, &sample_menus()).is_empty());
}

#[test]
fn disabled_menus_still_grant() {
    let roles = vec![RoleAssignment { user_id: 3, role_id: 4 }];
    let grants = vec![RoleMenuAssignment { role_id: 4, menu_id: 13 }];
    assert_eq!(resolve(3, &roles, &grants, &sample_menus()), vec!["/post/delete".to_string()]);
}

#[test]
fn role_lookups() {
    let roles = vec![RoleAssignment { user_id: 3, role_id: 4 }, RoleAssignment { user_id: 1, role_id: 1 }];
    assert!(has_role(3, 4, &roles));
    assert!(!has_role(3, 1, &roles));
    assert!(is_superadmin(1, &roles));
    assert!(!is_superadmin(3, &roles));
    let grants = vec![RoleMenuAssignment { role_id: 4, menu_id: 9 }];
    assert!(grants_menu(3, 9, &roles, &grants));
    assert!(!grants_menu(1, 9, &roles, &grants));
    let v = vec!["a".to_string(), "b".to_string()];
    assert!(contains_text(&v, &"b".to_string()));
    assert!(!contains_text(&v, &"c".to_string()));
}

#[test]
fn role_menu_listing() {
    let grants = vec![
        RoleMenuAssignment { role_id: 4, menu_id: 13 },
        RoleMenuAssignment { role_id: 5, menu_id: 11 },
        RoleMenuAssignment { role_id: 4, menu_id: 10 },
    ];
    assert_eq!(role_menu_ids(4, &grants, &sample_menus()), vec![13, 10]);
    assert_eq!(role_menu_ids(9, &grants, &sample_menus()), Vec::<i64>::new());
    assert_eq!(role_menu_ids(SUPERADMIN_ROLE_ID, &grants, &sample_menus()), vec![10, 11, 12, 13, 14]);
}

#[test]
fn superadmin_role_grants_are_locked() {
    assert_eq!(
        check_role_menu_edit(SUPERADMIN_ROLE_ID),
        Err(AppError::BusinessError(BusinessRule::SuperadminRoleLocked))
    );
    assert_eq!(check_role_menu_edit(2), Ok(()));
    assert_eq!(
        AppError::BusinessError(BusinessRule::SuperadminRoleLocked).message(),
        "不允许操作超级管理员角色"
    );
}
