use rust_admin::menu::build;
use rust_admin::model::{MenuNode, MenuType, RoleAssignment, RoleMenuAssignment, Status, ROOT_PARENT_ID};

fn menu(id: i64, parent_id: i64, api_url: &str, menu_type: MenuType) -> MenuNode {
    MenuNode {
        id,
        parent_id,
        name: format!("menu{}", id),
        path: format!("/m{}", id),
        icon: String::new(),
        api_url: api_url.to_string(),
        menu_type,
        visible: true,
        status: Status::Enabled,
    }
}

fn menus() -> Vec<MenuNode> {
    vec![
        menu(1, 0, "", MenuType::Directory),
        menu(2, 1, "", MenuType::Directory),
        menu(3, 2, "/post/list", MenuType::Page),
        menu(4, 3, "/post/add", MenuType::Button),
        menu(5, 0, "/user/list", MenuType::Page),
        menu(6, 5, "/user/add", MenuType::Button),
    ]
}

fn ids(tree: &[MenuNode]) -> Vec<i64> {
    tree.iter().map(|m| m.id).collect()
}

fn assert_closed(tree: &[MenuNode]) {
    for node in tree {
        assert!(node.parent_id == ROOT_PARENT_ID || tree.iter().any(|p| p.id == node.parent_id));
    }
}

#[test]
fn deep_page_brings_all_ancestors() {
    let roles = vec![RoleAssignment { user_id: 9, role_id: 2 }];
    let grants = vec![
        RoleMenuAssignment { role_id: 2, menu_id: 3 },
        RoleMenuAssignment { role_id: 2, menu_id: 4 },
    ];
    let t = build(9, &roles, &grants, &menus());
    assert_eq!(ids(&t.tree), vec![1, 2, 3]);
    assert_closed(&t.tree);
    let mut urls = t.permission_urls.clone();
    urls.sort();
    assert_eq!(urls, vec!["/post/add", "/post/list"]);
}

#[test]
fn buttons_give_paths_but_no_tree_nodes() {
    let roles = vec![RoleAssignment { user_id: 9, role_id: 2 }];
    let grants = vec![RoleMenuAssignment { role_id: 2, menu_id: 6 }];
    let t = build(9, &roles, &grants, &menus());
    assert!(t.tree.is_empty());
    assert_eq!(t.permission_urls, vec!["/user/add".to_string()]);
}

#[test]
fn superadmin_sees_the_whole_tree() {
    let roles = vec![RoleAssignment { user_id: 1, role_id: 1 }];
    let t = build(1, &roles, &Vec::new(), &menus());
    assert_eq!(ids(&t.tree), vec![1, 2, 3, 5]);
    assert_closed(&t.tree);
    assert_eq!(t.permission_urls.len(), 4);
}

#[test]
fn user_without_roles_gets_empty_tree() {
    let t = build(5, &Vec::new(), &Vec::new(), &menus());
    assert!(t.tree.is_empty());
    assert!(t.permission_urls.is_empty());
}

#[test]
fn tree_keeps_input_order() {
    let mut m = menus();
    m.reverse();
    let roles = vec![RoleAssignment { user_id: 9, role_id: 2 }];
    let grants = vec![RoleMenuAssignment { role_id: 2, menu_id: 3 }];
    let t = build(9, &roles, &grants, &m);
    assert_eq!(ids(&t.tree), vec![3, 2, 1]);
}

#[test]
fn invisible_records_keep_paths_but_not_tree_nodes() {
    let mut m = menus();
    m[4].visible = false; // page 5, "/user/list"
    let roles = vec![RoleAssignment { user_id: 9, role_id: 2 }];
    let grants = vec![RoleMenuAssignment { role_id: 2, menu_id: 5 }, RoleMenuAssignment { role_id: 2, menu_id: 3 }];
    let t = build(9, &roles, &grants, &m);
    assert_eq!(ids(&t.tree), vec![1, 2, 3]);
    let mut urls = t.permission_urls.clone();
    urls.sort();
    assert_eq!(urls, vec!["/post/list", "/user/list"]);
}

#[test]
fn one_record_per_id() {
    let mut m = menus();
    let mut twin = menu(2, 1, "", MenuType::Directory);
    twin.name = "twin".to_string();
    m.push(twin);
    let roles = vec![RoleAssignment { user_id: 9, role_id: 2 }];
    let grants = vec![RoleMenuAssignment { role_id: 2, menu_id: 3 }];
    let t = build(9, &roles, &grants, &m);
    assert_eq!(ids(&t.tree), vec![1, 2, 3]);
    assert_eq!(t.tree[1].name, "menu2");
}
