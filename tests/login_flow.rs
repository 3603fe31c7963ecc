use rust_admin::error::{AppError, BusinessRule};
use rust_admin::login::{login, LoginUser};
use rust_admin::model::{MenuNode, MenuType, RoleAssignment, RoleMenuAssignment, Status};
use rust_admin::token::Claims;

fn menus() -> Vec<MenuNode> {
    vec![MenuNode {
        id: 1,
        parent_id: 0,
        name: "posts".to_string(),
        path: String::new(),
        icon: String::new(),
        api_url: "/post/list".to_string(),
        menu_type: MenuType::Page,
        visible: true,
        status: Status::Enabled,
    }]
}

fn user() -> LoginUser {
    LoginUser { id: 8, user_name: "carol".to_string(), password: "pw".to_string() }
}

#[test]
fn unknown_user() {
    let r = login(None, "pw", &Vec::new(), &Vec::new(), &menus(), "k", 0, 60);
    assert_eq!(r, Err(AppError::BusinessError(BusinessRule::UserNotFound)));
}

#[test]
fn wrong_password() {
    let u = user();
    let r = login(Some(&u), "nope", &Vec::new(), &Vec::new(), &menus(), "k", 0, 60);
    assert_eq!(r, Err(AppError::BusinessError(BusinessRule::WrongPassword)));
}

#[test]
fn no_permission_cannot_log_in() {
    let u = user();
    let r = login(Some(&u), "pw", &Vec::new(), &Vec::new(), &menus(), "k", 0, 60);
    assert_eq!(r, Err(AppError::BusinessError(BusinessRule::NoPermissions)));
}

#[test]
fn successful_login_issues_token() {
    let u = user();
    let roles = vec![RoleAssignment { user_id: 8, role_id: 3 }];
    let grants = vec![RoleMenuAssignment { role_id: 3, menu_id: 1 }];
    let token = login(Some(&u), "pw", &roles, &grants, &menus(), "k", 100, 60).unwrap();
    let c = Claims::verify("k", &token, 120).unwrap();
    assert_eq!(c.subject_id, 8);
    assert_eq!(c.subject_name, "carol");
    assert_eq!(c.permissions, vec!["/post/list".to_string()]);
    assert_eq!(c.issued_at, 100);
    assert_eq!(c.expires_at, 160);
}
