use rust_admin::auth::{Auth, Decision};
use rust_admin::error::{AppError, AuthFailure, TokenError};
use rust_admin::model::{MenuNode, MenuType, RoleAssignment, RoleMenuAssignment, Status};
use rust_admin::permission::resolve;
use rust_admin::token::Claims;

const SECRET: &str = "shared-secret";
const LOGIN: &str = "/api/system/user/login";

fn gate() -> rust_admin::auth::AuthMiddleware<()> {
    Auth::new(SECRET.to_string(), LOGIN.to_string()).new_transform(())
}

fn menu(id: i64, api_url: &str) -> MenuNode {
    MenuNode {
        id,
        parent_id: 0,
        name: String::new(),
        path: String::new(),
        icon: String::new(),
        api_url: api_url.to_string(),
        menu_type: MenuType::Button,
        visible: true,
        status: Status::Enabled,
    }
}

fn token_for(id: i64, permissions: &[&str], issued_at: u64, ttl: u64) -> String {
    let p = permissions.iter().map(|s| s.to_string()).collect();
    Claims::new(id, "user".to_string(), p, issued_at, ttl).create_token(SECRET)
}

#[test]
fn editor_scenario_requests() {
    let alice = 100;
    let roles = vec![RoleAssignment { user_id: alice, role_id: 7 }];
    let grants = vec![RoleMenuAssignment { role_id: 7, menu_id: 1 }, RoleMenuAssignment { role_id: 7, menu_id: 2 }];
    let menus = vec![menu(1, "/post/add"), menu(2, "/post/list"), menu(3, "/post/delete")];
    let mut perms = resolve(alice, &roles, &grants, &menus);
    perms.sort();
    assert_eq!(perms, vec!["/post/add", "/post/list"]);
    let token = Claims::new(alice, "Alice".to_string(), perms, 1000, 3600).create_token(SECRET);
    let header = format!("Bearer {}", token);
    let g = gate();
    assert_eq!(g.call("/post/delete", Some(&header), 1500), Decision::Reject(AppError::AuthorizationError));
    assert_eq!(g.call("/post/add", Some(&header), 1500), Decision::Forward { subject_id: Some(alice) });
}

#[test]
fn login_path_passes_without_credential() {
    assert_eq!(gate().call(LOGIN, None, 0), Decision::Forward { subject_id: None });
}

#[test]
fn missing_or_empty_credential() {
    let empty = Decision::Reject(AppError::AuthenticationError(AuthFailure::EmptyCredential));
    assert_eq!(gate().call("/x", None, 0), empty);
    assert_eq!(gate().call("/x", Some(""), 0), empty);
}

#[test]
fn bad_format() {
    let bad = Decision::Reject(AppError::AuthenticationError(AuthFailure::BadFormat));
    let token = token_for(1, &["/x"], 0, 100);
    assert_eq!(gate().call("/x", Some(&token), 1), bad);
    assert_eq!(gate().call("/x", Some("Bearer "), 1), bad);
    assert_eq!(gate().call("/x", Some(&format!("Basic {}", token)), 1), bad);
    assert_eq!(gate().call("/x", Some(&format!("Bearer {} extra", token)), 1), bad);
    assert_eq!(gate().call("/x", Some(&format!("bearer {}", token)), 1), bad);
}

#[test]
fn token_failures_are_propagated() {
    let token = token_for(1, &["/x"], 0, 100);
    assert_eq!(
        gate().call("/x", Some(&format!("Bearer {}", token)), 101),
        Decision::Reject(AppError::AuthenticationError(AuthFailure::Token(TokenError::Expired)))
    );
    let foreign = Claims::new(1, "u".to_string(), vec!["/x".to_string()], 0, 100).create_token("other");
    assert_eq!(
        gate().call("/x", Some(&format!("Bearer {}", foreign)), 1),
        Decision::Reject(AppError::AuthenticationError(AuthFailure::Token(TokenError::SignatureInvalid)))
    );
    assert_eq!(
        gate().call("/x", Some("Bearer 0.1"), 1),
        Decision::Reject(AppError::AuthenticationError(AuthFailure::Token(TokenError::Malformed)))
    );
}

#[test]
fn permission_match_is_exact() {
    let token = token_for(5, &["/post/add"], 0, 100);
    let header = format!("Bearer {}", token);
    assert_eq!(gate().call("/post/add/", Some(&header), 1), Decision::Reject(AppError::AuthorizationError));
    assert_eq!(gate().call("/post/ad", Some(&header), 1), Decision::Reject(AppError::AuthorizationError));
    assert_eq!(gate().call("/post/add", Some(&header), 1), Decision::Forward { subject_id: Some(5) });
}

#[test]
fn middleware_keeps_service_and_settings() {
    let auth = Auth::new("k".to_string(), "/login".to_string());
    let m = auth.new_transform(17u8);
    assert_eq!(m.service, 17);
    assert_eq!(m.auth.secret, "k");
    assert_eq!(m.auth.login_path, "/login");
}

#[test]
fn header_is_split_on_any_white_space() {
    let token = token_for(6, &["/x"], 0, 100);
    let forward = Decision::Forward { subject_id: Some(6) };
    let bad = Decision::Reject(AppError::AuthenticationError(AuthFailure::BadFormat));
    assert_eq!(gate().call("/x", Some(&format!("Bearer  {}", token)), 1), forward);
    assert_eq!(gate().call("/x", Some(&format!("Bearer {} ", token)), 1), forward);
    assert_eq!(gate().call("/x", Some(&format!("  Bearer\t{}\r\n", token)), 1), forward);
    assert_eq!(gate().call("/x", Some(&format!("Bearer\u{3000}{}", token)), 1), forward);
    assert_eq!(gate().call("/x", Some("Bearer a\nb"), 1), bad);
    assert_eq!(gate().call("/x", Some(&format!("Bearer {}\u{a0}x", token)), 1), bad);
    assert_eq!(gate().call("/x", Some("   "), 1), bad);
}
