use rust_admin::error::{AppError, AuthFailure, BusinessRule, TokenError, ValidationRule};
use rust_admin::response::{err_result_msg, ok_result, ok_result_data, ok_result_msg, ok_result_page, ResponsePage};

#[test]
fn success_envelopes() {
    let r = ok_result();
    assert_eq!((r.code, r.msg.as_str(), r.data), (0, "操作成功", None));
    let r = ok_result_msg("done");
    assert_eq!((r.code, r.msg.as_str()), (0, "done"));
    let r = err_result_msg("bad");
    assert_eq!((r.code, r.msg.as_str()), (1, "bad"));
    let r = ok_result_data(5u8);
    assert_eq!((r.code, r.data), (0, Some(5)));
    let p = ok_result_page(vec![1, 2], 9);
    assert_eq!((p.code, p.total, p.success, p.data), (0, 9, true, Some(vec![1, 2])));
}

#[test]
fn page_envelopes() {
    let p = ResponsePage::ok_result_page("x", 3);
    assert_eq!((p.code, p.total, p.success, p.msg.as_str()), (0, 3, true, "操作成功"));
    let p = ResponsePage::ok_result("x");
    assert_eq!((p.code, p.total, p.success), (0, 0, true));
    let p = ResponsePage::err_result_page("x", "oops".to_string());
    assert_eq!((p.code, p.total, p.success, p.msg.as_str()), (1, 0, false, "oops"));
}

#[test]
fn error_texts_and_codes() {
    let e = AppError::AuthenticationError(AuthFailure::EmptyCredential);
    assert_eq!((e.code(), e.message().as_str()), (2, "token不能为空"));
    let e = AppError::AuthenticationError(AuthFailure::Token(TokenError::Expired));
    assert_eq!((e.code(), e.message().as_str()), (2, "token has expired"));
    let e = AppError::AuthorizationError;
    assert_eq!((e.code(), e.message().as_str()), (1, "无权限访问"));
    let e = AppError::BusinessError(BusinessRule::HasChildNodes);
    assert_eq!(e.message(), "存在下级部门,不允许删除");
    let e = AppError::ValidationError(ValidationRule::SelfAsParent);
    assert_eq!(e.message(), "上级部门不能是自己");
    assert_eq!(AppError::NotFoundError.code(), 1);
}
