use vstd::prelude::*;
use vstd::string::*;

verus! {

/// Why a credential could not be verified.
#[derive(Debug, Clone, Copy, PartialEq, Eq, Structural)]
pub enum TokenError {
    /// The credential cannot be parsed.
    Malformed,
    /// The signature does not match the claims under the configured secret.
    SignatureInvalid,
    /// The current time is past the credential's expiry.
    Expired,
}

/// Why a request failed authentication.
#[derive(Debug, Clone, Copy, PartialEq, Eq, Structural)]
pub enum AuthFailure {
    /// No credential was presented.
    EmptyCredential,
    /// The credential is not of the form `Bearer <token>`.
    BadFormat,
    /// The token was rejected by verification.
    Token(TokenError),
}

/// A business rule that an operation violated.
#[derive(Debug, Clone, Copy, PartialEq, Eq, Structural)]
pub enum BusinessRule {
    /// The node still has child nodes.
    HasChildNodes,
    /// Members are still assigned to the node.
    HasAssignedMembers,
    /// No user has the given login.
    UserNotFound,
    /// The password does not match.
    WrongPassword,
    /// The user holds no permission at all and may not log in.
    NoPermissions,
    /// The grants of the superadmin role cannot be edited.
    SuperadminRoleLocked,
    /// A department cannot be disabled while a department below it is enabled.
    HasEnabledChildren,
}

/// A validation rule that an input violated.
#[derive(Debug, Clone, Copy, PartialEq, Eq, Structural)]
pub enum ValidationRule {
    /// The referenced parent node does not exist.
    ParentMissing,
    /// The referenced parent node is disabled.
    ParentDisabled,
    /// A node cannot become its own parent.
    SelfAsParent,
    /// A node cannot be moved below one of its own descendants.
    ParentIsDescendant,
    /// The name is already used by a sibling.
    DuplicateName,
}

/// The error taxonomy of the authorization core.
#[derive(Debug, Clone, Copy, PartialEq, Eq, Structural)]
pub enum AppError {
    /// Missing, malformed, expired or forged credential.
    AuthenticationError(AuthFailure),
    /// Valid identity, but the requested path is not in the permission snapshot.
    AuthorizationError,
    /// A business-rule violation on the input.
    ValidationError(ValidationRule),
    /// A structural guard failed.
    BusinessError(BusinessRule),
    /// The referenced entity does not exist.
    NotFoundError,
}

/// The result of an operation of the authorization core.
pub type AppResult<T> = Result<T, AppError>;


/// The text shown for an error.
pub open spec fn message_of(e: AppError) -> Seq<char> {
    match e {
        AppError::AuthenticationError(f) => match f {
            AuthFailure::EmptyCredential => "token不能为空"@,
            AuthFailure::BadFormat => "the token format wrong"@,
            AuthFailure::Token(t) => match t {
                TokenError::Malformed => "token is malformed"@,
                TokenError::SignatureInvalid => "token signature is invalid"@,
                TokenError::Expired => "token has expired"@,
            },
        },
        AppError::AuthorizationError => "无权限访问"@,
        AppError::ValidationError(v) => match v {
            ValidationRule::ParentMissing => "上级部门不存在"@,
            ValidationRule::ParentDisabled => "部门停用，不允许添加"@,
            ValidationRule::SelfAsParent => "上级部门不能是自己"@,
            ValidationRule::ParentIsDescendant => "上级部门不能是自己的下级部门"@,
            ValidationRule::DuplicateName => "部门名称已存在"@,
        },
        AppError::BusinessError(b) => match b {
            BusinessRule::HasChildNodes => "存在下级部门,不允许删除"@,
            BusinessRule::HasAssignedMembers => "部门存在用户,不允许删除"@,
            BusinessRule::UserNotFound => "用户不存在"@,
            BusinessRule::WrongPassword => "密码不正确"@,
            BusinessRule::NoPermissions => "用户没有分配角色或者菜单,不能登录"@,
            BusinessRule::SuperadminRoleLocked => "不允许操作超级管理员角色"@,
            BusinessRule::HasEnabledChildren => "该部门包含未停用的子部门"@,
        },
        AppError::NotFoundError => "记录不存在"@,
    }
}

impl AppError {
    /// The text shown for this error.
    pub fn message(&self) -> (r: String)
        ensures
            r@ == message_of(*self),
    {
        let s: &str = match self {
            AppError::AuthenticationError(f) => match f {
                AuthFailure::EmptyCredential => "token不能为空",
                AuthFailure::BadFormat => "the token format wrong",
                AuthFailure::Token(t) => match t {
                    TokenError::Malformed => "token is malformed",
                    TokenError::SignatureInvalid => "token signature is invalid",
                    TokenError::Expired => "token has expired",
                },
            },
            AppError::AuthorizationError => "无权限访问",
            AppError::ValidationError(v) => match v {
                ValidationRule::ParentMissing => "上级部门不存在",
                ValidationRule::ParentDisabled => "部门停用，不允许添加",
                ValidationRule::SelfAsParent => "上级部门不能是自己",
                ValidationRule::ParentIsDescendant => "上级部门不能是自己的下级部门",
                ValidationRule::DuplicateName => "部门名称已存在",
            },
            AppError::BusinessError(b) => match b {
                BusinessRule::HasChildNodes => "存在下级部门,不允许删除",
                BusinessRule::HasAssignedMembers => "部门存在用户,不允许删除",
                BusinessRule::UserNotFound => "用户不存在",
                BusinessRule::WrongPassword => "密码不正确",
                BusinessRule::NoPermissions => "用户没有分配角色或者菜单,不能登录",
                BusinessRule::SuperadminRoleLocked => "不允许操作超级管理员角色",
                BusinessRule::HasEnabledChildren => "该部门包含未停用的子部门",
            },
            AppError::NotFoundError => "记录不存在",
        };
        s.to_owned()
    }

    /// The response code for this error: 2 when the credential is at fault, 1 otherwise.
    pub fn code(&self) -> (r: i32)
        ensures
            r == if self is AuthenticationError {
                2i32
            } else {
                1i32
            },
    {
        match self {
            AppError::AuthenticationError(_) => 2,
            _ => 1,
        }
    }
}

} // verus!
