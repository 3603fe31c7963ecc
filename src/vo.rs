//! Request and response shapes of the menu and user endpoints.
use vstd::prelude::*;

verus! {

#[derive(Debug)]
pub struct MenuListReq {
    pub menu_name: Option<String>,
}

#[derive(Debug)]
pub struct MenuListResp {
    pub msg: String,
    pub code: i32,
    pub total: u64,
    pub data: Option<Vec<MenuListData>>,
}

#[derive(Debug)]
pub struct MenuListData {
    pub id: i32,
    pub sort: i32,
    pub status_id: i32,
    pub parent_id: i32,
    pub menu_name: String,
    pub label: String,
    pub menu_url: String,
    pub icon: String,
    pub api_url: String,
    pub remark: String,
    pub menu_type: i32,
    pub create_time: String,
    pub update_time: String,
}

#[derive(Debug)]
pub struct MenuSaveReq {
    pub sort: i32,
    pub status_id: i32,
    pub parent_id: Option<i32>,
    pub menu_name: String,
    pub menu_url: Option<String>,
    pub icon: Option<String>,
    pub api_url: Option<String>,
    pub remark: Option<String>,
    pub menu_type: i32,
}

#[derive(Debug)]
pub struct MenuUpdateReq {
    pub id: i32,
    pub sort: i32,
    pub status_id: i32,
    pub parent_id: i32,
    pub menu_name: String,
    pub menu_url: Option<String>,
    pub icon: Option<String>,
    pub api_url: Option<String>,
    pub remark: Option<String>,
    pub menu_type: i32,
}

#[derive(Debug)]
pub struct MenuDeleteReq {
    pub id: i32,
}

#[derive(Debug)]
pub struct UserLoginReq {
    pub mobile: String,
    pub password: String,
}

#[derive(Debug)]
pub struct UserLoginResp {
    pub msg: String,
    pub code: i32,
    pub status: String,
    pub data: Option<UserLoginData>,
}

#[derive(Debug)]
pub struct UserLoginData {
    pub mobile: String,
    pub token: String,
}

#[derive(Debug)]
pub struct QueryUserMenuReq {
    pub token: String,
}

#[derive(Debug)]
pub struct QueryUserMenuResp {
    pub msg: String,
    pub code: i32,
    pub data: QueryUserMenuData,
    pub success: bool,
}

#[derive(Debug)]
pub struct QueryUserMenuData {
    pub sys_menu: Vec<MenuUserList>,
    pub btn_menu: Vec<String>,
    pub avatar: String,
    pub name: String,
}

#[derive(Debug)]
pub struct MenuUserList {
    pub id: i32,
    pub parent_id: i32,
    pub name: String,
    pub path: String,
    pub api_url: String,
    pub menu_type: i32,
    pub icon: String,
}

#[derive(Debug)]
pub struct UserListReq {
    pub page_no: u64,
    pub page_size: u64,
    pub mobile: Option<String>,
    pub status_id: Option<String>,
}

#[derive(Debug)]
pub struct UserListResp {
    pub msg: String,
    pub code: i32,
    pub page_no: u64,
    pub page_size: u64,
    pub success: bool,
    pub total: u64,
    pub data: Option<Vec<UserListData>>,
}

#[derive(Debug)]
pub struct UserListData {
    pub id: i32,
    pub sort: i32,
    pub status_id: i32,
    pub mobile: String,
    pub real_name: String,
    pub remark: String,
    pub create_time: String,
    pub update_time: String,
}

#[derive(Debug)]
pub struct UserSaveReq {
    pub mobile: String,
    pub real_name: String,
    pub remark: String,
}

#[derive(Debug)]
pub struct UserUpdateReq {
    pub id: i32,
    pub sort: i32,
    pub status_id: i32,
    pub mobile: String,
    pub real_name: String,
    pub remark: String,
}

#[derive(Debug)]
pub struct UserDeleteReq {
    pub ids: Vec<i32>,
}

} // verus!
