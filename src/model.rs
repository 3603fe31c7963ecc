use vstd::prelude::*;
use vstd::string::*;

verus! {

/// Whether a record is in use.
#[derive(Debug, Clone, Copy, PartialEq, Eq, Structural)]
pub enum Status {
    Enabled,
    Disabled,
}

/// The kind of a menu record.
#[derive(Debug, Clone, Copy, PartialEq, Eq, Structural)]
pub enum MenuType {
    Directory,
    Page,
    Button,
}

/// The parent id that marks a root of a tree.
pub const ROOT_PARENT_ID: i64 = 0;

/// A user holds a role.
#[derive(Debug, Clone, Copy, PartialEq, Eq, Structural)]
pub struct RoleAssignment {
    pub user_id: i64,
    pub role_id: i64,
}

/// A role grants a menu.
#[derive(Debug, Clone, Copy, PartialEq, Eq, Structural)]
pub struct RoleMenuAssignment {
    pub role_id: i64,
    pub menu_id: i64,
}

/// A menu record: a directory, a page or a button. An empty `api_url` grants nothing.
#[derive(Debug)]
pub struct MenuNode {
    pub id: i64,
    pub parent_id: i64,
    pub name: String,
    pub path: String,
    pub icon: String,
    pub api_url: String,
    pub menu_type: MenuType,
    pub visible: bool,
    pub status: Status,
}

/// What a menu record holds, as mathematical values.
pub ghost struct MenuView {
    pub id: i64,
    pub parent_id: i64,
    pub name: Seq<char>,
    pub path: Seq<char>,
    pub icon: Seq<char>,
    pub api_url: Seq<char>,
    pub menu_type: MenuType,
    pub visible: bool,
    pub status: Status,
}

impl View for MenuNode {
    type V = MenuView;

    open spec fn view(&self) -> MenuView {
        MenuView {
            id: self.id,
            parent_id: self.parent_id,
            name: self.name@,
            path: self.path@,
            icon: self.icon@,
            api_url: self.api_url@,
            menu_type: self.menu_type,
            visible: self.visible,
            status: self.status,
        }
    }
}

impl Clone for MenuNode {
    fn clone(&self) -> (r: MenuNode)
        ensures
            r@ == self@,
    {
        MenuNode {
            id: self.id,
            parent_id: self.parent_id,
            name: self.name.clone(),
            path: self.path.clone(),
            icon: self.icon.clone(),
            api_url: self.api_url.clone(),
            menu_type: self.menu_type,
            visible: self.visible,
            status: self.status,
        }
    }
}

/// Whether a string holds no character.
pub fn is_empty_text(s: &String) -> (r: bool)
    ensures
        r == (s@.len() == 0),
{
    s.as_str().unicode_len() == 0
}

/// Whether a list of ids holds `x`.
pub fn contains_id(v: &Vec<i64>, x: i64) -> (r: bool)
    ensures
        r == v@.contains(x),
{
    let mut i: usize = 0;
    while i < v.len()
        invariant
            i <= v@.len(),
            forall|j: int| 0 <= j < i ==> v@[j] != x,
        decreases v@.len() - i,
    {
        if v[i] == x {
            return true;
        }
        i = i + 1;
    }
    false
}

/// The views of a list of menu records.
pub open spec fn menu_views(v: Seq<MenuNode>) -> Seq<MenuView> {
    v.map_values(|m: MenuNode| m@)
}

} // verus!
