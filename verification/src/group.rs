//! Groups: the folder-like tree nodes of the vault.

use vstd::prelude::*;

use crate::trusted::fresh_id;
use crate::util::{clone_opt_string, opt_str_view};

verus! {

/// The mathematical value of a [`Group`]: every string as its character
/// sequence.
#[verifier::ext_equal]
pub struct GroupView {
    pub id: Seq<char>,
    pub parent_id: Option<Seq<char>>,
    pub name: Seq<char>,
    pub icon_id: u32,
    pub notes: Seq<char>,
    pub is_recycle_bin: bool,
    pub is_expanded: bool,
}

/// A group (folder) of the vault.
#[derive(Debug)]
pub struct Group {
    /// Unique identifier.
    pub id: String,
    /// Identifier of the parent group; `None` only for the root.
    pub parent_id: Option<String>,
    /// Display name.
    pub name: String,
    /// Icon identifier.
    pub icon_id: u32,
    /// Free-form notes.
    pub notes: String,
    /// Whether this group is the recycle bin.
    pub is_recycle_bin: bool,
    /// Whether the group is shown expanded; a UI hint only.
    pub is_expanded: bool,
}

impl View for Group {
    type V = GroupView;

    open spec fn view(&self) -> GroupView {
        GroupView {
            id: self.id@,
            parent_id: opt_str_view(self.parent_id),
            name: self.name@,
            icon_id: self.icon_id,
            notes: self.notes@,
            is_recycle_bin: self.is_recycle_bin,
            is_expanded: self.is_expanded,
        }
    }
}

impl Clone for Group {
    fn clone(&self) -> (r: Self)
        ensures
            r@ == self@,
    {
        let r = Group {
            id: self.id.clone(),
            parent_id: clone_opt_string(&self.parent_id),
            name: self.name.clone(),
            icon_id: self.icon_id,
            notes: self.notes.clone(),
            is_recycle_bin: self.is_recycle_bin,
            is_expanded: self.is_expanded,
        };
        assert(r@ =~= self@);
        r
    }
}

impl Group {
    /// Create a new ordinary group with a fresh identifier under the given
    /// parent.
    pub fn new(name: String, parent_id: Option<String>) -> (g: Group)
        ensures
            g@.id.len() == 36,
            g@.parent_id == opt_str_view(parent_id),
            g@.name == name@,
            g@.icon_id == 48,
            g@.notes == Seq::<char>::empty(),
            !g@.is_recycle_bin,
            g@.is_expanded,
    {
        Group {
            id: fresh_id(),
            parent_id,
            name,
            icon_id: 48,  // default folder icon
            notes: String::new(),
            is_recycle_bin: false,
            is_expanded: true,
        }
    }

    /// Create a recycle-bin group with a fresh identifier.  The tree store
    /// attaches it under the root when it first needs one.
    pub fn new_recycle_bin() -> (g: Group)
        ensures
            g@.id.len() == 36,
            g@.parent_id is None,
            g@.name == "Recycle Bin"@,
            g@.icon_id == 43,
            g@.notes == Seq::<char>::empty(),
            g@.is_recycle_bin,
            !g@.is_expanded,
    {
        Group {
            id: fresh_id(),
            parent_id: Option::None,
            name: "Recycle Bin".to_owned(),
            icon_id: 43,  // trash icon
            notes: String::new(),
            is_recycle_bin: true,
            is_expanded: false,
        }
    }

    /// Whether this group is a root group (it has no parent).
    pub fn is_root(&self) -> (r: bool)
        ensures
            r == (self@.parent_id is None),
    {
        self.parent_id.is_none()
    }
}

} // verus!
