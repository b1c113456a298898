//! The vault facade: a tree store behind a locked/unlocked state machine.
//!
//! Locked means the tree is gone from memory — there is no "unlocked but
//! no tree" state.  Locking wipes every secret and discards the store;
//! the only way back is re-opening through the outer codec layer, which
//! hands a fresh well-formed tree to [`Vault::open`].

use vstd::prelude::*;

use crate::entry::{Entry, EntryView};
use crate::error::VaultError;
use crate::group::{Group, GroupView};
use crate::entry::valid_custom_fields;
use crate::tree::{
    emptied_view, entry_by_id, entry_index, group_by_id, group_index, groups_view, has_entry,
    has_group, purged_entry, purged_group, soft_deleted_entry, soft_deleted_group, wf_tree, Tree,
    TreeView,
};

verus! {

/// Key-derivation parameters handed to the outer codec layer when a new
/// container is created.  The core only carries them.
#[derive(Debug, Clone)]
pub struct VaultConfig {
    /// Key-derivation rounds.
    pub kdf_iterations: u64,
    /// Argon2 memory, in kibibytes.
    pub argon2_memory: u64,
    /// Argon2 lanes.
    pub argon2_parallelism: u32,
}

impl Default for VaultConfig {
    /// Two rounds of Argon2 over 64 mebibytes with two lanes.
    fn default() -> (c: Self)
        ensures
            c.kdf_iterations == 2,
            c.argon2_memory == 65536,
            c.argon2_parallelism == 2,
    {
        VaultConfig { kdf_iterations: 2, argon2_memory: 64 * 1024, argon2_parallelism: 2 }
    }
}

/// The facade over the tree store.  Its value is `Some` tree view when
/// unlocked and `None` when locked.
pub struct Vault {
    state: Option<Tree>,
}

impl View for Vault {
    type V = Option<TreeView>;

    closed spec fn view(&self) -> Option<TreeView> {
        match self.state {
            Option::Some(t) => Option::Some(t@),
            Option::None => Option::None,
        }
    }
}

impl Vault {
    /// The facade invariant: whenever a tree is present, it is well
    /// formed.
    pub open spec fn wf(&self) -> bool {
        match self@ {
            Option::Some(t) => wf_tree(t),
            Option::None => true,
        }
    }

    /// Whether an operation finding the vault in state `s` must fail with
    /// `VaultLocked`.
    pub open spec fn locked_in(s: Option<TreeView>) -> bool {
        s is None
    }

    /// Create an unlocked vault over a fresh tree: a single root group
    /// named "Root" and nothing else.
    pub fn create() -> (v: Vault)
        ensures
            v.wf(),
            v@ matches Option::Some(t) && {
                &&& t.entries == Seq::<EntryView>::empty()
                &&& t.groups.len() == 1
                &&& t.groups[0].name == "Root"@
                &&& t.groups[0].parent_id is None
                &&& !t.groups[0].is_recycle_bin
            },
    {
        Vault { state: Option::Some(Tree::new()) }
    }

    /// Open a vault over a tree the codec layer decoded.
    pub fn open(tree: Tree) -> (v: Vault)
        requires
            tree.wf(),
        ensures
            v.wf(),
            v@ == Option::Some(tree@),
    {
        Vault { state: Option::Some(tree) }
    }

    /// Lock the vault: wipe every secret in the store and discard it.
    pub fn lock(&mut self)
        ensures
            final(self)@ is None,
    {
        let mut taken: Option<Tree> = Option::None;
        core::mem::swap(&mut self.state, &mut taken);
        match taken {
            Option::Some(mut t) => {
                t.wipe_all_secrets();
            },
            Option::None => {},
        }
    }

    /// Whether the vault is locked.
    pub fn is_locked(&self) -> (r: bool)
        ensures
            r == (self@ is None),
    {
        self.state.is_none()
    }

    /// Hand the tree out for the codec layer to encode, or `VaultLocked`.
    pub fn save(&self) -> (r: Result<&Tree, VaultError>)
        ensures
            match r {
                Result::Ok(t) => self@ == Option::Some(t@),
                Result::Err(err) => self@ is None && err matches VaultError::VaultLocked,
            },
    {
        match &self.state {
            Option::Some(t) => Result::Ok(t),
            Option::None => Result::Err(VaultError::VaultLocked),
        }
    }

    /// Every entry of the store, or `VaultLocked`.
    pub fn get_entries(&self) -> (r: Result<Vec<Entry>, VaultError>)
        requires
            self.wf(),
        ensures
            match r {
                Result::Ok(es) => self@ matches Option::Some(t) && crate::tree::entries_view(es@)
                    == t.entries,
                Result::Err(err) => self@ is None && err matches VaultError::VaultLocked,
            },
    {
        match &self.state {
            Option::Some(t) => Result::Ok(t.get_entries()),
            Option::None => Result::Err(VaultError::VaultLocked),
        }
    }

    /// Every group of the store, root first, or `VaultLocked`.
    pub fn get_groups(&self) -> (r: Result<Vec<Group>, VaultError>)
        requires
            self.wf(),
        ensures
            match r {
                Result::Ok(gs) => self@ matches Option::Some(t) && groups_view(gs@) == t.groups,
                Result::Err(err) => self@ is None && err matches VaultError::VaultLocked,
            },
    {
        match &self.state {
            Option::Some(t) => Result::Ok(t.get_groups()),
            Option::None => Result::Err(VaultError::VaultLocked),
        }
    }

    /// The entry carrying `id`: `VaultLocked` when locked, `EntryNotFound`
    /// when no live entry carries it.
    pub fn get_entry(&self, id: &String) -> (r: Result<Entry, VaultError>)
        requires
            self.wf(),
        ensures
            match r {
                Result::Ok(e) => self@ matches Option::Some(t) && has_entry(t.entries, id@) && e@
                    == entry_by_id(t.entries, id@),
                Result::Err(err) => match err {
                    VaultError::VaultLocked => self@ is None,
                    VaultError::EntryNotFound(s) => s@ == id@ && (self@ matches Option::Some(t)
                        && !has_entry(t.entries, id@)),
                    _ => false,
                },
            },
    {
        match &self.state {
            Option::Some(t) => t.get_entry(id),
            Option::None => Result::Err(VaultError::VaultLocked),
        }
    }

    /// Append `entry` under the group it names; the caller vouches for
    /// the freshness of its identifier.  `VaultLocked` when locked, and
    /// the tree is then untouched.
    pub fn add_entry(&mut self, entry: Entry) -> (r: Result<String, VaultError>)
        requires
            old(self).wf(),
            old(self)@ matches Option::Some(t) ==> !has_entry(t.entries, entry@.id),
        ensures
            final(self).wf(),
            Self::locked_in(old(self)@) ==> (r matches Err(VaultError::VaultLocked))
                && final(self)@ == old(self)@,
            match r {
                Result::Ok(rid) => {
                    &&& old(self)@ matches Option::Some(t0)
                    &&& final(self)@ matches Option::Some(t2)
                    &&& valid_custom_fields(entry@.custom_fields)
                    &&& has_group(t0.groups, entry@.group_id)
                    &&& t2.groups == t0.groups
                    &&& t2.entries == t0.entries.push(entry@)
                    &&& rid@ == entry@.id
                },
                Result::Err(err) => {
                    &&& final(self)@ == old(self)@
                    &&& match err {
                        VaultError::VaultLocked => old(self)@ is None,
                        VaultError::InvalidEntry(_) => old(self)@ is Some
                            && !valid_custom_fields(entry@.custom_fields),
                        VaultError::GroupNotFound(s) => s@ == entry@.group_id
                            && valid_custom_fields(entry@.custom_fields) && (old(self)@
                            matches Option::Some(t0) && !has_group(t0.groups, entry@.group_id)),
                        _ => false,
                    }
                },
            },
    {
        match &mut self.state {
            Option::Some(t) => t.add_entry(entry),
            Option::None => {
                let mut entry = entry;
                entry.wipe_secrets();
                Result::Err(VaultError::VaultLocked)
            },
        }
    }

    /// Append `group` under the parent it names, or under the root when
    /// it names none; the caller vouches for the freshness of its
    /// identifier.  `VaultLocked` when locked, and the tree is then
    /// untouched.
    pub fn add_group(&mut self, group: Group) -> (r: Result<String, VaultError>)
        requires
            old(self).wf(),
            old(self)@ matches Option::Some(t) ==> !has_group(t.groups, group@.id),
        ensures
            final(self).wf(),
            Self::locked_in(old(self)@) ==> (r matches Err(VaultError::VaultLocked))
                && final(self)@ == old(self)@,
            match r {
                Result::Ok(rid) => {
                    &&& old(self)@ matches Option::Some(t0)
                    &&& final(self)@ matches Option::Some(t2)
                    &&& (group@.parent_id matches Option::Some(p) ==> has_group(t0.groups, p))
                    &&& t2.entries == t0.entries
                    &&& t2.groups == t0.groups.push(
                        GroupView {
                            parent_id: Option::Some(
                                match group@.parent_id {
                                    Option::Some(p) => p,
                                    Option::None => t0.groups[0].id,
                                },
                            ),
                            is_recycle_bin: false,
                            ..group@
                        },
                    )
                    &&& rid@ == group@.id
                },
                Result::Err(err) => {
                    &&& final(self)@ == old(self)@
                    &&& match err {
                        VaultError::VaultLocked => old(self)@ is None,
                        VaultError::GroupNotFound(s) => old(self)@ matches Option::Some(t0)
                            && group@.parent_id == Option::Some(s@) && !has_group(t0.groups, s@),
                        _ => false,
                    }
                },
            },
    {
        match &mut self.state {
            Option::Some(t) => t.add_group(group),
            Option::None => Result::Err(VaultError::VaultLocked),
        }
    }

    /// Replace the mutable fields of the entry carrying `id` with those
    /// of `entry`; identity and group membership stay.  `VaultLocked`
    /// when locked, and the tree is then untouched.
    pub fn update_entry(&mut self, id: &String, entry: Entry) -> (r: Result<(), VaultError>)
        requires
            old(self).wf(),
        ensures
            final(self).wf(),
            Self::locked_in(old(self)@) ==> (r matches Err(VaultError::VaultLocked))
                && final(self)@ == old(self)@,
            match r {
                Result::Ok(_) => {
                    &&& old(self)@ matches Option::Some(t0)
                    &&& final(self)@ matches Option::Some(t2)
                    &&& valid_custom_fields(entry@.custom_fields)
                    &&& has_entry(t0.entries, id@)
                    &&& t2.groups == t0.groups
                    &&& t2.entries == t0.entries.update(
                        entry_index(t0.entries, id@),
                        EntryView {
                            id: entry_by_id(t0.entries, id@).id,
                            group_id: entry_by_id(t0.entries, id@).group_id,
                            ..entry@
                        },
                    )
                },
                Result::Err(err) => {
                    &&& final(self)@ == old(self)@
                    &&& match err {
                        VaultError::VaultLocked => old(self)@ is None,
                        VaultError::InvalidEntry(_) => old(self)@ is Some
                            && !valid_custom_fields(entry@.custom_fields),
                        VaultError::EntryNotFound(s) => s@ == id@ && valid_custom_fields(
                            entry@.custom_fields,
                        ) && (old(self)@ matches Option::Some(t0) && !has_entry(
                            t0.entries,
                            id@,
                        )),
                        _ => false,
                    }
                },
            },
    {
        match &mut self.state {
            Option::Some(t) => t.update_entry(id, entry),
            Option::None => {
                let mut entry = entry;
                entry.wipe_secrets();
                Result::Err(VaultError::VaultLocked)
            },
        }
    }

    /// Replace the name and the notes of the group carrying `id`.
    /// `VaultLocked` when locked, and the tree is then untouched.
    pub fn update_group(&mut self, id: &String, group: Group) -> (r: Result<(), VaultError>)
        requires
            old(self).wf(),
        ensures
            final(self).wf(),
            Self::locked_in(old(self)@) ==> (r matches Err(VaultError::VaultLocked))
                && final(self)@ == old(self)@,
            match r {
                Result::Ok(_) => {
                    &&& old(self)@ matches Option::Some(t0)
                    &&& final(self)@ matches Option::Some(t2)
                    &&& has_group(t0.groups, id@)
                    &&& t2.entries == t0.entries
                    &&& t2.groups == t0.groups.update(
                        group_index(t0.groups, id@),
                        GroupView {
                            name: group@.name,
                            notes: group@.notes,
                            ..group_by_id(t0.groups, id@)
                        },
                    )
                },
                Result::Err(err) => {
                    &&& final(self)@ == old(self)@
                    &&& match err {
                        VaultError::VaultLocked => old(self)@ is None,
                        VaultError::GroupNotFound(s) => s@ == id@ && (old(self)@ matches
                            Option::Some(t0) && !has_group(t0.groups, id@)),
                        _ => false,
                    }
                },
            },
    {
        match &mut self.state {
            Option::Some(t) => t.update_group(id, group),
            Option::None => Result::Err(VaultError::VaultLocked),
        }
    }

    /// Soft-delete the entry carrying `id` into the recycle bin.
    /// `VaultLocked` when locked, and the tree is then untouched.
    pub fn delete_entry(&mut self, id: &String) -> (r: Result<(), VaultError>)
        requires
            old(self).wf(),
        ensures
            final(self).wf(),
            Self::locked_in(old(self)@) ==> (r matches Err(VaultError::VaultLocked))
                && final(self)@ == old(self)@,
            match r {
                Result::Ok(_) => {
                    &&& old(self)@ matches Option::Some(t0)
                    &&& final(self)@ matches Option::Some(t2)
                    &&& soft_deleted_entry(t0, t2, id@)
                },
                Result::Err(err) => {
                    &&& final(self)@ == old(self)@
                    &&& match err {
                        VaultError::VaultLocked => old(self)@ is None,
                        VaultError::EntryNotFound(s) => s@ == id@ && (old(self)@ matches
                            Option::Some(t0) && !has_entry(t0.entries, id@)),
                        _ => false,
                    }
                },
            },
    {
        match &mut self.state {
            Option::Some(t) => t.delete_entry(id),
            Option::None => Result::Err(VaultError::VaultLocked),
        }
    }

    /// Soft-delete the group carrying `id` — the root is refused, the bin
    /// itself is discarded outright.  `VaultLocked` when locked, and the
    /// tree is then untouched.
    pub fn delete_group(&mut self, id: &String) -> (r: Result<(), VaultError>)
        requires
            old(self).wf(),
        ensures
            final(self).wf(),
            Self::locked_in(old(self)@) ==> (r matches Err(VaultError::VaultLocked))
                && final(self)@ == old(self)@,
            match r {
                Result::Ok(_) => {
                    &&& old(self)@ matches Option::Some(t0)
                    &&& final(self)@ matches Option::Some(t2)
                    &&& soft_deleted_group(t0, t2, id@)
                },
                Result::Err(err) => {
                    &&& final(self)@ == old(self)@
                    &&& match err {
                        VaultError::VaultLocked => old(self)@ is None,
                        VaultError::InvalidOperation(_) => old(self)@ matches Option::Some(t0)
                            && id@ == t0.groups[0].id,
                        VaultError::GroupNotFound(s) => s@ == id@ && (old(self)@ matches
                            Option::Some(t0) && !has_group(t0.groups, id@) && id@
                            != t0.groups[0].id),
                        _ => false,
                    }
                },
            },
    {
        match &mut self.state {
            Option::Some(t) => t.delete_group(id),
            Option::None => Result::Err(VaultError::VaultLocked),
        }
    }

    /// Permanently delete the entry carrying `id`; it must already sit in
    /// the recycle bin.  `VaultLocked` when locked, and the tree is then
    /// untouched.
    pub fn permanently_delete_entry(&mut self, id: &String) -> (r: Result<(), VaultError>)
        requires
            old(self).wf(),
        ensures
            final(self).wf(),
            Self::locked_in(old(self)@) ==> (r matches Err(VaultError::VaultLocked))
                && final(self)@ == old(self)@,
            match r {
                Result::Ok(_) => {
                    &&& old(self)@ matches Option::Some(t0)
                    &&& final(self)@ matches Option::Some(t2)
                    &&& purged_entry(t0, t2, id@)
                },
                Result::Err(err) => {
                    &&& final(self)@ == old(self)@
                    &&& match err {
                        VaultError::VaultLocked => old(self)@ is None,
                        VaultError::EntryNotFound(s) => s@ == id@ && (old(self)@ matches
                            Option::Some(t0) && !crate::tree::entry_recycled(t0, id@)),
                        _ => false,
                    }
                },
            },
    {
        match &mut self.state {
            Option::Some(t) => t.permanently_delete_entry(id),
            Option::None => Result::Err(VaultError::VaultLocked),
        }
    }

    /// Permanently delete the group carrying `id` with its subtree; it
    /// must already sit strictly inside the recycle bin.  `VaultLocked`
    /// when locked, and the tree is then untouched.
    pub fn permanently_delete_group(&mut self, id: &String) -> (r: Result<(), VaultError>)
        requires
            old(self).wf(),
        ensures
            final(self).wf(),
            Self::locked_in(old(self)@) ==> (r matches Err(VaultError::VaultLocked))
                && final(self)@ == old(self)@,
            match r {
                Result::Ok(_) => {
                    &&& old(self)@ matches Option::Some(t0)
                    &&& final(self)@ matches Option::Some(t2)
                    &&& purged_group(t0, t2, id@)
                },
                Result::Err(err) => {
                    &&& final(self)@ == old(self)@
                    &&& match err {
                        VaultError::VaultLocked => old(self)@ is None,
                        VaultError::InvalidOperation(_) => old(self)@ matches Option::Some(t0)
                            && id@ == t0.groups[0].id,
                        VaultError::GroupNotFound(s) => s@ == id@ && (old(self)@ matches
                            Option::Some(t0) && !crate::tree::group_recycled(t0, id@) && id@
                            != t0.groups[0].id),
                        _ => false,
                    }
                },
            },
    {
        match &mut self.state {
            Option::Some(t) => t.permanently_delete_group(id),
            Option::None => Result::Err(VaultError::VaultLocked),
        }
    }

    /// Empty the recycle bin; a vault without a bin is left as it is.
    /// `VaultLocked` when locked, and the tree is then untouched.
    pub fn empty_recycle_bin(&mut self) -> (r: Result<(), VaultError>)
        requires
            old(self).wf(),
        ensures
            final(self).wf(),
            Self::locked_in(old(self)@) ==> (r matches Err(VaultError::VaultLocked))
                && final(self)@ == old(self)@,
            match r {
                Result::Ok(_) => {
                    &&& old(self)@ matches Option::Some(t0)
                    &&& final(self)@ == Option::Some(emptied_view(t0))
                },
                Result::Err(err) => {
                    &&& final(self)@ == old(self)@
                    &&& err matches VaultError::VaultLocked && old(self)@ is None
                },
            },
    {
        match &mut self.state {
            Option::Some(t) => {
                t.empty_recycle_bin();
                Result::Ok(())
            },
            Option::None => Result::Err(VaultError::VaultLocked),
        }
    }

    /// The entries matching `query`, in arena order: a case-insensitive
    /// substring match over title, username, URL and notes.
    /// `VaultLocked` when locked.
    pub fn search_entries(&self, query: &str) -> (r: Result<Vec<Entry>, VaultError>)
        requires
            self.wf(),
        ensures
            match r {
                Result::Ok(es) => self@ matches Option::Some(t)
                    && crate::tree::entries_view(es@) == t.entries.filter(
                    crate::search::search_pred(crate::trusted::lower_of(query@)),
                ),
                Result::Err(err) => self@ is None && err matches VaultError::VaultLocked,
            },
    {
        match &self.state {
            Option::Some(t) => {
                let all = t.get_entries();
                Result::Ok(crate::search::search_entries(all.as_slice(), query))
            },
            Option::None => Result::Err(VaultError::VaultLocked),
        }
    }

    /// The entries carrying `tag`, in arena order.  `VaultLocked` when
    /// locked.
    pub fn filter_by_tag(&self, tag: &str) -> (r: Result<Vec<Entry>, VaultError>)
        requires
            self.wf(),
        ensures
            match r {
                Result::Ok(es) => self@ matches Option::Some(t)
                    && crate::tree::entries_view(es@) == t.entries.filter(
                    crate::search::tag_pred(tag@),
                ),
                Result::Err(err) => self@ is None && err matches VaultError::VaultLocked,
            },
    {
        match &self.state {
            Option::Some(t) => {
                let all = t.get_entries();
                Result::Ok(crate::search::filter_by_tag(all.as_slice(), tag))
            },
            Option::None => Result::Err(VaultError::VaultLocked),
        }
    }

    /// The entries marked as favorites, in arena order.  `VaultLocked`
    /// when locked.
    pub fn get_favorites(&self) -> (r: Result<Vec<Entry>, VaultError>)
        requires
            self.wf(),
        ensures
            match r {
                Result::Ok(es) => self@ matches Option::Some(t)
                    && crate::tree::entries_view(es@) == t.entries.filter(
                    crate::search::favorite_pred(),
                ),
                Result::Err(err) => self@ is None && err matches VaultError::VaultLocked,
            },
    {
        match &self.state {
            Option::Some(t) => {
                let all = t.get_entries();
                Result::Ok(crate::search::get_favorites(all.as_slice()))
            },
            Option::None => Result::Err(VaultError::VaultLocked),
        }
    }
}

} // verus!
