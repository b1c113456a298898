//! Tests for the tree store behind the vault facade: CRUD, the recycle
//! bin, and the locked-state machine.

use keedavault_core::{CustomField, Entry, Group, Vault, VaultError};

fn root_id(vault: &Vault) -> String {
    vault.get_groups().unwrap()[0].id.clone()
}

#[test]
fn test_create_vault() {
    let vault = Vault::create();
    assert!(!vault.is_locked());

    let groups = vault.get_groups().unwrap();
    assert_eq!(groups.len(), 1);
    assert_eq!(groups[0].name, "Root");
    assert!(groups[0].is_root());
}

#[test]
fn test_lock_vault() {
    let mut vault = Vault::create();
    assert!(!vault.is_locked());

    vault.lock();
    assert!(vault.is_locked());
}

#[test]
fn test_add_and_get_entry() {
    let mut vault = Vault::create();

    // Get root group ID
    let root = root_id(&vault);

    // Create and add an entry
    let mut entry = Entry::new("Test Entry".to_string(), root.clone());
    entry.username = "testuser".to_string();
    entry.password = "testpass".to_string();
    entry.url = "https://example.com".to_string();

    let entry_id = vault.add_entry(entry.clone()).unwrap();

    // Hand the tree through the codec boundary and reopen
    let tree = vault.save().unwrap().clone();
    drop(vault);

    let vault = Vault::open(tree);

    // Verify the entry survived the round trip
    let retrieved = vault.get_entry(&entry_id).unwrap();
    assert_eq!(retrieved.title, "Test Entry");
    assert_eq!(retrieved.username, "testuser");
    assert_eq!(retrieved.password, "testpass");
}

#[test]
fn test_update_entry() {
    let mut vault = Vault::create();
    let root = root_id(&vault);

    // Add entry
    let mut entry = Entry::new("Original".to_string(), root);
    entry.username = "user1".to_string();
    let entry_id = vault.add_entry(entry.clone()).unwrap();

    // Update entry
    entry.title = "Updated".to_string();
    entry.username = "user2".to_string();
    vault.update_entry(&entry_id, entry).unwrap();

    // Verify update
    let updated = vault.get_entry(&entry_id).unwrap();
    assert_eq!(updated.title, "Updated");
    assert_eq!(updated.username, "user2");
}

#[test]
fn test_delete_entry() {
    let mut vault = Vault::create();
    let root = root_id(&vault);

    // Add entry
    let entry = Entry::new("To Delete".to_string(), root);
    let entry_id = vault.add_entry(entry).unwrap();

    // Verify it exists
    assert!(vault.get_entry(&entry_id).is_ok());

    // Delete it (moves to recycle bin)
    vault.delete_entry(&entry_id).unwrap();

    // Verify it still exists (in recycle bin)
    assert!(vault.get_entry(&entry_id).is_ok());

    // Permanently delete it
    vault.permanently_delete_entry(&entry_id).unwrap();

    // Now it should be gone
    assert!(vault.get_entry(&entry_id).is_err());
}

#[test]
fn test_add_and_get_group() {
    let mut vault = Vault::create();
    let root = root_id(&vault);

    // Add a new group
    let group = Group::new("Test Group".to_string(), Some(root));
    let group_id = vault.add_group(group).unwrap();

    // Verify it was added
    let all_groups = vault.get_groups().unwrap();
    assert!(all_groups
        .iter()
        .any(|g| g.id == group_id && g.name == "Test Group"));
}

#[test]
fn soft_then_hard_delete_keeps_the_promises() {
    let mut vault = Vault::create();
    let root = root_id(&vault);

    let entry = Entry::new("Lifecycle".to_string(), root.clone());
    let entry_id = vault.add_entry(entry).unwrap();

    // a hard delete before the soft delete is refused: not yet recycled
    let err = vault.permanently_delete_entry(&entry_id).unwrap_err();
    assert!(matches!(err, VaultError::EntryNotFound(_)));
    assert!(vault.get_entry(&entry_id).is_ok());

    // soft delete: still readable, and sitting under the recycle bin
    vault.delete_entry(&entry_id).unwrap();
    let moved = vault.get_entry(&entry_id).unwrap();
    let groups = vault.get_groups().unwrap();
    let bin = groups.iter().find(|g| g.is_recycle_bin).unwrap();
    assert_eq!(moved.group_id, bin.id);

    // hard delete: gone for good
    vault.permanently_delete_entry(&entry_id).unwrap();
    let err = vault.get_entry(&entry_id).unwrap_err();
    assert!(matches!(err, VaultError::EntryNotFound(_)));
}

#[test]
fn locked_vault_refuses_every_operation() {
    let mut vault = Vault::create();
    let root = root_id(&vault);
    let entry = Entry::new("E".to_string(), root.clone());
    let entry_id = vault.add_entry(entry.clone()).unwrap();

    vault.lock();
    assert!(vault.is_locked());

    assert!(matches!(vault.save(), Err(VaultError::VaultLocked)));
    assert!(matches!(vault.get_entries(), Err(VaultError::VaultLocked)));
    assert!(matches!(vault.get_groups(), Err(VaultError::VaultLocked)));
    assert!(matches!(
        vault.get_entry(&entry_id),
        Err(VaultError::VaultLocked)
    ));
    assert!(matches!(
        vault.add_entry(Entry::new("X".to_string(), root.clone())),
        Err(VaultError::VaultLocked)
    ));
    assert!(matches!(
        vault.add_group(Group::new("G".to_string(), Some(root.clone()))),
        Err(VaultError::VaultLocked)
    ));
    assert!(matches!(
        vault.update_entry(&entry_id, Entry::new("Y".to_string(), root.clone())),
        Err(VaultError::VaultLocked)
    ));
    assert!(matches!(
        vault.update_group(&root, Group::new("H".to_string(), None)),
        Err(VaultError::VaultLocked)
    ));
    assert!(matches!(
        vault.delete_entry(&entry_id),
        Err(VaultError::VaultLocked)
    ));
    assert!(matches!(
        vault.delete_group(&root),
        Err(VaultError::VaultLocked)
    ));
    assert!(matches!(
        vault.permanently_delete_entry(&entry_id),
        Err(VaultError::VaultLocked)
    ));
    assert!(matches!(
        vault.permanently_delete_group(&root),
        Err(VaultError::VaultLocked)
    ));
    assert!(matches!(
        vault.empty_recycle_bin(),
        Err(VaultError::VaultLocked)
    ));
}

#[test]
fn add_entry_scenario_with_exact_fields() {
    let mut vault = Vault::create();
    let root = root_id(&vault);

    let mut entry = Entry::new("Test".to_string(), root.clone());
    entry.username = "testuser".to_string();
    entry.password = "testpass".to_string();
    let entry_id = vault.add_entry(entry).unwrap();
    assert!(!entry_id.is_empty());

    let got = vault.get_entry(&entry_id).unwrap();
    assert_eq!(got.title, "Test");
    assert_eq!(got.username, "testuser");
    assert_eq!(got.password, "testpass");
    assert_eq!(got.group_id, root);
    assert_eq!(got.created_at, got.modified_at);
    assert_eq!(got.modified_at, got.accessed_at);
}

#[test]
fn deleted_group_lands_under_the_recycle_bin() {
    let mut vault = Vault::create();
    let root = root_id(&vault);

    let sub = Group::new("Sub".to_string(), Some(root.clone()));
    let sub_id = vault.add_group(sub).unwrap();

    vault.delete_group(&sub_id).unwrap();

    let groups = vault.get_groups().unwrap();
    let bin = groups
        .iter()
        .find(|g| g.name == "Recycle Bin")
        .expect("a recycle bin was created");
    assert!(bin.is_recycle_bin);
    let moved = groups.iter().find(|g| g.id == sub_id).unwrap();
    assert_eq!(moved.name, "Sub");
    assert_eq!(moved.parent_id.as_deref(), Some(bin.id.as_str()));

    // deleting the root is always rejected
    let err = vault.delete_group(&root).unwrap_err();
    assert!(matches!(err, VaultError::InvalidOperation(_)));
}

#[test]
fn empty_recycle_bin_is_idempotent() {
    let mut vault = Vault::create();
    let root = root_id(&vault);

    // fill the bin with one deleted entry and one deleted group
    let entry = Entry::new("Gone".to_string(), root.clone());
    let entry_id = vault.add_entry(entry).unwrap();
    let group = Group::new("Old".to_string(), Some(root.clone()));
    let group_id = vault.add_group(group).unwrap();
    vault.delete_entry(&entry_id).unwrap();
    vault.delete_group(&group_id).unwrap();

    vault.empty_recycle_bin().unwrap();
    assert!(vault.get_entry(&entry_id).is_err());
    assert!(!vault.get_groups().unwrap().iter().any(|g| g.id == group_id));

    let groups_once: Vec<(String, Option<String>, String)> = vault
        .get_groups()
        .unwrap()
        .iter()
        .map(|g| (g.id.clone(), g.parent_id.clone(), g.name.clone()))
        .collect();
    let entries_once: Vec<String> = vault
        .get_entries()
        .unwrap()
        .iter()
        .map(|e| e.id.clone())
        .collect();

    // a second emptying leaves the tree exactly as it is
    vault.empty_recycle_bin().unwrap();
    let groups_twice: Vec<(String, Option<String>, String)> = vault
        .get_groups()
        .unwrap()
        .iter()
        .map(|g| (g.id.clone(), g.parent_id.clone(), g.name.clone()))
        .collect();
    let entries_twice: Vec<String> = vault
        .get_entries()
        .unwrap()
        .iter()
        .map(|e| e.id.clone())
        .collect();
    assert_eq!(groups_once, groups_twice);
    assert_eq!(entries_once, entries_twice);
}

#[test]
fn permanently_delete_group_purges_the_subtree() {
    let mut vault = Vault::create();
    let root = root_id(&vault);

    let outer = Group::new("Outer".to_string(), Some(root.clone()));
    let outer_id = vault.add_group(outer).unwrap();
    let inner = Group::new("Inner".to_string(), Some(outer_id.clone()));
    let inner_id = vault.add_group(inner).unwrap();
    let entry = Entry::new("Nested".to_string(), inner_id.clone());
    let entry_id = vault.add_entry(entry).unwrap();

    // not recycled yet: a hard delete is refused
    let err = vault.permanently_delete_group(&outer_id).unwrap_err();
    assert!(matches!(err, VaultError::GroupNotFound(_)));

    vault.delete_group(&outer_id).unwrap();
    // the whole subtree is still alive, only relocated
    assert!(vault.get_entry(&entry_id).is_ok());

    vault.permanently_delete_group(&outer_id).unwrap();
    let groups = vault.get_groups().unwrap();
    assert!(!groups.iter().any(|g| g.id == outer_id));
    assert!(!groups.iter().any(|g| g.id == inner_id));
    assert!(vault.get_entry(&entry_id).is_err());
}

#[test]
fn deleting_the_recycle_bin_discards_it() {
    let mut vault = Vault::create();
    let root = root_id(&vault);

    let entry = Entry::new("Trashed".to_string(), root.clone());
    let entry_id = vault.add_entry(entry).unwrap();
    vault.delete_entry(&entry_id).unwrap();

    let bin_id = vault
        .get_groups()
        .unwrap()
        .iter()
        .find(|g| g.is_recycle_bin)
        .unwrap()
        .id
        .clone();

    // deleting the bin itself detaches it together with its contents
    vault.delete_group(&bin_id).unwrap();
    assert!(!vault.get_groups().unwrap().iter().any(|g| g.is_recycle_bin));
    assert!(vault.get_entry(&entry_id).is_err());
}

#[test]
fn update_entry_does_not_move_it() {
    let mut vault = Vault::create();
    let root = root_id(&vault);

    let other = Group::new("Other".to_string(), Some(root.clone()));
    let other_id = vault.add_group(other).unwrap();

    let entry = Entry::new("Anchored".to_string(), root.clone());
    let entry_id = vault.add_entry(entry).unwrap();

    // an update naming another group does not move the entry
    let mut payload = Entry::new("Anchored".to_string(), other_id.clone());
    payload.username = "moved?".to_string();
    vault.update_entry(&entry_id, payload).unwrap();

    let got = vault.get_entry(&entry_id).unwrap();
    assert_eq!(got.group_id, root);
    assert_eq!(got.username, "moved?");
}

#[test]
fn missing_identifiers_give_not_found_errors() {
    let mut vault = Vault::create();
    let root = root_id(&vault);

    let missing = "no-such-id".to_string();
    assert!(matches!(
        vault.get_entry(&missing),
        Err(VaultError::EntryNotFound(_))
    ));
    assert!(matches!(
        vault.add_entry(Entry::new("X".to_string(), missing.clone())),
        Err(VaultError::GroupNotFound(_))
    ));
    assert!(matches!(
        vault.update_group(&missing, Group::new("G".to_string(), Some(root))),
        Err(VaultError::GroupNotFound(_))
    ));
    assert!(matches!(
        vault.delete_entry(&missing),
        Err(VaultError::EntryNotFound(_))
    ));
    assert!(matches!(
        vault.delete_group(&missing),
        Err(VaultError::GroupNotFound(_))
    ));
}

#[test]
fn update_group_renames_in_place() {
    let mut vault = Vault::create();
    let root = root_id(&vault);

    let group = Group::new("Before".to_string(), Some(root.clone()));
    let group_id = vault.add_group(group).unwrap();

    let mut payload = Group::new("After".to_string(), None);
    payload.notes = "renamed".to_string();
    vault.update_group(&group_id, payload).unwrap();

    let groups = vault.get_groups().unwrap();
    let got = groups.iter().find(|g| g.id == group_id).unwrap();
    assert_eq!(got.name, "After");
    assert_eq!(got.notes, "renamed");
    assert_eq!(got.parent_id.as_deref(), Some(root.as_str()));
}

#[test]
fn facade_search_and_filters() {
    let mut vault = Vault::create();
    let root = root_id(&vault);

    let mut a = Entry::new("Bank Login".to_string(), root.clone());
    a.tags = vec!["money".to_string()];
    a.is_favorite = true;
    let mut b = Entry::new("Forum".to_string(), root.clone());
    b.username = "bankrupt_badger".to_string();
    vault.add_entry(a).unwrap();
    vault.add_entry(b).unwrap();

    // substring match is case-insensitive and spans username too
    let hits = vault.search_entries("BANK").unwrap();
    assert_eq!(hits.len(), 2);

    let hits = vault.filter_by_tag("money").unwrap();
    assert_eq!(hits.len(), 1);
    assert_eq!(hits[0].title, "Bank Login");

    let favs = vault.get_favorites().unwrap();
    assert_eq!(favs.len(), 1);
    assert_eq!(favs[0].title, "Bank Login");

    vault.lock();
    assert!(matches!(
        vault.search_entries("x"),
        Err(VaultError::VaultLocked)
    ));
    assert!(matches!(
        vault.filter_by_tag("x"),
        Err(VaultError::VaultLocked)
    ));
    assert!(matches!(vault.get_favorites(), Err(VaultError::VaultLocked)));
}

#[test]
fn empty_recycle_bin_without_a_bin_is_a_no_op() {
    let mut vault = Vault::create();
    vault.empty_recycle_bin().unwrap();
    let groups = vault.get_groups().unwrap();
    assert_eq!(groups.len(), 1);
    assert!(!groups.iter().any(|g| g.is_recycle_bin));
    assert!(vault.get_entries().unwrap().is_empty());
}

#[test]
fn codec_constructors_respect_the_bin_rules() {
    let mut tree = keedavault_core::Tree::with_root(Group::new("Root".to_string(), None));
    let bin_id = tree.attach_recycle_bin(Group::new_recycle_bin()).unwrap();

    let groups = tree.get_groups();
    assert_eq!(groups.len(), 2);
    assert!(groups[1].is_recycle_bin);
    assert_eq!(groups[1].id, bin_id);
    assert_eq!(groups[1].parent_id.as_deref(), Some(groups[0].id.as_str()));

    // a second bin is refused
    let err = tree.attach_recycle_bin(Group::new_recycle_bin()).unwrap_err();
    assert!(matches!(err, VaultError::InvalidOperation(_)));
}

#[test]
fn custom_field_keys_are_checked_on_the_way_in() {
    let mut vault = Vault::create();
    let root = root_id(&vault);

    // a reserved key is refused
    let mut reserved = Entry::new("R".to_string(), root.clone());
    reserved.custom_fields = vec![CustomField {
        key: "Password".to_string(),
        value: "x".to_string(),
        protected: true,
    }];
    let err = vault.add_entry(reserved).unwrap_err();
    assert!(matches!(err, VaultError::InvalidEntry(_)));

    // a duplicate key is refused
    let mut duplicated = Entry::new("D".to_string(), root.clone());
    duplicated.custom_fields = vec![
        CustomField {
            key: "pin".to_string(),
            value: "1".to_string(),
            protected: true,
        },
        CustomField {
            key: "pin".to_string(),
            value: "2".to_string(),
            protected: true,
        },
    ];
    let err = vault.add_entry(duplicated).unwrap_err();
    assert!(matches!(err, VaultError::InvalidEntry(_)));

    // distinct, unreserved keys go through and come back whole
    let mut fine = Entry::new("F".to_string(), root.clone());
    fine.custom_fields = vec![
        CustomField {
            key: "pin".to_string(),
            value: "9876".to_string(),
            protected: true,
        },
        CustomField {
            key: "color".to_string(),
            value: "green".to_string(),
            protected: false,
        },
    ];
    let id = vault.add_entry(fine).unwrap();
    let got = vault.get_entry(&id).unwrap();
    assert_eq!(got.custom_fields.len(), 2);
    assert_eq!(got.custom_fields[0].key, "pin");
    assert_eq!(got.custom_fields[1].value, "green");

    // an update payload is checked the same way
    let mut bad_update = Entry::new("F".to_string(), root.clone());
    bad_update.custom_fields = vec![CustomField {
        key: "otp".to_string(),
        value: "seed".to_string(),
        protected: true,
    }];
    let err = vault.update_entry(&id, bad_update).unwrap_err();
    assert!(matches!(err, VaultError::InvalidEntry(_)));
    // and the entry is untouched
    let still = vault.get_entry(&id).unwrap();
    assert_eq!(still.custom_fields.len(), 2);
}
