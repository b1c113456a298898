//! Tests for the record types, the secure-wipe policy and the search
//! helpers.

use keedavault_core::{CustomField, Entry, Group};
use keedavault_core::search::{filter_by_tag, get_favorites, search_entries};

#[test]
fn test_new_entry() {
    let entry = Entry::new("Test Entry".to_string(), "group-1".to_string());
    assert_eq!(entry.title, "Test Entry");
    assert_eq!(entry.group_id, "group-1");
    assert!(!entry.id.is_empty());
}

#[test]
fn test_entry_not_expired_by_default() {
    let entry = Entry::new("Test".to_string(), "group-1".to_string());
    assert!(!entry.is_expired());
}

#[test]
fn test_new_group() {
    let group = Group::new("Test Group".to_string(), None);
    assert_eq!(group.name, "Test Group");
    assert!(group.is_root());
    assert!(!group.is_recycle_bin);
}

#[test]
fn test_recycle_bin() {
    let bin = Group::new_recycle_bin();
    assert!(bin.is_recycle_bin);
    assert_eq!(bin.name, "Recycle Bin");
}

#[test]
fn test_search_entries() {
    let entry = Entry::new("Test Entry".to_string(), "group-1".to_string());
    let entries = vec![entry];

    let results = search_entries(&entries, "test");
    assert_eq!(results.len(), 1);

    let results = search_entries(&entries, "nonexistent");
    assert_eq!(results.len(), 0);
}

#[test]
fn fresh_entry_ids_are_distinct() {
    let a = Entry::new("A".to_string(), "g".to_string());
    let b = Entry::new("B".to_string(), "g".to_string());
    assert_eq!(a.id.len(), 36);
    assert_eq!(b.id.len(), 36);
    assert_ne!(a.id, b.id);

    let g1 = Group::new("G1".to_string(), None);
    let g2 = Group::new("G2".to_string(), None);
    assert_ne!(g1.id, g2.id);
}

#[test]
fn expiry_is_a_strict_cutoff() {
    let mut entry = Entry::new("E".to_string(), "g".to_string());
    assert!(!entry.is_expired_at(0));
    entry.expires_at = Some(100);
    assert!(!entry.is_expired_at(99));
    assert!(!entry.is_expired_at(100));
    assert!(entry.is_expired_at(101));
    entry.expires_at = None;
    assert!(!entry.is_expired_at(i64::MAX));
}

#[test]
fn touch_and_mark_accessed_stay_independent() {
    let mut entry = Entry::new("E".to_string(), "g".to_string());
    let created = entry.created_at;
    entry.touch();
    assert_eq!(entry.created_at, created);
    entry.mark_accessed();
    assert_eq!(entry.created_at, created);
}

#[test]
fn wiping_blanks_only_the_sensitive_fields() {
    let mut entry = Entry::new("Keep".to_string(), "g".to_string());
    entry.username = "user".to_string();
    entry.password = "hunter2".to_string();
    entry.totp_secret = Some("JBSWY3DP".to_string());
    entry.custom_fields = vec![
        CustomField {
            key: "pin".to_string(),
            value: "9876".to_string(),
            protected: true,
        },
        CustomField {
            key: "color".to_string(),
            value: "green".to_string(),
            protected: false,
        },
    ];

    entry.wipe_secrets();

    assert_eq!(entry.title, "Keep");
    assert_eq!(entry.username, "user");
    assert_eq!(entry.password, "");
    assert_eq!(entry.totp_secret, None);
    assert_eq!(entry.custom_fields[0].key, "pin");
    assert_eq!(entry.custom_fields[0].value, "");
    assert_eq!(entry.custom_fields[1].value, "green");
}

#[test]
fn search_is_case_insensitive_over_all_text_fields() {
    let mut by_title = Entry::new("GitHub Account".to_string(), "g".to_string());
    by_title.notes = String::new();
    let mut by_username = Entry::new("Mail".to_string(), "g".to_string());
    by_username.username = "ALICE@example.org".to_string();
    let mut by_url = Entry::new("Shop".to_string(), "g".to_string());
    by_url.url = "https://Store.Example.com".to_string();
    let mut by_notes = Entry::new("Router".to_string(), "g".to_string());
    by_notes.notes = "admin CONSOLE on port 8080".to_string();

    let entries = vec![by_title, by_username, by_url, by_notes];

    let hits = search_entries(&entries, "GITHUB");
    assert_eq!(hits.len(), 1);
    assert_eq!(hits[0].title, "GitHub Account");

    let hits = search_entries(&entries, "alice");
    assert_eq!(hits.len(), 1);
    assert_eq!(hits[0].title, "Mail");

    let hits = search_entries(&entries, "store.example");
    assert_eq!(hits.len(), 1);
    assert_eq!(hits[0].title, "Shop");

    let hits = search_entries(&entries, "console");
    assert_eq!(hits.len(), 1);
    assert_eq!(hits[0].title, "Router");

    let hits = search_entries(&entries, "");
    assert_eq!(hits.len(), 4);
}

#[test]
fn tag_filter_matches_whole_tags() {
    let mut tagged = Entry::new("Tagged".to_string(), "g".to_string());
    tagged.tags = vec!["work".to_string(), "email".to_string()];
    let mut other = Entry::new("Other".to_string(), "g".to_string());
    other.tags = vec!["personal".to_string()];

    let entries = vec![tagged, other];

    let hits = filter_by_tag(&entries, "work");
    assert_eq!(hits.len(), 1);
    assert_eq!(hits[0].title, "Tagged");

    // a tag must match in full, not as a prefix
    let hits = filter_by_tag(&entries, "wor");
    assert_eq!(hits.len(), 0);
}

#[test]
fn favorites_filter() {
    let mut starred = Entry::new("Starred".to_string(), "g".to_string());
    starred.is_favorite = true;
    let plain = Entry::new("Plain".to_string(), "g".to_string());

    let entries = vec![starred, plain];
    let favs = get_favorites(&entries);
    assert_eq!(favs.len(), 1);
    assert_eq!(favs[0].title, "Starred");
}

#[test]
fn group_clone_preserves_every_field() {
    let mut group = Group::new("Folder".to_string(), Some("parent".to_string()));
    group.notes = "n".to_string();
    group.icon_id = 7;
    let copy = group.clone();
    assert_eq!(copy.id, group.id);
    assert_eq!(copy.parent_id, group.parent_id);
    assert_eq!(copy.name, group.name);
    assert_eq!(copy.icon_id, 7);
    assert_eq!(copy.notes, "n");
    assert_eq!(copy.is_recycle_bin, group.is_recycle_bin);
    assert_eq!(copy.is_expanded, group.is_expanded);
}
