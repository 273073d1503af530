use hiho::{find_entry, find_entry_with_index, Entry, Vault, VaultError};

fn entry(n: &str, u: &str, p: &str) -> Entry {
    Entry::new(n, u, p)
}

fn names(v: &Vault) -> Vec<String> {
    v.get_entries().iter().map(|e| e.name.clone()).collect()
}

fn three() -> Vault {
    let mut v = Vault::new("master").unwrap();
    v.add_entry(entry("mail", "alice", "pw1"));
    v.add_entry(entry("Bank", "bob", "pw2"));
    v.add_entry(entry("mail", "carol", "pw3"));
    v
}

#[test]
fn new_vault_is_empty() {
    let v = Vault::new("master").unwrap();
    assert_eq!(v.len(), 0);
    assert!(v.get_entries().is_empty());
    assert!(v.get(0).is_none());
}

#[test]
fn add_appends_in_order() {
    let v = three();
    assert_eq!(names(&v), vec!["mail", "Bank", "mail"]);
    assert_eq!(v.get(2).unwrap().username, "carol");
}

#[test]
fn remove_shifts_later_entries() {
    let mut v = three();
    let removed = v.remove_entry(1).unwrap();
    assert_eq!(removed.name, "Bank");
    assert_eq!(v.get(1).unwrap().username, "carol");
    assert_eq!(v.len(), 2);
    let last = v.remove_entry(1).unwrap();
    assert_eq!(last.username, "carol");
    assert_eq!(v.len(), 1);
    assert!(v.remove_entry(5).is_none());
    assert_eq!(v.len(), 1);
    assert_eq!(v.get(0).unwrap().username, "alice");
}

#[test]
fn edit_changes_only_given_fields() {
    let mut v = three();
    assert_eq!(v.edit_entry(0, None, Some("new-pw".to_string())), Ok(()));
    let e = v.get(0).unwrap();
    assert_eq!((e.name.as_str(), e.username.as_str(), e.password.as_str()), ("mail", "alice", "new-pw"));
    assert_eq!(v.edit_entry(1, Some("robert".to_string()), None), Ok(()));
    let e = v.get(1).unwrap();
    assert_eq!((e.name.as_str(), e.username.as_str(), e.password.as_str()), ("Bank", "robert", "pw2"));
    assert_eq!(v.edit_entry(3, None, None), Err(VaultError::EntryNotFound));
    assert_eq!(v.get(2).unwrap().password, "pw3");
}

#[test]
fn find_by_name_is_first_exact_match() {
    let v = three();
    let (i, e) = v.find_by_name("mail").unwrap();
    assert_eq!(i, 0);
    assert_eq!(e.username, "alice");
    assert!(v.find_by_name("bank").is_none());
    assert_eq!(v.find_by_name("Bank").unwrap().0, 1);
}

#[test]
fn search_is_case_insensitive_and_ordered() {
    let v = three();
    let hits = v.search("AI");
    assert_eq!(hits.iter().map(|(i, _)| *i).collect::<Vec<_>>(), vec![0, 2]);
    assert_eq!(hits[1].1.username, "carol");
    assert_eq!(v.search("bAN").len(), 1);
    assert_eq!(v.search("").len(), 3);
    assert!(v.search("zzz").is_empty());
}

#[test]
fn resolve_reads_one_based_numbers_then_names() {
    let v = three();
    assert_eq!(v.resolve("2"), Ok(1));
    assert_eq!(v.resolve("1"), Ok(0));
    assert_eq!(v.resolve("+3"), Ok(2));
    assert_eq!(v.resolve("Bank"), Ok(1));
    assert_eq!(v.resolve("nonexistent-name"), Err(VaultError::EntryNotFound));
    assert_eq!(v.resolve("0"), Err(VaultError::EntryNotFound));
    assert_eq!(v.resolve("4"), Err(VaultError::EntryNotFound));
}

#[test]
fn resolve_falls_back_to_names_for_out_of_range_numbers() {
    let mut v = three();
    v.add_entry(entry("7", "numbered", "pw"));
    assert_eq!(v.resolve("7"), Ok(3));
    assert_eq!(find_entry(&v, "7").unwrap().username, "numbered");
    let (i, e) = find_entry_with_index(&v, "2").unwrap();
    assert_eq!((i, e.name.as_str()), (1, "Bank"));
    assert!(find_entry(&v, "missing").is_none());
}

#[test]
fn save_and_load_round_trip() {
    let v = three();
    let bytes = v.save_to_bytes().unwrap();
    let mut fresh = Vault::new("master").unwrap();
    fresh.add_entry(entry("stale", "x", "y"));
    fresh.load_from_bytes(Some(&bytes)).unwrap();
    assert_eq!(names(&fresh), vec!["mail", "Bank", "mail"]);
    let pairs: Vec<(String, String)> = fresh.get_entries().iter().map(|e| (e.username.clone(), e.password.clone())).collect();
    assert_eq!(pairs, vec![("alice".into(), "pw1".into()), ("bob".into(), "pw2".into()), ("carol".into(), "pw3".into())]);
    let again = v.save_to_bytes().unwrap();
    assert_ne!(bytes, again);
}

#[test]
fn loading_an_absent_file_changes_nothing() {
    let mut v = three();
    assert_eq!(v.load_from_bytes(None), Ok(()));
    assert_eq!(v.len(), 3);
}

#[test]
fn loading_garbage_leaves_store_unchanged() {
    let mut v = three();
    assert_eq!(v.load_from_bytes(Some(&[1, 2, 3])), Err(VaultError::MalformedVaultFile));
    assert_eq!(v.len(), 3);
    assert!(VaultError::MalformedVaultFile.is_open_error());
    assert!(!VaultError::EntryNotFound.is_open_error());
}

#[test]
fn reopening_with_the_same_password_returns_the_entry() {
    let mut v = Vault::new("Tr0ub4dor&3").unwrap();
    v.add_entry(entry("email", "a@b.com", "xyz"));
    let bytes = v.save_to_bytes().unwrap();
    let mut reopened = Vault::new("Tr0ub4dor&3").unwrap();
    reopened.load_from_bytes(Some(&bytes)).unwrap();
    assert_eq!(reopened.len(), 1);
    let e = reopened.get(0).unwrap();
    assert_eq!((e.name.as_str(), e.username.as_str(), e.password.as_str()), ("email", "a@b.com", "xyz"));
}

#[test]
fn reopening_with_a_wrong_password_fails() {
    let mut v = Vault::new("Tr0ub4dor&3").unwrap();
    v.add_entry(entry("email", "a@b.com", "xyz"));
    let bytes = v.save_to_bytes().unwrap();
    let mut wrong = Vault::new("wrong").unwrap();
    let r = wrong.load_from_bytes(Some(&bytes));
    assert!(matches!(r, Err(VaultError::DecryptionError) | Err(VaultError::MalformedPayload)));
    assert!(r.unwrap_err().is_open_error());
    assert_eq!(wrong.len(), 0);
}

#[test]
fn loading_a_file_with_a_foreign_payload_fails() {
    let key = hiho::derive_key("master", hiho::VAULT_SALT).unwrap();
    let envelope = hiho::encrypt(b"[1, 2, 3]", &key).unwrap();
    let bytes = hiho::encode_envelope(&envelope);
    let mut v = Vault::new("master").unwrap();
    v.add_entry(entry("kept", "u", "p"));
    assert_eq!(v.load_from_bytes(Some(&bytes)), Err(VaultError::MalformedPayload));
    assert_eq!(names(&v), vec!["kept"]);
}
