use microbin::auth::{auth_page, AuthPath};
use microbin::codec::Codec;
use microbin::paste::Paste;
use microbin::registry::{InsertError, Registry};

fn registry(ws: &[&str]) -> Registry {
    Registry::new(Codec::mnemonic(ws.iter().map(|w| w.to_string()).collect()).unwrap())
}

fn paste(id: u64, custom: Option<&str>, expiration: Option<u64>) -> Paste {
    Paste::new(id, custom.map(|s| s.to_string()), expiration)
}

#[test]
fn custom_url_availability_is_case_sensitive() {
    let mut r = registry(&["ant", "bee", "cat"]);
    assert_eq!(r.insert(paste(1, Some("launch"), None), 10), Ok(1));
    assert!(!r.is_slug_available("launch", 10));
    assert!(r.is_slug_available("LAUNCH", 10));
    // the derived slug of id 1 is taken too
    assert!(!r.is_slug_available("bee", 10));
    assert!(r.is_slug_available("cat", 10));
}

#[test]
fn derived_slug_resolves_until_expiry() {
    let mut r = registry(&["ant", "bee"]);
    assert_eq!(r.insert(paste(2, None, Some(100)), 10), Ok(2));
    let i = r.find_by_slug("bee-ant", 50).unwrap();
    assert_eq!(r.get(i).id, 2);
    assert_eq!(r.find_by_slug("bee-ant", 100), None);
    assert_eq!(r.len(), 0);
    assert_eq!(r.insert(paste(2, None, None), 101), Err(InsertError::IdReused));
    assert!(r.is_slug_available("bee-ant", 101));
    assert_eq!(r.insert(paste(3, None, None), 101), Ok(3));
    let j = r.find_by_slug("bee-bee", 102).unwrap();
    assert_eq!(r.get(j).id, 3);
}

#[test]
fn expired_paste_is_swept_and_unexpiring_kept() {
    let mut r = registry(&["ant", "bee", "cat"]);
    let now = 1000;
    assert_eq!(r.insert(paste(1, Some("old"), Some(now - 1)), now - 10), Ok(1));
    assert_eq!(r.insert(paste(2, Some("kept"), None), now - 10), Ok(2));
    assert_eq!(r.find_by_slug("old", now), None);
    assert_eq!(r.find_by_slug("bee", now), None);
    r.sweep(u64::MAX);
    assert_eq!(r.len(), 1);
    assert_eq!(r.get(0).id, 2);
    assert!(r.find_by_slug("kept", u64::MAX).is_some());
}

#[test]
fn same_custom_url_inserted_once() {
    let mut r = registry(&["ant", "bee", "cat"]);
    let first = r.insert(paste(1, Some("foo"), None), 5);
    let second = r.insert(paste(2, Some("foo"), None), 5);
    assert_eq!(first, Ok(1));
    assert_eq!(second, Err(InsertError::SlugTaken));
    assert_eq!(r.len(), 1);
}

#[test]
fn custom_url_may_not_be_a_derived_slug() {
    let mut r = registry(&["ant", "bee", "cat"]);
    assert_eq!(r.insert(paste(4, None, None), 0), Ok(4));
    assert_eq!(r.insert(paste(5, Some("bee-bee"), None), 0), Err(InsertError::SlugTaken));
    assert_eq!(r.insert(paste(6, Some("bee-bee-bee"), None), 0), Ok(6));
}

#[test]
fn derived_slug_may_not_be_a_custom_url() {
    let mut r = registry(&["ant", "bee", "cat"]);
    assert_eq!(r.insert(paste(0, Some("cat"), None), 0), Ok(0));
    assert_eq!(r.insert(paste(2, None, None), 0), Err(InsertError::SlugTaken));
    assert_eq!(r.insert(paste(3, None, None), 0), Ok(3));
    assert_eq!(r.insert(paste(3, None, None), 0), Err(InsertError::IdReused));
    assert_eq!(r.insert(paste(1, None, None), 0), Err(InsertError::IdReused));
}

#[test]
fn custom_url_wins_over_derived_slug() {
    let mut r = registry(&["ant", "bee", "cat"]);
    assert_eq!(r.insert(paste(1, Some("x"), None), 0), Ok(1));
    assert_eq!(r.insert(paste(2, None, None), 0), Ok(2));
    let i = r.find_by_slug("x", 0).unwrap();
    assert_eq!(r.get(i).id, 1);
    let j = r.find_by_slug("cat", 0).unwrap();
    assert_eq!(r.get(j).id, 2);
    assert_eq!(r.find_by_slug("ant", 0), None);
    assert_eq!(r.find_by_slug("", 0), None);
}

#[test]
fn removing_twice_is_harmless() {
    let mut r = registry(&["ant", "bee", "cat"]);
    assert_eq!(r.insert(paste(1, Some("a"), None), 0), Ok(1));
    assert_eq!(r.insert(paste(2, None, None), 0), Ok(2));
    assert_eq!(r.remove("a", 0), Some(1));
    assert_eq!(r.len(), 1);
    assert_eq!(r.remove("a", 0), None);
    assert_eq!(r.len(), 1);
    assert_eq!(r.get(0).id, 2);
    assert_eq!(r.remove("cat", 0), Some(2));
    assert_eq!(r.remove("cat", 0), None);
    assert_eq!(r.len(), 0);
}

#[test]
fn expiration_edges() {
    let p = paste(1, None, Some(10));
    assert!(!p.is_expired(9));
    assert!(p.is_expired(10));
    assert!(p.is_expired(11));
    assert!(!paste(1, None, None).is_expired(u64::MAX));
}

#[test]
fn auth_page_for_live_paste() {
    let mut r = registry(&["ant", "bee", "cat"]);
    let mut p = paste(1, Some("secret"), None);
    p.encrypted_key = Some("k3y".to_string());
    p.encrypt_client = true;
    assert_eq!(r.insert(p, 0), Ok(1));
    let page = auth_page(&mut r, "secret", "incorrect", AuthPath::Raw, 0).unwrap();
    assert_eq!(page.id, "secret");
    assert_eq!(page.status, "incorrect");
    assert_eq!(page.encrypted_key, "k3y");
    assert!(page.encrypt_client);
    assert_eq!(page.path.route(), "raw");
    assert_eq!(r.insert(paste(2, None, None), 0), Ok(2));
    let plain = auth_page(&mut r, "cat", "", AuthPath::Upload, 0).unwrap();
    assert_eq!(plain.encrypted_key, "");
    assert!(auth_page(&mut r, "nothing", "", AuthPath::Remove, 0).is_none());
}

#[test]
fn auth_routes() {
    assert_eq!(AuthPath::Upload.route(), "upload");
    assert_eq!(AuthPath::Raw.route(), "raw");
    assert_eq!(AuthPath::EditPrivate.route(), "edit_private");
    assert_eq!(AuthPath::SecureFile.route(), "secure_file");
    assert_eq!(AuthPath::Remove.route(), "remove");
}
