use headless_schedule::config::GeneralData;
use headless_schedule::whitelist::{
    add_id, contains_id, open_whitelist, register, registered_id, registered_ids, remove_id,
};

fn lines(items: &[&str]) -> Vec<String> {
    items.iter().map(|s| s.to_string()).collect()
}

#[test]
fn add_and_remove_ids() {
    let mut l = lines(&["U-a", "U-b"]);
    assert!(add_id(&mut l, "U-c".to_string()));
    assert!(!add_id(&mut l, "U-a".to_string()));
    assert_eq!(l, lines(&["U-a", "U-b", "U-c"]));
    assert!(remove_id(&mut l, &"U-b".to_string()));
    assert!(!remove_id(&mut l, &"U-x".to_string()));
    assert_eq!(l, lines(&["U-a", "U-c"]));
    assert!(contains_id(&l, &"U-c".to_string()));
    assert!(!contains_id(&l, &"U-b".to_string()));
}

#[test]
fn register_creates_then_changes() {
    let mut l = lines(&["111=U-a"]);
    assert!(!register(&mut l, "222", "U-b"));
    assert_eq!(l, lines(&["111=U-a", "222=U-b"]));
    assert!(register(&mut l, "111", "U-c"));
    assert_eq!(l, lines(&["111=U-c", "222=U-b"]));
}

#[test]
fn registration_ids() {
    assert_eq!(registered_id("111=U-a"), Some("U-a".to_string()));
    assert_eq!(registered_id("111=U-a=x"), Some("U-a".to_string()));
    assert_eq!(registered_id("111="), Some(String::new()));
    assert_eq!(registered_id("no record"), None);
    let l = lines(&["1=U-a", "junk", "2=U-b"]);
    assert_eq!(registered_ids(&l), lines(&["U-a", "U-b"]));
    assert_eq!(open_whitelist(&lines(&["U-admin"]), &l), lines(&["U-admin", "U-a", "U-b"]));
}

#[test]
fn admin_roles() {
    let mut d = GeneralData::default();
    assert_eq!(d.channel_id, None);
    assert!(d.add_admin_role(5));
    assert!(!d.add_admin_role(5));
    assert!(d.add_admin_role(7));
    assert_eq!(d.admin_roles, Some(vec![5, 7]));
    assert!(d.remove_admin_role(5));
    assert!(!d.remove_admin_role(9));
    assert_eq!(d.admin_roles, Some(vec![7]));
}
