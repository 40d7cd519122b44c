// The access-control gate the calling layer runs before store operations.

use vectordb::error::Error;
use vectordb::users::AccessControl;

#[test]
fn owner_is_authorized() {
    let gate = AccessControl::new("owner-principal".to_string());
    assert!(gate.check_authorization("owner-principal"));
    assert!(gate.check_is_owner("owner-principal"));
}

#[test]
fn registered_admin_is_authorized_but_not_owner() {
    let mut gate = AccessControl::new("owner-principal".to_string());
    assert_eq!(gate.add_admin("admin-principal".to_string()), Ok(()));
    assert!(gate.check_authorization("admin-principal"));
    assert!(!gate.check_is_owner("admin-principal"));
}

#[test]
fn stranger_is_denied() {
    let mut gate = AccessControl::new("owner-principal".to_string());
    let _ = gate.add_admin("admin-principal".to_string());
    assert!(!gate.check_authorization("someone-else"));
    assert!(!gate.check_is_owner("someone-else"));
}

#[test]
fn add_admin_twice_is_refused() {
    let mut gate = AccessControl::new("owner-principal".to_string());
    let _ = gate.add_admin("admin-principal".to_string());
    assert_eq!(
        gate.add_admin("admin-principal".to_string()),
        Err(Error::UniqueViolation)
    );
}

#[test]
fn remove_admin_revokes_access() {
    let mut gate = AccessControl::new("owner-principal".to_string());
    let _ = gate.add_admin("admin-principal".to_string());
    assert_eq!(gate.remove_admin("admin-principal"), Ok(()));
    assert!(!gate.check_authorization("admin-principal"));
}

#[test]
fn remove_unknown_admin_is_refused() {
    let mut gate = AccessControl::new("owner-principal".to_string());
    assert_eq!(gate.remove_admin("admin-principal"), Err(Error::NotFound));
}

#[test]
fn get_admins_lists_registration_order() {
    let mut gate = AccessControl::new("owner-principal".to_string());
    let _ = gate.add_admin("first".to_string());
    let _ = gate.add_admin("second".to_string());
    assert_eq!(
        gate.get_admins(),
        vec!["first".to_string(), "second".to_string()]
    );
}
