//! Owners: priority and the serialized form.
use cadastre::owner::Owner;

#[test]
fn serialize_owner() {
    assert_eq!(Owner::Admin.to_repr(), Some("@_admin".to_string()));
    assert_eq!(Owner::user("troido").to_repr(), Some("troido".to_string()));
    assert_eq!(Owner::Public.to_repr(), None);
}

#[test]
fn deserialize_owner() {
    assert_eq!(Owner::from_repr(Some("@_admin".to_string())), Owner::Admin);
    assert_eq!(Owner::from_repr(Some("troido".to_string())), Owner::user("troido"));
    assert_eq!(Owner::from_repr(None), Owner::Public);
}

#[test]
fn priority_ranks_admin_over_user_over_public() {
    assert_eq!(Owner::Admin.priority(), 3);
    assert_eq!(Owner::user("troido").priority(), 2);
    assert_eq!(Owner::user("odiort").priority(), 2);
    assert_eq!(Owner::Public.priority(), 1);
}
