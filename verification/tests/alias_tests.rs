use trapper::alias::{resolve_target, AliasError, AliasRegistry};
use trapper::text::NumError;

#[test]
fn alias_binding() {
    let mut a = AliasRegistry::new();
    assert_eq!(a.set_alias(5, "five".to_string()), Ok(()));
    assert_eq!(a.lookup_by_alias(&"five".to_string()), Some(5));
    assert_eq!(a.lookup_by_chat(5), Some("five".to_string()));
    assert_eq!(a.lookup_by_alias(&"six".to_string()), None);
    assert_eq!(a.lookup_by_chat(6), None);
}

#[test]
fn alias_collision() {
    let mut a = AliasRegistry::new();
    a.set_alias(5, "name".to_string()).unwrap();
    // the alias already names chat 5: binding it to chat 6 fails and the
    // table is unchanged
    let e = a.set_alias(6, "name".to_string()).unwrap_err();
    assert_eq!(e, AliasError::Collision);
    assert_eq!(e.message(), "Ce faci sacale, vrei sa furi clout?");
    assert_eq!(a.lookup_by_alias(&"name".to_string()), Some(5));
    assert_eq!(a.lookup_by_chat(6), None);
}

#[test]
fn already_aliased() {
    let mut a = AliasRegistry::new();
    a.set_alias(5, "one".to_string()).unwrap();
    let e = a.set_alias(5, "two".to_string()).unwrap_err();
    assert_eq!(e, AliasError::AlreadyAliased);
    assert_eq!(e.message(), "Ce faci ma, ai pus deja aliasul asta esti prajit?");
    assert_eq!(a.set_alias(5, "one".to_string()), Err(AliasError::AlreadyAliased));
    assert_eq!(a.lookup_by_chat(5), Some("one".to_string()));
    assert_eq!(a.lookup_by_alias(&"two".to_string()), None);
}

#[test]
fn alias_pairs_round_trip() {
    let mut a = AliasRegistry::new();
    a.set_alias(1, "uno".to_string()).unwrap();
    a.set_alias(2, "dos".to_string()).unwrap();
    a.set_alias(3, "tres".to_string()).unwrap();
    let pairs = a.to_pairs();
    assert_eq!(pairs.len(), 3);
    let b = AliasRegistry::from_pairs(pairs);
    assert_eq!(b.lookup_by_alias(&"uno".to_string()), Some(1));
    assert_eq!(b.lookup_by_alias(&"dos".to_string()), Some(2));
    assert_eq!(b.lookup_by_alias(&"tres".to_string()), Some(3));
    assert_eq!(b.lookup_by_chat(1), Some("uno".to_string()));
    assert_eq!(b.lookup_by_chat(2), Some("dos".to_string()));
}

#[test]
fn target_resolution() {
    let mut a = AliasRegistry::new();
    a.set_alias(5, "77".to_string()).unwrap();
    // the alias lookup comes first, the numeric reading second
    assert_eq!(resolve_target(&a, &"77".to_string()), Ok(5));
    assert_eq!(resolve_target(&a, &"42".to_string()), Ok(42));
    assert_eq!(resolve_target(&a, &" 42 ".to_string()), Ok(42));
    assert_eq!(resolve_target(&a, &"nope".to_string()), Err(NumError::InvalidDigit));
    assert_eq!(resolve_target(&a, &"".to_string()), Err(NumError::Empty));
}
