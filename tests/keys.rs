use ink_storage_traits::key::{compose, AutoKey, KeyHint, ManualKey, ResolverKey, StorageKey, ROOT_KEY};

#[test]
fn storage_key_types_works() {
    assert_eq!(AutoKey.key(), 0);
    assert_eq!(ManualKey::at_root(123).key(), 123);
    assert_eq!(ManualKey::at_root(0).key(), 0);
    assert_eq!(ResolverKey::new(AutoKey, AutoKey).key(), 0);
    assert_eq!(ResolverKey::new(AutoKey, ManualKey::at_root(123)).key(), 123);
    assert_eq!(
        ResolverKey::new(ManualKey::at_root(456), ManualKey::at_root(123)).key(),
        456
    );
    assert_eq!(
        ResolverKey::new(ManualKey::at_root(0), ManualKey::at_root(123)).key(),
        0
    );
}

#[test]
fn compose_with_zero_keeps_other_key() {
    assert_eq!(compose(0, 13), 13);
    assert_eq!(compose(31, 0), 31);
    assert_eq!(compose(0, 0), 0);
    assert_eq!(compose(123, ROOT_KEY), 123);
}

#[test]
fn compose_mixes_non_zero_keys() {
    assert_eq!(compose(31, 13), 0x9ab19a67);
    assert_ne!(compose(31, 13), 31 ^ 13);
}

#[test]
fn compose_is_deterministic() {
    for local in [0u32, 1, 7, 123, 456, u32::MAX] {
        for parent in [0u32, 1, 99, 0xdead_beef, u32::MAX] {
            assert_eq!(compose(local, parent), compose(local, parent));
        }
    }
}

#[test]
fn compose_discriminates_parents() {
    for local in [1u32, 5, 123, 0xffff] {
        let mut seen = std::collections::HashSet::new();
        for parent in 0u32..2000 {
            assert!(seen.insert(compose(local, parent)));
        }
    }
}

#[test]
fn manual_overrides_automatic() {
    let manual = ManualKey::new(5, ROOT_KEY);
    assert_eq!(ResolverKey::new(AutoKey, manual).key(), manual.key());
    assert_eq!(
        ResolverKey::new(ManualKey::at_root(7), ManualKey::at_root(5)).key(),
        compose(7, ROOT_KEY)
    );
    assert!(ResolverKey::new(AutoKey, manual).is_auto_key());
    assert!(!ResolverKey::new(manual, AutoKey).is_auto_key());
}

#[test]
fn manual_key_under_parent_composes() {
    let k = ManualKey::new(3, 77);
    assert_eq!(k.key(), compose(3, 77));
    assert!(!k.is_auto_key());
    assert!(AutoKey.is_auto_key());
}

#[test]
fn nested_resolver_takes_left_chain() {
    let inner = ResolverKey::new(AutoKey, ManualKey::at_root(9));
    let outer = ResolverKey::new(inner, ManualKey::at_root(4));
    assert!(outer.is_auto_key());
    assert_eq!(outer.key(), 4);
    let inner = ResolverKey::new(ManualKey::at_root(8), AutoKey);
    let outer = ResolverKey::new(inner, ManualKey::at_root(4));
    assert_eq!(outer.key(), 8);
}

fn resolver(left: KeyHint, right: KeyHint) -> KeyHint {
    KeyHint::Resolver(Box::new(left), Box::new(right))
}

#[test]
fn key_hint_resolves_like_key_types() {
    assert_eq!(resolver(KeyHint::Automatic, KeyHint::Automatic).resolve(), ROOT_KEY);
    let m123 = || KeyHint::Manual { local: 123, parent: ROOT_KEY };
    let m456 = KeyHint::Manual { local: 456, parent: ROOT_KEY };
    assert_eq!(resolver(KeyHint::Automatic, m123()).resolve(), 123);
    assert_eq!(resolver(m456, m123()).resolve(), 456);
    let m0 = KeyHint::Manual { local: 0, parent: ROOT_KEY };
    assert_eq!(resolver(m0, m123()).resolve(), 0);
    let nested = resolver(resolver(KeyHint::Automatic, KeyHint::Automatic), m123());
    assert!(nested.is_automatic());
    assert_eq!(nested.resolve(), 123);
    let under = KeyHint::Manual { local: 31, parent: 13 };
    assert_eq!(under.resolve(), 0x9ab19a67);
    assert!(!under.is_automatic());
}
