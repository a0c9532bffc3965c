use ink_storage_traits::key::{compose, KeyHint, ROOT_KEY};
use ink_storage_traits::layout::{
    field_key, resolve_layout, resolve_schema, FieldShape, ResolvedField, SchemaNode, TypeLayout,
};

#[test]
fn packed_field_takes_its_manual_key() {
    assert_eq!(field_key(&TypeLayout::Packed, 123, ROOT_KEY), 123);
    assert_eq!(field_key(&TypeLayout::Packed, 31, 13), compose(31, 13));
}

#[test]
fn spread_field_with_manual_hint_keeps_it() {
    let layout = TypeLayout::Spread(KeyHint::Manual { local: 7, parent: ROOT_KEY });
    assert_eq!(field_key(&layout, 123, 99), 7);
    let auto = TypeLayout::Spread(KeyHint::Automatic);
    assert_eq!(field_key(&auto, 123, ROOT_KEY), 123);
}

#[test]
fn resolve_layout_in_declared_order() {
    let fields = vec![
        FieldShape { local_key: 1, layout: TypeLayout::Packed },
        FieldShape {
            local_key: 2,
            layout: TypeLayout::Spread(KeyHint::Manual { local: 50, parent: ROOT_KEY }),
        },
        FieldShape { local_key: 3, layout: TypeLayout::Spread(KeyHint::Automatic) },
    ];
    let parent = 0x1000;
    let r = resolve_layout(&fields, parent);
    assert_eq!(
        r,
        vec![
            ResolvedField { key: compose(1, parent), packed: true },
            ResolvedField { key: 50, packed: false },
            ResolvedField { key: compose(3, parent), packed: false },
        ]
    );
}

#[test]
fn sibling_order_does_not_change_keys() {
    let a = vec![
        FieldShape { local_key: 4, layout: TypeLayout::Packed },
        FieldShape { local_key: 9, layout: TypeLayout::Packed },
    ];
    let b = vec![
        FieldShape { local_key: 9, layout: TypeLayout::Packed },
        FieldShape { local_key: 4, layout: TypeLayout::Packed },
    ];
    let ra = resolve_layout(&a, 77);
    let rb = resolve_layout(&b, 77);
    assert_eq!(ra[0], rb[1]);
    assert_eq!(ra[1], rb[0]);
}

#[test]
fn same_manual_key_under_different_parents() {
    let x = resolve_layout(&vec![FieldShape { local_key: 5, layout: TypeLayout::Packed }], 11);
    let y = resolve_layout(&vec![FieldShape { local_key: 5, layout: TypeLayout::Packed }], 12);
    assert_ne!(x[0].key, y[0].key);
    assert!(resolve_layout(&Vec::new(), 3).is_empty());
}

#[test]
fn nested_fields_compose_with_all_ancestors() {
    let nodes = vec![
        SchemaNode { parent: None, local_key: 1, layout: TypeLayout::Spread(KeyHint::Automatic) },
        SchemaNode { parent: Some(0), local_key: 2, layout: TypeLayout::Spread(KeyHint::Automatic) },
        SchemaNode { parent: Some(1), local_key: 3, layout: TypeLayout::Packed },
        SchemaNode { parent: None, local_key: 4, layout: TypeLayout::Packed },
    ];
    let root = 0x55;
    let r = resolve_schema(&nodes, root);
    let k0 = compose(1, root);
    let k1 = compose(2, k0);
    let k2 = compose(3, k1);
    assert_eq!(
        r,
        vec![
            ResolvedField { key: k0, packed: false },
            ResolvedField { key: k1, packed: false },
            ResolvedField { key: k2, packed: true },
            ResolvedField { key: compose(4, root), packed: true },
        ]
    );
}

#[test]
fn nested_manual_hint_overrides_parent_chain() {
    let nodes = vec![
        SchemaNode {
            parent: None,
            local_key: 1,
            layout: TypeLayout::Spread(KeyHint::Manual { local: 600, parent: ROOT_KEY }),
        },
        SchemaNode { parent: Some(0), local_key: 0, layout: TypeLayout::Packed },
        SchemaNode { parent: Some(0), local_key: 9, layout: TypeLayout::Packed },
    ];
    let r = resolve_schema(&nodes, ROOT_KEY);
    assert_eq!(r[0].key, 600);
    assert_eq!(r[1].key, 600);
    assert_eq!(r[2].key, compose(9, 600));
}
