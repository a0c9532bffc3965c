//! Assigns each field of a storage structure its key.
use vstd::prelude::*;
use crate::key::{compose, compose_spec, Key, KeyHint};

verus! {

/// How a type is stored.
#[derive(Debug)]
pub enum TypeLayout {
    /// The value's bytes sit inside its parent's cell; it has no key of its own.
    Packed,
    /// The value is a container whose fields get keys of their own; it carries
    /// the hint its type declares.
    Spread(KeyHint),
}

impl TypeLayout {
    /// The hint a type prefers for itself: packed types have no preference.
    pub open spec fn preferred_key(self) -> KeyHint {
        match self {
            TypeLayout::Packed => KeyHint::Automatic,
            TypeLayout::Spread(hint) => hint,
        }
    }

    /// Whether the type is packed.
    pub fn is_packed(&self) -> (r: bool)
        ensures
            r == (*self is Packed),
    {
        match self {
            TypeLayout::Packed => true,
            TypeLayout::Spread(_) => false,
        }
    }
}

/// The key of a field of a type with the given layout, declared with local key
/// `local` under a structure at `parent`: the type's preferred hint, resolved
/// against the manual key `(local, parent)`.
pub open spec fn field_key_spec(layout: TypeLayout, local: Key, parent: Key) -> Key {
    KeyHint::Resolver(
        Box::new(layout.preferred_key()),
        Box::new(KeyHint::Manual { local, parent }),
    ).spec_key()
}

/// The key of one field.
pub fn field_key(layout: &TypeLayout, local: Key, parent: Key) -> (r: Key)
    ensures
        r == field_key_spec(*layout, local, parent),
        *layout is Packed ==> r == compose_spec(local, parent),
        layout.preferred_key().spec_is_auto() ==> r == compose_spec(local, parent),
        !layout.preferred_key().spec_is_auto() ==> r == layout.preferred_key().spec_key(),
{
    let ghost manual = KeyHint::Manual { local, parent };
    assert(!manual.spec_is_auto());
    assert(manual.spec_key() == compose_spec(local, parent));
    match layout {
        TypeLayout::Packed => {
            assert(KeyHint::Automatic.spec_is_auto());
            compose(local, parent)
        },
        TypeLayout::Spread(hint) => {
            if hint.is_automatic() {
                compose(local, parent)
            } else {
                hint.resolve()
            }
        },
    }
}

/// A field as a schema declares it.
#[derive(Debug)]
pub struct FieldShape {
    /// The key the field is numbered with inside its structure.
    pub local_key: Key,
    /// The layout of the field's type.
    pub layout: TypeLayout,
}

/// Where a field's value lives.
#[derive(Clone, Copy, Debug, PartialEq, Eq)]
pub struct ResolvedField {
    /// The field's key; for a spread field, the parent key of its own fields.
    pub key: Key,
    /// Whether the field's bytes are stored in place.
    pub packed: bool,
}

/// The resolved form of one declared field.
pub open spec fn resolved_spec(field: FieldShape, parent: Key) -> ResolvedField {
    ResolvedField {
        key: field_key_spec(field.layout, field.local_key, parent),
        packed: field.layout is Packed,
    }
}

/// Resolves the fields of a structure stored at `parent`, in declared order.
pub fn resolve_layout(fields: &Vec<FieldShape>, parent: Key) -> (r: Vec<ResolvedField>)
    ensures
        r.len() == fields.len(),
        forall|i: int| 0 <= i < r.len() ==> r[i] == resolved_spec(#[trigger] fields[i], parent),
{
    let mut out: Vec<ResolvedField> = Vec::new();
    let mut i: usize = 0;
    while i < fields.len()
        invariant
            i <= fields.len(),
            out.len() == i,
            forall|j: int| 0 <= j < i ==> out[j] == resolved_spec(#[trigger] fields[j], parent),
        decreases fields.len() - i,
    {
        let field = &fields[i];
        let key = field_key(&field.layout, field.local_key, parent);
        let packed = field.layout.is_packed();
        out.push(ResolvedField { key, packed });
        i = i + 1;
    }
    out
}

/// A field's key depends on its own declaration and its parent alone: two
/// structures that declare the same field, at any positions and among any
/// siblings, give it the same key.
pub proof fn lemma_sibling_independence(
    a: Seq<FieldShape>,
    b: Seq<FieldShape>,
    i: int,
    j: int,
    parent: Key,
)
    requires
        0 <= i < a.len(),
        0 <= j < b.len(),
        a[i] == b[j],
    ensures
        resolved_spec(a[i], parent) == resolved_spec(b[j], parent),
{
}

/// A field of a nested schema, stored in an arena: `parent` is the index of
/// the spread field that holds it, or none for a field of the root structure.
#[derive(Debug)]
pub struct SchemaNode {
    pub parent: Option<usize>,
    pub local_key: Key,
    pub layout: TypeLayout,
}

/// Each node's parent comes before it and is a spread field.
pub open spec fn schema_wf(nodes: Seq<SchemaNode>) -> bool {
    forall|i: int|
        0 <= i < nodes.len() ==> match (#[trigger] nodes[i]).parent {
            None => true,
            Some(p) => p < i && nodes[p as int].layout is Spread,
        }
}

/// The key of node `i` of a schema whose root structure is stored at `root`:
/// its hint is resolved against its local key under the key of its parent.
pub open spec fn node_key(nodes: Seq<SchemaNode>, i: int, root: Key) -> Key
    decreases i,
    when 0 <= i
{
    let parent_key = match nodes[i].parent {
        None => root,
        Some(p) => if 0 <= p < i {
            node_key(nodes, p as int, root)
        } else {
            root
        },
    };
    field_key_spec(nodes[i].layout, nodes[i].local_key, parent_key)
}

/// Resolves every field of a nested schema in one pass over the arena.
pub fn resolve_schema(nodes: &Vec<SchemaNode>, root: Key) -> (r: Vec<ResolvedField>)
    requires
        schema_wf(nodes@),
    ensures
        r.len() == nodes.len(),
        forall|i: int|
            0 <= i < r.len() ==> (#[trigger] r[i]).key == node_key(nodes@, i, root) && r[i].packed
                == (nodes[i].layout is Packed),
{
    let mut out: Vec<ResolvedField> = Vec::new();
    let mut i: usize = 0;
    while i < nodes.len()
        invariant
            schema_wf(nodes@),
            i <= nodes.len(),
            out.len() == i,
            forall|j: int|
                0 <= j < i ==> (#[trigger] out[j]).key == node_key(nodes@, j, root) && out[j].packed
                    == (nodes[j].layout is Packed),
        decreases nodes.len() - i,
    {
        let node = &nodes[i];
        let parent_key = match node.parent {
            None => root,
            Some(p) => out[p].key,
        };
        let key = field_key(&node.layout, node.local_key, parent_key);
        let packed = node.layout.is_packed();
        out.push(ResolvedField { key, packed });
        i = i + 1;
    }
    out
}

/// A field's key is its hint resolved under its parent's key, so a manual key
/// at any depth composes with the keys of all its ancestors.
pub proof fn lemma_node_key_composes_with_parent(nodes: Seq<SchemaNode>, i: int, root: Key)
    requires
        schema_wf(nodes),
        0 <= i < nodes.len(),
        nodes[i].layout is Packed,
    ensures
        nodes[i].parent is None ==> node_key(nodes, i, root) == compose_spec(
            nodes[i].local_key,
            root,
        ),
        nodes[i].parent matches Some(p) ==> node_key(nodes, i, root) == compose_spec(
            nodes[i].local_key,
            node_key(nodes, p as int, root),
        ),
{
    assert(KeyHint::Automatic.spec_is_auto());
    assert((KeyHint::Manual { local: nodes[i].local_key, parent: root }).spec_key()
        == compose_spec(nodes[i].local_key, root));
    if let Some(p) = nodes[i].parent {
        let pk = node_key(nodes, p as int, root);
        assert((KeyHint::Manual { local: nodes[i].local_key, parent: pk }).spec_key()
            == compose_spec(nodes[i].local_key, pk));
    }
}

} // verus!
