//! Storage keys and the hints that select them.
use vstd::prelude::*;

verus! {

/// A storage key: the address of a storage cell or of the root of a subtree.
pub type Key = u32;

/// The key of the storage root.
pub const ROOT_KEY: Key = 0;

/// What `KeyComposer::concat` returns for two non-zero keys (a hash of their
/// bitwise difference).
pub uninterp spec fn concat_hash(left: u32, right: u32) -> u32;

/// The key of a field with local key `local` under a parent at `parent`.
pub open spec fn compose_spec(local: Key, parent: Key) -> Key {
    if local == 0 {
        parent
    } else if parent == 0 {
        local
    } else {
        concat_hash(local, parent)
    }
}

/// Relies on ink_primitives::KeyComposer::concat: a zero key on either side
/// hands back the other one, and two non-zero keys are mixed by a hash.
#[verifier::external_body]
fn concat_keys(left: Key, right: Key) -> (r: Key)
    ensures
        left == 0 ==> r == right,
        left != 0 && right == 0 ==> r == left,
        left != 0 && right != 0 ==> r == concat_hash(left, right),
{
    ink_primitives::KeyComposer::concat(left, right)
}

/// Combines a local key with the key of its parent.
pub fn compose(local: Key, parent: Key) -> (r: Key)
    ensures
        r == compose_spec(local, parent),
        parent == ROOT_KEY ==> r == local,
        local == 0 ==> r == parent,
{
    concat_keys(local, parent)
}

/// Composing the same pair of keys always gives the same key.
pub proof fn lemma_compose_deterministic(local: Key, parent: Key, r1: Key, r2: Key)
    requires
        r1 == compose_spec(local, parent),
        r2 == compose_spec(local, parent),
    ensures
        r1 == r2,
{
}

/// A local key of zero leaves the parent's key as it is, so distinct parents
/// keep distinct keys.
pub proof fn lemma_compose_zero_local_discriminates(p1: Key, p2: Key)
    requires
        p1 != p2,
    ensures
        compose_spec(0, p1) != compose_spec(0, p2),
{
}

/// A type that stands for a storage key and says whether it was chosen
/// automatically.
pub trait StorageKey {
    spec fn spec_key(&self) -> Key;

    spec fn spec_is_auto(&self) -> bool;

    /// The key this type selects.
    fn key(&self) -> (r: Key)
        ensures
            r == self.spec_key(),
    ;

    /// Whether the key is left to be generated automatically.
    fn is_auto_key(&self) -> (r: bool)
        ensures
            r == self.spec_is_auto(),
    ;
}

/// The key is calculated automatically: on its own it stands for the root.
#[derive(Clone, Copy, Debug, PartialEq, Eq, Default)]
pub struct AutoKey;

impl StorageKey for AutoKey {
    open spec fn spec_key(&self) -> Key {
        ROOT_KEY
    }

    open spec fn spec_is_auto(&self) -> bool {
        true
    }

    fn key(&self) -> (r: Key) {
        ROOT_KEY
    }

    fn is_auto_key(&self) -> (r: bool) {
        true
    }
}

/// A key chosen by hand, composed with the key of its parent.
#[derive(Clone, Copy, Debug, PartialEq, Eq, Default)]
pub struct ManualKey {
    pub local: Key,
    pub parent: Key,
}

impl ManualKey {
    /// A manual key under the given parent.
    pub fn new(local: Key, parent: Key) -> (r: ManualKey)
        ensures
            r.local == local,
            r.parent == parent,
    {
        ManualKey { local, parent }
    }

    pub open spec fn at_root_spec(local: Key) -> ManualKey {
        ManualKey { local, parent: ROOT_KEY }
    }

    /// A manual key directly under the root.
    pub fn at_root(local: Key) -> (r: ManualKey)
        ensures
            r == Self::at_root_spec(local),
    {
        ManualKey { local, parent: ROOT_KEY }
    }
}

impl StorageKey for ManualKey {
    open spec fn spec_key(&self) -> Key {
        compose_spec(self.local, self.parent)
    }

    open spec fn spec_is_auto(&self) -> bool {
        false
    }

    fn key(&self) -> (r: Key) {
        compose(self.local, self.parent)
    }

    fn is_auto_key(&self) -> (r: bool) {
        false
    }
}

/// Selects between a preferred key (left) and an automatically generated
/// one (right): the right key is taken only where the left one is automatic.
#[derive(Clone, Copy, Debug, PartialEq, Eq, Default)]
pub struct ResolverKey<L, R> {
    pub left: L,
    pub right: R,
}

impl<L: StorageKey, R: StorageKey> ResolverKey<L, R> {
    /// A resolver over the two keys.
    pub fn new(left: L, right: R) -> (r: Self)
        ensures
            r.left == left,
            r.right == right,
    {
        ResolverKey { left, right }
    }
}

impl<L: StorageKey, R: StorageKey> StorageKey for ResolverKey<L, R> {
    open spec fn spec_key(&self) -> Key {
        if self.left.spec_is_auto() {
            self.right.spec_key()
        } else {
            self.left.spec_key()
        }
    }

    /// The right key is always generated, so the left one decides.
    open spec fn spec_is_auto(&self) -> bool {
        self.left.spec_is_auto()
    }

    fn key(&self) -> (r: Key) {
        if self.left.is_auto_key() {
            self.right.key()
        } else {
            self.left.key()
        }
    }

    fn is_auto_key(&self) -> (r: bool) {
        self.left.is_auto_key()
    }
}

/// A key hint as a plain value, for hints that are only known while a schema
/// is read.
#[derive(Debug)]
pub enum KeyHint {
    /// No preference: the key is generated by the enclosing structure.
    Automatic,
    /// A local key chosen by hand, composed with the parent's key.
    Manual { local: Key, parent: Key },
    /// The left hint unless it is automatic, else the right one.
    Resolver(Box<KeyHint>, Box<KeyHint>),
}

impl KeyHint {
    pub open spec fn spec_is_auto(self) -> bool
        decreases self,
    {
        match self {
            KeyHint::Automatic => true,
            KeyHint::Manual { .. } => false,
            KeyHint::Resolver(left, _) => left.spec_is_auto(),
        }
    }

    pub open spec fn spec_key(self) -> Key
        decreases self,
    {
        match self {
            KeyHint::Automatic => ROOT_KEY,
            KeyHint::Manual { local, parent } => compose_spec(local, parent),
            KeyHint::Resolver(left, right) => if left.spec_is_auto() {
                right.spec_key()
            } else {
                left.spec_key()
            },
        }
    }

    /// Whether the hint leaves its key to be generated; for a resolver this is
    /// decided by the left chain alone.
    pub fn is_automatic(&self) -> (r: bool)
        ensures
            r == self.spec_is_auto(),
        decreases self,
    {
        match self {
            KeyHint::Automatic => true,
            KeyHint::Manual { .. } => false,
            KeyHint::Resolver(left, _) => left.is_automatic(),
        }
    }

    /// The key that the hint selects.
    pub fn resolve(&self) -> (r: Key)
        ensures
            r == self.spec_key(),
        decreases self,
    {
        match self {
            KeyHint::Automatic => ROOT_KEY,
            KeyHint::Manual { local, parent } => compose(*local, *parent),
            KeyHint::Resolver(left, right) => {
                if left.is_automatic() {
                    right.resolve()
                } else {
                    left.resolve()
                }
            },
        }
    }
}

/// A manual key overrides an automatic one: a resolver whose left side is
/// automatic takes the key of its right side.
pub proof fn lemma_manual_overrides_automatic(m: ManualKey)
    ensures
        (ResolverKey { left: AutoKey, right: m }).spec_key() == m.spec_key(),
        (ResolverKey { left: AutoKey, right: m }).spec_is_auto(),
{
}

/// A resolver whose left side is manual takes the left key, whatever the
/// right one is.
pub proof fn lemma_left_manual_wins(left: ManualKey, right: ManualKey)
    ensures
        (ResolverKey { left: left, right: right }).spec_key() == compose_spec(left.local, left.parent),
        !(ResolverKey { left: left, right: right }).spec_is_auto(),
{
}

/// Two automatic keys resolve to the root.
pub proof fn lemma_automatic_pair_is_root()
    ensures
        (ResolverKey { left: AutoKey, right: AutoKey }).spec_key() == ROOT_KEY,
        (KeyHint::Resolver(Box::new(KeyHint::Automatic), Box::new(KeyHint::Automatic))).spec_key()
            == ROOT_KEY,
{
    let auto = KeyHint::Automatic;
    assert(auto.spec_is_auto());
    assert(auto.spec_key() == ROOT_KEY);
}

/// A key hint resolves the same way as the key types: a manual left side wins,
/// an automatic one defers to the right side.
pub proof fn lemma_hint_resolver(left: KeyHint, right: KeyHint)
    ensures
        !left.spec_is_auto() ==> KeyHint::Resolver(Box::new(left), Box::new(right)).spec_key()
            == left.spec_key(),
        left.spec_is_auto() ==> KeyHint::Resolver(Box::new(left), Box::new(right)).spec_key()
            == right.spec_key(),
        KeyHint::Resolver(Box::new(left), Box::new(right)).spec_is_auto() == left.spec_is_auto(),
{
}

/// A manual key directly under the root is its own local key.
pub proof fn lemma_root_manual_key(local: Key)
    ensures
        ManualKey::at_root_spec(local).spec_key() == local,
{
}

} // verus!
