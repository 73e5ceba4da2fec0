//! Plain-value snapshot of the live object graph, as handed to the engine
//! once per tick: every live entity with its identifier, optional parent,
//! optional display name, and attached components (kind, change marker and
//! content hash of the serialized value).

use vstd::prelude::*;

verus! {

/// One component attached to an entity, as seen at the start of a tick.
pub struct ComponentSnapshot {
    /// Fully-qualified component kind name.
    pub kind: String,
    /// Engine-level marker: the component was structurally touched since the
    /// last tick.
    pub changed: bool,
    /// Content hash of the component's serialized form; `None` when the
    /// value could not be reflected or serialized.
    pub hash: Option<u64>,
}

/// Spec-level image of a [`ComponentSnapshot`].
pub ghost struct ComponentMeta {
    pub kind: Seq<char>,
    pub changed: bool,
    pub hash: Option<u64>,
}

impl View for ComponentSnapshot {
    type V = ComponentMeta;

    open spec fn view(&self) -> ComponentMeta {
        ComponentMeta { kind: self.kind@, changed: self.changed, hash: self.hash }
    }
}

/// One live entity, as seen at the start of a tick.
pub struct EntitySnapshot {
    /// Opaque stable identifier.
    pub id: u64,
    /// Weak parent reference; a dangling identifier resolves to "no parent".
    pub parent: Option<u64>,
    /// Optional human-readable display name.
    pub name: Option<String>,
    /// The components attached to this entity.
    pub components: Vec<ComponentSnapshot>,
}

/// Spec-level image of an [`EntitySnapshot`], without its identifier.
pub ghost struct EntityMeta {
    pub parent: Option<u64>,
    pub name: Option<Seq<char>>,
    pub components: Seq<ComponentMeta>,
}

pub open spec fn opt_str_view(o: Option<String>) -> Option<Seq<char>> {
    match o {
        Option::None => Option::None,
        Option::Some(s) => Option::Some(s@),
    }
}

impl View for EntitySnapshot {
    type V = EntityMeta;

    open spec fn view(&self) -> EntityMeta {
        EntityMeta {
            parent: self.parent,
            name: opt_str_view(self.name),
            components: Seq::new(self.components@.len(), |i: int| self.components@[i]@),
        }
    }
}

/// The graph snapshot as a map from entity identifier to entity data.
pub open spec fn entities_map(s: Seq<EntitySnapshot>) -> Map<u64, EntityMeta>
    decreases s.len(),
{
    if s.len() == 0 {
        Map::empty()
    } else {
        entities_map(s.drop_last()).insert(s.last().id, s.last()@)
    }
}

/// Every entity appears at most once in the snapshot.
pub open spec fn unique_ids(s: Seq<EntitySnapshot>) -> bool {
    forall|i: int, j: int| 0 <= i < j < s.len() ==> s[i].id != s[j].id
}

pub proof fn lemma_entities_map_dom(s: Seq<EntitySnapshot>, id: u64)
    ensures
        entities_map(s).contains_key(id) <==> exists|i: int| 0 <= i < s.len() && s[i].id == id,
    decreases s.len(),
{
    if s.len() > 0 {
        lemma_entities_map_dom(s.drop_last(), id);
        if s.last().id == id {
            assert(s[s.len() - 1].id == id);
        } else if entities_map(s).contains_key(id) {
            let i = choose|i: int| 0 <= i < s.drop_last().len() && s.drop_last()[i].id == id;
            assert(s[i].id == id);
        } else {
            assert(forall|i: int| 0 <= i < s.len() - 1 ==> s.drop_last()[i] == s[i]);
        }
    }
}

pub proof fn lemma_entities_map_get(s: Seq<EntitySnapshot>, i: int)
    requires
        unique_ids(s),
        0 <= i < s.len(),
    ensures
        entities_map(s).contains_key(s[i].id),
        entities_map(s)[s[i].id] == s[i]@,
    decreases s.len(),
{
    if i == s.len() - 1 {
        assert(s.last() == s[i]);
    } else {
        assert(forall|j: int| 0 <= j < s.len() - 1 ==> s.drop_last()[j] == s[j]);
        lemma_entities_map_get(s.drop_last(), i);
        assert(s.last().id != s[i].id);
    }
}

/// Finds the position of an entity in the snapshot by identifier.
pub fn find_entity(entities: &Vec<EntitySnapshot>, id: u64) -> (r: Option<usize>)
    ensures
        match r {
            Option::Some(i) => i < entities@.len() && entities@[i as int].id == id,
            Option::None => forall|i: int| 0 <= i < entities@.len() ==> entities@[i].id != id,
        },
{
    let n = entities.len();
    let mut i: usize = 0;
    while i < n
        invariant
            n == entities@.len(),
            i <= n,
            forall|j: int| 0 <= j < i ==> entities@[j].id != id,
        decreases n - i,
    {
        if entities[i].id == id {
            return Some(i);
        }
        i = i + 1;
    }
    None
}

/// Coarse per-category asset change flags for one tick: `true` when any
/// asset of that category reported a change event.
#[derive(Clone, Copy)]
pub struct AssetChanges {
    pub images: bool,
    pub meshes: bool,
    pub standard_materials: bool,
    pub color_materials: bool,
}

impl AssetChanges {
    /// A tick in which no asset category reported any change.
    pub fn none() -> (r: AssetChanges)
        ensures
            !r.images && !r.meshes && !r.standard_materials && !r.color_materials,
    {
        AssetChanges { images: false, meshes: false, standard_materials: false, color_materials: false }
    }
}

} // verus!
