//! Per-component change detection.
//!
//! A component is a candidate for re-evaluation when its engine-level
//! change marker fired, or when an asset category its kind is declared to
//! depend on reported any change this tick. A candidate is re-emitted
//! exactly when the content hash of its serialized form differs from the
//! hash cached for that (entity, kind) pair, or when no hash was ever
//! cached; a value that cannot be serialized hashes to a fixed sentinel,
//! so a failing value behaves as a stable constant after the first
//! attempt.

use std::hash::{Hash, Hasher};

use vstd::prelude::*;
use vstd::string::*;

use crate::snapshot::{AssetChanges, ComponentMeta, ComponentSnapshot};

verus! {

/// The hash recorded for a value whose serialized form is unavailable.
pub const UNREFLECTABLE_HASH: u64 = 0;

/// Relies on `bevy::utils::AHasher` for the digest of the serialized
/// bytes. Its default keys are drawn once per process, so equal bytes
/// hash equally only within one process; nothing is promised of the
/// result here, and every decision downstream is verified for every
/// possible hash value.
#[verifier::external_body]
fn hash_bytes(bytes: &Vec<u8>) -> u64 {
    let mut hasher = bevy::utils::AHasher::default();
    bytes.hash(&mut hasher);
    hasher.finish()
}

/// The content hash of a component's serialized form, or nothing when
/// reflection or serialization was unavailable.
pub fn component_to_hash(serialized: Option<&Vec<u8>>) -> (r: Option<u64>)
    ensures
        r is Some <==> serialized is Some,
{
    match serialized {
        Option::Some(bytes) => Option::Some(hash_bytes(bytes)),
        Option::None => Option::None,
    }
}

/// The hash compared and cached for a component: its content hash, with
/// the fixed sentinel standing in for an unavailable one.
pub open spec fn effective_hash(h: Option<u64>) -> u64 {
    match h {
        Option::Some(v) => v,
        Option::None => UNREFLECTABLE_HASH,
    }
}

/// Computes the hash compared and cached for a component.
pub fn effective_hash_of(h: Option<u64>) -> (r: u64)
    ensures
        r == effective_hash(h),
{
    match h {
        Option::Some(v) => v,
        Option::None => UNREFLECTABLE_HASH,
    }
}

/// Component kinds whose logged output depends on image assets.
pub open spec fn depends_on_image_assets(kind: Seq<char>) -> bool {
    kind == "bevy_render::mesh::components::Mesh3d"@ || kind == "bevy_sprite::sprite::Sprite"@
}

/// Component kinds whose logged output depends on mesh assets.
pub open spec fn depends_on_mesh_assets(kind: Seq<char>) -> bool {
    kind == "bevy_render::mesh::components::Mesh3d"@
}

/// Component kinds whose logged output depends on standard material assets.
pub open spec fn depends_on_standard_material_assets(kind: Seq<char>) -> bool {
    kind == "bevy_render::mesh::components::Mesh3d"@ || kind == "bevy_render::primitives::Aabb"@
}

/// Component kinds whose logged output depends on color material assets.
pub open spec fn depends_on_color_material_assets(kind: Seq<char>) -> bool {
    kind == "bevy_render::mesh::components::Mesh3d"@ || kind == "bevy_render::primitives::Aabb"@
}

/// Whether a component must be re-evaluated this tick: its own marker
/// fired, or an asset category its kind depends on reported a change.
/// This is deliberately coarse: one changed asset anywhere forces every
/// entity whose kind is declared dependent on that category.
pub open spec fn is_candidate(c: ComponentMeta, a: AssetChanges) -> bool {
    c.changed || (a.images && depends_on_image_assets(c.kind)) || (a.meshes
        && depends_on_mesh_assets(c.kind)) || (a.standard_materials
        && depends_on_standard_material_assets(c.kind)) || (a.color_materials
        && depends_on_color_material_assets(c.kind))
}

/// Decides whether a component is a candidate for re-evaluation.
pub fn component_is_candidate(c: &ComponentSnapshot, a: &AssetChanges) -> (r: bool)
    ensures
        r == is_candidate(c@, *a),
{
    if c.changed {
        return true;
    }
    let mesh3d = String::from_str("bevy_render::mesh::components::Mesh3d");
    let sprite = String::from_str("bevy_sprite::sprite::Sprite");
    let aabb = String::from_str("bevy_render::primitives::Aabb");
    let is_mesh3d = c.kind == mesh3d;
    let is_sprite = c.kind == sprite;
    let is_aabb = c.kind == aabb;
    (a.images && (is_mesh3d || is_sprite)) || (a.meshes && is_mesh3d) || (a.standard_materials
        && (is_mesh3d || is_aabb)) || (a.color_materials && (is_mesh3d || is_aabb))
}

/// The hash cache of one entity: for every component kind that was
/// successfully processed before, the hash of the last value processed.
/// A kind never seen is absent, which is distinct from a kind cached with
/// the sentinel hash.
pub struct CurrentHashes {
    pub entries: Vec<(String, u64)>,
}

/// The cache as a map from kind name to cached hash, later entries winning.
pub open spec fn map_of_hashes(s: Seq<(String, u64)>) -> Map<Seq<char>, u64>
    decreases s.len(),
{
    if s.len() == 0 {
        Map::empty()
    } else {
        map_of_hashes(s.drop_last()).insert(s.last().0@, s.last().1)
    }
}

pub open spec fn unique_hash_keys(s: Seq<(String, u64)>) -> bool {
    forall|i: int, j: int| 0 <= i < j < s.len() ==> s[i].0@ != s[j].0@
}

pub proof fn lemma_map_of_hashes_dom(s: Seq<(String, u64)>, k: Seq<char>)
    ensures
        map_of_hashes(s).contains_key(k) <==> exists|i: int| 0 <= i < s.len() && s[i].0@ == k,
    decreases s.len(),
{
    if s.len() > 0 {
        lemma_map_of_hashes_dom(s.drop_last(), k);
        if s.last().0@ == k {
            assert(s[s.len() - 1].0@ == k);
        } else if map_of_hashes(s).contains_key(k) {
            let i = choose|i: int| 0 <= i < s.drop_last().len() && s.drop_last()[i].0@ == k;
            assert(s[i].0@ == k);
        } else {
            assert(forall|i: int| 0 <= i < s.len() - 1 ==> s.drop_last()[i] == s[i]);
        }
    }
}

pub proof fn lemma_map_of_hashes_get(s: Seq<(String, u64)>, i: int)
    requires
        unique_hash_keys(s),
        0 <= i < s.len(),
    ensures
        map_of_hashes(s).contains_key(s[i].0@),
        map_of_hashes(s)[s[i].0@] == s[i].1,
    decreases s.len(),
{
    if i == s.len() - 1 {
        assert(s.last() == s[i]);
    } else {
        assert(forall|j: int| 0 <= j < s.len() - 1 ==> s.drop_last()[j] == s[j]);
        lemma_map_of_hashes_get(s.drop_last(), i);
        assert(s.last().0@ != s[i].0@);
    }
}

proof fn lemma_hashes_set_is_insert(s: Seq<(String, u64)>, i: int, k: Seq<char>, v: u64)
    requires
        unique_hash_keys(s),
        0 <= i < s.len(),
        s[i].0@ == k,
    ensures
        forall|kind: String| kind@ == k ==> map_of_hashes(s.update(i, (kind, v)))
            == map_of_hashes(s).insert(k, v),
    decreases s.len(),
{
    assert forall|kind: String| kind@ == k implies map_of_hashes(s.update(i, (kind, v)))
        == map_of_hashes(s).insert(k, v) by {
        let t = s.update(i, (kind, v));
        if i == s.len() - 1 {
            assert(t.drop_last() =~= s.drop_last());
            assert(t.last() == (kind, v));
        } else {
            assert(t.drop_last() =~= s.drop_last().update(i, (kind, v)));
            assert(forall|j: int| 0 <= j < s.len() - 1 ==> s.drop_last()[j] == s[j]);
            assert(unique_hash_keys(s.drop_last()));
            lemma_hashes_set_is_insert(s.drop_last(), i, k, v);
            assert(t.last() == s.last());
            assert(s.last().0@ != k);
            assert(map_of_hashes(t) == map_of_hashes(s.drop_last()).insert(k, v).insert(
                s.last().0@,
                s.last().1,
            ));
            assert(map_of_hashes(s.drop_last()).insert(k, v).insert(s.last().0@, s.last().1)
                =~= map_of_hashes(s.drop_last()).insert(s.last().0@, s.last().1).insert(k, v));
        }
    }
}

impl View for CurrentHashes {
    type V = Map<Seq<char>, u64>;

    open spec fn view(&self) -> Map<Seq<char>, u64> {
        map_of_hashes(self.entries@)
    }
}

impl CurrentHashes {
    /// Each kind appears at most once in the backing entries.
    pub open spec fn wf(&self) -> bool {
        unique_hash_keys(self.entries@)
    }

    /// A cache that has seen no component yet.
    pub fn new() -> (r: CurrentHashes)
        ensures
            r.wf(),
            r@ == Map::<Seq<char>, u64>::empty(),
    {
        CurrentHashes { entries: Vec::new() }
    }

    /// The hash cached for a kind, if one was ever recorded.
    pub fn get(&self, kind: &String) -> (r: Option<u64>)
        requires
            self.wf(),
        ensures
            r == if self@.contains_key(kind@) {
                Option::Some(self@[kind@])
            } else {
                Option::None::<u64>
            },
    {
        let n = self.entries.len();
        let mut i: usize = 0;
        while i < n
            invariant
                self.wf(),
                n == self.entries@.len(),
                i <= n,
                forall|j: int| 0 <= j < i ==> #[trigger] self.entries@[j].0@ != kind@,
            decreases n - i,
        {
            if self.entries[i].0 == *kind {
                proof {
                    lemma_map_of_hashes_get(self.entries@, i as int);
                }
                return Some(self.entries[i].1);
            }
            i = i + 1;
        }
        proof {
            lemma_map_of_hashes_dom(self.entries@, kind@);
        }
        None
    }

    /// Records the hash of the value just processed for a kind,
    /// overwriting any earlier one.
    pub fn set(&mut self, kind: String, hash: u64)
        requires
            old(self).wf(),
        ensures
            final(self).wf(),
            final(self)@ == old(self)@.insert(kind@, hash),
    {
        let n = self.entries.len();
        let mut i: usize = 0;
        while i < n
            invariant
                self.entries@ == old(self).entries@,
                unique_hash_keys(self.entries@),
                n == self.entries@.len(),
                i <= n,
                forall|j: int| 0 <= j < i ==> #[trigger] self.entries@[j].0@ != kind@,
            decreases n - i,
        {
            if self.entries[i].0 == kind {
                let ghost pre = self.entries@;
                proof {
                    lemma_hashes_set_is_insert(pre, i as int, kind@, hash);
                }
                self.entries.set(i, (kind, hash));
                proof {
                    let t = self.entries@;
                    assert(t == pre.update(i as int, (kind, hash)));
                    assert forall|a: int, b: int| 0 <= a < b < t.len() implies t[a].0@
                        != t[b].0@ by {
                        assert(pre[a].0@ != pre[b].0@);
                        if a != i && b != i {
                            assert(t[a] == pre[a] && t[b] == pre[b]);
                        } else if a == i {
                            assert(t[a].0@ == pre[i as int].0@ && t[b] == pre[b]);
                        } else {
                            assert(t[b].0@ == pre[i as int].0@ && t[a] == pre[a]);
                        }
                    }
                }
                return ;
            }
            i = i + 1;
        }
        let ghost pre = self.entries@;
        self.entries.push((kind, hash));
        proof {
            let t = self.entries@;
            assert(t.drop_last() =~= pre);
            assert(t.last() == (kind, hash));
            assert forall|a: int, b: int| 0 <= a < b < t.len() implies t[a].0@ != t[b].0@ by {
                if b < t.len() - 1 {
                    assert(t[a] == pre[a] && t[b] == pre[b]);
                    assert(pre[a].0@ != pre[b].0@);
                } else {
                    assert(t[a] == pre[a]);
                    assert(pre[a].0@ != kind@);
                }
            }
        }
    }

    /// An exact copy of this cache.
    pub fn clone_cache(&self) -> (r: CurrentHashes)
        requires
            self.wf(),
        ensures
            r.wf(),
            r@ == self@,
            r.entries@.len() == self.entries@.len(),
    {
        let mut entries: Vec<(String, u64)> = Vec::new();
        let n = self.entries.len();
        let mut i: usize = 0;
        while i < n
            invariant
                n == self.entries@.len(),
                i <= n,
                entries@.len() == i,
                forall|j: int| 0 <= j < i ==> #[trigger] entries@[j] == self.entries@[j],
            decreases n - i,
        {
            entries.push((self.entries[i].0.clone(), self.entries[i].1));
            i = i + 1;
        }
        let r = CurrentHashes { entries };
        proof {
            assert(r.entries@ =~= self.entries@);
        }
        r
    }

    /// Whether a candidate value must be re-emitted: yes unless this cache
    /// already holds exactly its hash. Equal hashes skip the emission
    /// without error; recording the new hash is the caller's step once it
    /// proceeds to emit.
    pub fn should_emit(&self, kind: &String, hash: u64) -> (r: bool)
        requires
            self.wf(),
        ensures
            r == spec_should_emit(self@, kind@, hash),
    {
        match self.get(kind) {
            Option::Some(cached) => cached != hash,
            Option::None => true,
        }
    }
}

/// A candidate is re-emitted exactly when its hash differs from the
/// cached one or no hash was ever cached for its kind.
pub open spec fn spec_should_emit(cache: Map<Seq<char>, u64>, kind: Seq<char>, hash: u64) -> bool {
    !(cache.contains_key(kind) && cache[kind] == hash)
}

} // verus!
