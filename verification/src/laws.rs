//! The engine's cross-tick guarantees, stated and proved over the same
//! spec functions its contracts use.

use vstd::prelude::*;

use crate::change_detection::{
    effective_hash, is_candidate, spec_should_emit, UNREFLECTABLE_HASH,
};
use crate::snapshot::{AssetChanges, ComponentMeta, EntitySnapshot};
use crate::sync::{
    despawned, is_selected, rec_retract_at, retract_path, tick_hashes, tick_retracts_ok, unique_kinds,
    BookMeta, SinkAction,
};

verus! {

/// After a detection pass, a dispatched component's hash is cached, and
/// every kind the pass did not dispatch keeps exactly its old cache entry.
pub proof fn lemma_tick_hashes_lookup(
    h: Map<Seq<char>, u64>,
    comps: Seq<ComponentMeta>,
    a: AssetChanges,
    i: int,
)
    requires
        unique_kinds(comps),
        0 <= i < comps.len(),
    ensures
        is_selected(h, comps[i], a) ==> tick_hashes(h, comps, a).contains_key(comps[i].kind)
            && tick_hashes(h, comps, a)[comps[i].kind] == effective_hash(comps[i].hash),
        !is_selected(h, comps[i], a) ==> (tick_hashes(h, comps, a).contains_key(comps[i].kind)
            == h.contains_key(comps[i].kind) && (h.contains_key(comps[i].kind) ==> tick_hashes(
            h,
            comps,
            a,
        )[comps[i].kind] == h[comps[i].kind])),
    decreases comps.len(),
{
    let c = comps.first();
    let h1 = if is_selected(h, c, a) {
        h.insert(c.kind, effective_hash(c.hash))
    } else {
        h
    };
    let rest = comps.drop_first();
    assert(forall|j: int| 0 <= j < rest.len() ==> rest[j] == comps[j + 1]);
    if i == 0 {
        lemma_tick_hashes_frame(h1, rest, a, c.kind);
        assert(forall|j: int| 0 <= j < rest.len() ==> rest[j].kind != c.kind);
    } else {
        assert(unique_kinds(rest));
        assert(rest[i - 1] == comps[i]);
        assert(comps[i].kind != c.kind);
        lemma_tick_hashes_lookup(h1, rest, a, i - 1);
    }
}

/// A kind no component carries is untouched by a detection pass.
pub proof fn lemma_tick_hashes_frame(
    h: Map<Seq<char>, u64>,
    comps: Seq<ComponentMeta>,
    a: AssetChanges,
    kind: Seq<char>,
)
    requires
        forall|j: int| 0 <= j < comps.len() ==> (#[trigger] comps[j]).kind != kind,
    ensures
        tick_hashes(h, comps, a).contains_key(kind) == h.contains_key(kind),
        h.contains_key(kind) ==> tick_hashes(h, comps, a)[kind] == h[kind],
    decreases comps.len(),
{
    if comps.len() > 0 {
        let c = comps.first();
        let h1 = if is_selected(h, c, a) {
            h.insert(c.kind, effective_hash(c.hash))
        } else {
            h
        };
        let rest = comps.drop_first();
        assert(forall|j: int| 0 <= j < rest.len() ==> rest[j] == comps[j + 1]);
        lemma_tick_hashes_frame(h1, rest, a, kind);
    }
}

/// Hash suppression: once a component's value was dispatched and its
/// hash recorded, presenting the same value in the next tick dispatches
/// nothing — its kind is no candidate without a marker or a dependent
/// asset change, and even a candidate is skipped because the cache
/// already holds exactly its hash. With no dispatch its kind is carried,
/// so the tick's contract issues no emission and no retraction for it.
pub proof fn lemma_hash_suppression(
    h0: Map<Seq<char>, u64>,
    comps: Seq<ComponentMeta>,
    a1: AssetChanges,
    i: int,
    next: ComponentMeta,
    a2: AssetChanges,
)
    requires
        unique_kinds(comps),
        0 <= i < comps.len(),
        is_selected(h0, comps[i], a1),
        next.kind == comps[i].kind,
        next.hash == comps[i].hash,
        !next.changed,
        !a2.images && !a2.meshes && !a2.standard_materials && !a2.color_materials,
    ensures
        !is_candidate(next, a2),
        !is_selected(tick_hashes(h0, comps, a1), next, a2),
        !spec_should_emit(tick_hashes(h0, comps, a1), next.kind, effective_hash(next.hash)),
{
    lemma_tick_hashes_lookup(h0, comps, a1, i);
}

/// Forced re-evaluation: a component whose kind is declared dependent on
/// an asset category is a candidate in every tick in which that category
/// reports a change, independent of its own change marker; it is then
/// re-emitted exactly when its hash differs from the cached one or no
/// hash was ever cached.
pub proof fn lemma_forced_reevaluation(h: Map<Seq<char>, u64>, c: ComponentMeta, a: AssetChanges)
    requires
        (a.images && crate::change_detection::depends_on_image_assets(c.kind)) || (a.meshes
            && crate::change_detection::depends_on_mesh_assets(c.kind)) || (a.standard_materials
            && crate::change_detection::depends_on_standard_material_assets(c.kind)) || (
        a.color_materials && crate::change_detection::depends_on_color_material_assets(c.kind)),
    ensures
        is_candidate(c, a),
        spec_should_emit(h, c.kind, effective_hash(c.hash)) <==> is_selected(h, c, a),
{
}

/// Fallback stability, first half: with no structural-change marker and
/// no dependent asset change, a component is no candidate at all, so a
/// value logged through the fallback is not re-logged.
pub proof fn lemma_fallback_stability(h: Map<Seq<char>, u64>, c: ComponentMeta, a: AssetChanges)
    requires
        !c.changed,
        !a.images && !a.meshes && !a.standard_materials && !a.color_materials,
    ensures
        !is_candidate(c, a),
        !is_selected(h, c, a),
{
}

/// Fallback stability, second half: a value that still fails to
/// serialize hashes to the fixed sentinel, so once the sentinel is
/// cached, even a fresh structural-change marker dispatches nothing —
/// repeated failed attempts do not re-trigger every tick.
pub proof fn lemma_unreflectable_constant(h: Map<Seq<char>, u64>, c: ComponentMeta)
    requires
        c.hash is None,
        h.contains_key(c.kind),
        h[c.kind] == UNREFLECTABLE_HASH,
    ensures
        !spec_should_emit(h, c.kind, effective_hash(c.hash)),
{
}

/// Despawn retraction: an entity known last tick and absent from the
/// snapshot yields exactly one recursive retraction, at its last-known
/// path.
pub proof fn lemma_despawn_retraction(
    b1: Map<u64, BookMeta>,
    acts: Seq<SinkAction>,
    s: Seq<EntitySnapshot>,
    b0: Map<u64, BookMeta>,
    id: u64,
)
    requires
        tick_retracts_ok(b1, acts, s, b0),
        despawned(b0, s, id),
    ensures
        exists|k: int|
            #![trigger acts[k]]
            0 <= k < acts.len() && rec_retract_at(acts[k], b0[id].path),
        forall|k1: int, k2: int|
            0 <= k1 < acts.len() && 0 <= k2 < acts.len() && rec_retract_at(
                #[trigger] acts[k1],
                b0[id].path,
            ) && rec_retract_at(#[trigger] acts[k2], b0[id].path) ==> k1 == k2,
{
    assert forall|k1: int, k2: int|
        0 <= k1 < acts.len() && 0 <= k2 < acts.len() && rec_retract_at(
            #[trigger] acts[k1],
            b0[id].path,
        ) && rec_retract_at(#[trigger] acts[k2], b0[id].path) implies k1 == k2 by {
        if k1 < k2 {
            assert(retract_path(acts[k1]) == b0[id].path);
            assert(retract_path(acts[k2]) == b0[id].path);
            assert(false);
        } else if k2 < k1 {
            assert(retract_path(acts[k1]) == b0[id].path);
            assert(retract_path(acts[k2]) == b0[id].path);
            assert(false);
        }
    }
}

} // verus!
