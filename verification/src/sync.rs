//! The synchronization engine.
//!
//! Once per tick the engine advances the sink's clock, resolves every live
//! entity's path, runs change detection per component, dispatches changed
//! values through the logger resolution chain, records what was actually
//! sent, and issues targeted retractions for component state that
//! disappeared and recursive retractions for entities that despawned or
//! whose path identity changed.
//!
//! The engine itself performs no input or output: each tick yields the
//! ordered sink actions, and the embedding application performs them.

use vstd::prelude::*;
use vstd::string::*;

use crate::change_detection::{
    component_is_candidate, effective_hash, effective_hash_of, is_candidate, spec_should_emit,
    CurrentHashes,
};
use crate::default_loggers::DefaultRerunComponentLoggers;
use crate::entity_path::{
    compute_entity_path, entity_own_path, lemma_own_paths_distinct, lemma_path_spec_own, path_spec,
    EntityPath,
};
use crate::rerun_logger::{
    get_component_logger, resolve_logger, LoggerRef, RerunComponentLoggers,
};
use crate::snapshot::{find_entity, unique_ids, AssetChanges, ComponentMeta, EntitySnapshot};
use crate::text::sanitize_chars;
use crate::text::sanitize_kind_name;

verus! {

/// Everything the engine is handed for one tick: the simulation clock,
/// the graph snapshot, and the per-category asset change flags.
pub struct TickInput {
    /// The simulation time of this tick, in nanoseconds.
    pub time_ns: u64,
    /// Every live entity, each appearing once.
    pub entities: Vec<EntitySnapshot>,
    /// Which asset categories reported any change this tick.
    pub assets: AssetChanges,
}

/// A snapshot the engine accepts: entities appear once, and within one
/// entity each component kind appears once.
pub open spec fn input_wf(input: TickInput) -> bool {
    &&& unique_ids(input.entities@)
    &&& forall|i: int|
        0 <= i < input.entities@.len() ==> unique_kinds(#[trigger] input.entities@[i]@.components)
}

/// Each component kind appears at most once on one entity.
pub open spec fn unique_kinds(cs: Seq<ComponentMeta>) -> bool {
    forall|i: int, j: int| 0 <= i < j < cs.len() ==> cs[i].kind != cs[j].kind
}

/// One value batch produced by a logger callback: a component descriptor
/// and an opaque serialized payload.
pub struct LoggerBatch {
    pub descriptor: String,
    pub payload: Vec<u8>,
}

/// What one logger callback invocation produced: an optional namespaced
/// path suffix, and the batches to log there. No batches means "nothing
/// to emit this tick", which is not an error.
pub struct LoggerOutput {
    pub suffix: Option<String>,
    pub batches: Vec<LoggerBatch>,
}

/// The boundary to the application-side logger callbacks. The engine
/// decides *whether* a component is dispatched; an implementation of this
/// trait only converts values. It must read the graph, never the engine's
/// bookkeeping, and nothing about its results is assumed: every decision
/// downstream is verified for every possible output.
pub trait RerunLoggerFn {
    /// Runs the registered logger callback with the given token for one
    /// component of one entity.
    fn invoke(&mut self, logger: u64, entity: u64, kind: &String) -> LoggerOutput;

    /// Serializes a component into human-readable text for the universal
    /// fallback logger; `None` when reflection metadata is missing.
    fn fallback_text(&mut self, entity: u64, kind: &String) -> Option<String>;
}

/// One batch as emitted: the component kind it came from, the descriptor
/// it is logged under, and the payload.
pub struct EmitBatch {
    pub kind: String,
    pub descriptor: String,
    pub payload: Vec<u8>,
}

/// One instruction to the recording sink, in the order issued.
pub enum SinkAction {
    /// Establish the timestamp for all subsequent writes of this tick.
    AdvanceTime { time_ns: u64 },
    /// Append the batches for one entity at its resolved path, under an
    /// optional namespaced suffix.
    Emit { entity: u64, path: EntityPath, suffix: Option<String>, batches: Vec<EmitBatch> },
    /// Declare previously logged state at a path no longer valid; a
    /// recursive retraction also covers everything at or below the path.
    Retract { path: EntityPath, recursive: bool },
}

/// The sink path an emission lands at: the entity's own path, or a
/// namespaced sub-path under it.
pub open spec fn emit_target(path: Seq<Seq<char>>, suffix: Option<Seq<char>>) -> Seq<Seq<char>> {
    match suffix {
        Option::None => path,
        Option::Some(sfx) => path + seq!["comps"@, sfx],
    }
}

/// Computes the sink path an emission lands at.
pub fn emit_target_of(path: &EntityPath, suffix: &Option<String>) -> (r: EntityPath)
    ensures
        r@ == emit_target(path@, crate::snapshot::opt_str_view(*suffix)),
{
    let mut r = path.clone_path();
    match suffix {
        Option::None => {},
        Option::Some(sfx) => {
            let ghost base = r@;
            r.parts.push(String::from_str("comps"));
            r.parts.push(sfx.clone());
            proof {
                assert(r@ =~= base + seq!["comps"@, sfx@]);
            }
        },
    }
    r
}

/// What one emitted descriptor stands for: the component kind that
/// produced it and the sink path it was logged at.
pub ghost struct EmittedInfo {
    pub kind: Seq<char>,
    pub path: Seq<Seq<char>>,
}

/// One record of the emitted set.
pub struct EmittedRecord {
    pub descriptor: String,
    pub kind: String,
    pub path: EntityPath,
}

impl View for EmittedRecord {
    type V = EmittedInfo;

    open spec fn view(&self) -> EmittedInfo {
        EmittedInfo { kind: self.kind@, path: self.path@ }
    }
}

/// The emitted set of one entity: for every descriptor with live state in
/// the sink, the kind that produced it and the path it was logged at.
pub struct CurrentComponents {
    pub entries: Vec<EmittedRecord>,
}

/// The emitted set as a map from descriptor, later entries winning.
pub open spec fn map_of_records(s: Seq<EmittedRecord>) -> Map<Seq<char>, EmittedInfo>
    decreases s.len(),
{
    if s.len() == 0 {
        Map::empty()
    } else {
        map_of_records(s.drop_last()).insert(s.last().descriptor@, s.last()@)
    }
}

pub open spec fn unique_descriptors(s: Seq<EmittedRecord>) -> bool {
    forall|i: int, j: int| 0 <= i < j < s.len() ==> s[i].descriptor@ != s[j].descriptor@
}

pub proof fn lemma_map_of_records_dom(s: Seq<EmittedRecord>, k: Seq<char>)
    ensures
        map_of_records(s).contains_key(k) <==> exists|i: int|
            0 <= i < s.len() && s[i].descriptor@ == k,
    decreases s.len(),
{
    if s.len() > 0 {
        lemma_map_of_records_dom(s.drop_last(), k);
        if s.last().descriptor@ == k {
            assert(s[s.len() - 1].descriptor@ == k);
        } else if map_of_records(s).contains_key(k) {
            let i = choose|i: int|
                0 <= i < s.drop_last().len() && s.drop_last()[i].descriptor@ == k;
            assert(s[i].descriptor@ == k);
        } else {
            assert(forall|i: int| 0 <= i < s.len() - 1 ==> s.drop_last()[i] == s[i]);
        }
    }
}

pub proof fn lemma_map_of_records_get(s: Seq<EmittedRecord>, i: int)
    requires
        unique_descriptors(s),
        0 <= i < s.len(),
    ensures
        map_of_records(s).contains_key(s[i].descriptor@),
        map_of_records(s)[s[i].descriptor@] == s[i]@,
    decreases s.len(),
{
    if i == s.len() - 1 {
        assert(s.last() == s[i]);
    } else {
        assert(forall|j: int| 0 <= j < s.len() - 1 ==> s.drop_last()[j] == s[j]);
        lemma_map_of_records_get(s.drop_last(), i);
        assert(s.last().descriptor@ != s[i].descriptor@);
    }
}

impl View for CurrentComponents {
    type V = Map<Seq<char>, EmittedInfo>;

    open spec fn view(&self) -> Map<Seq<char>, EmittedInfo> {
        map_of_records(self.entries@)
    }
}

impl CurrentComponents {
    /// Each descriptor appears at most once in the backing entries.
    pub open spec fn wf(&self) -> bool {
        unique_descriptors(self.entries@)
    }

    /// An emitted set with no live state.
    pub fn new() -> (r: CurrentComponents)
        ensures
            r.wf(),
            r@ == Map::<Seq<char>, EmittedInfo>::empty(),
    {
        CurrentComponents { entries: Vec::new() }
    }

    /// Whether a descriptor has live state recorded.
    pub fn contains(&self, descriptor: &String) -> (r: bool)
        requires
            self.wf(),
        ensures
            r == self@.contains_key(descriptor@),
    {
        let n = self.entries.len();
        let mut i: usize = 0;
        while i < n
            invariant
                self.wf(),
                n == self.entries@.len(),
                i <= n,
                forall|j: int| 0 <= j < i ==> #[trigger] self.entries@[j].descriptor@
                    != descriptor@,
            decreases n - i,
        {
            if self.entries[i].descriptor == *descriptor {
                proof {
                    lemma_map_of_records_get(self.entries@, i as int);
                }
                return true;
            }
            i = i + 1;
        }
        proof {
            lemma_map_of_records_dom(self.entries@, descriptor@);
        }
        false
    }

    /// Whether this set holds exactly the given record: same descriptor,
    /// produced by the same kind, at the same path.
    pub fn holds_record(&self, rec: &EmittedRecord) -> (r: bool)
        requires
            self.wf(),
        ensures
            r == (self@.contains_key(rec.descriptor@) && self@[rec.descriptor@] == rec@),
    {
        let n = self.entries.len();
        let mut i: usize = 0;
        while i < n
            invariant
                self.wf(),
                n == self.entries@.len(),
                i <= n,
                forall|j: int| 0 <= j < i ==> #[trigger] self.entries@[j].descriptor@
                    != rec.descriptor@,
            decreases n - i,
        {
            if self.entries[i].descriptor == rec.descriptor {
                proof {
                    lemma_map_of_records_get(self.entries@, i as int);
                }
                let same_kind = self.entries[i].kind == rec.kind;
                let same_path = self.entries[i].path.eq_path(&rec.path);
                return same_kind && same_path;
            }
            i = i + 1;
        }
        proof {
            lemma_map_of_records_dom(self.entries@, rec.descriptor@);
        }
        false
    }

    /// An exact copy of this emitted set.
    pub fn clone_set(&self) -> (r: CurrentComponents)
        requires
            self.wf(),
        ensures
            r.wf(),
            r@ == self@,
            r.entries@.len() == self.entries@.len(),
            forall|j: int|
                0 <= j < self.entries@.len() ==> #[trigger] r.entries@[j].descriptor@
                    == self.entries@[j].descriptor@ && r.entries@[j]@ == self.entries@[j]@,
    {
        let mut entries: Vec<EmittedRecord> = Vec::new();
        let n = self.entries.len();
        let mut i: usize = 0;
        while i < n
            invariant
                self.wf(),
                n == self.entries@.len(),
                i <= n,
                entries@.len() == i,
                forall|j: int|
                    0 <= j < i ==> #[trigger] entries@[j].descriptor@
                        == self.entries@[j].descriptor@ && entries@[j]@ == self.entries@[j]@,
            decreases n - i,
        {
            let src = &self.entries[i];
            let copy = EmittedRecord {
                descriptor: src.descriptor.clone(),
                kind: src.kind.clone(),
                path: src.path.clone_path(),
            };
            entries.push(copy);
            i = i + 1;
        }
        let r = CurrentComponents { entries };
        proof {
            lemma_map_of_records_congruence(r.entries@, self.entries@);
        }
        r
    }

    /// Records live state for a descriptor, overwriting any earlier record.
    pub fn set(&mut self, rec: EmittedRecord)
        requires
            old(self).wf(),
        ensures
            final(self).wf(),
            final(self)@ == old(self)@.insert(rec.descriptor@, rec@),
    {
        let n = self.entries.len();
        let mut i: usize = 0;
        while i < n
            invariant
                self.entries@ == old(self).entries@,
                unique_descriptors(self.entries@),
                n == self.entries@.len(),
                i <= n,
                forall|j: int| 0 <= j < i ==> #[trigger] self.entries@[j].descriptor@
                    != rec.descriptor@,
            decreases n - i,
        {
            if self.entries[i].descriptor == rec.descriptor {
                let ghost pre = self.entries@;
                proof {
                    lemma_records_set_is_insert(pre, i as int, rec);
                }
                self.entries.set(i, rec);
                proof {
                    let t = self.entries@;
                    assert forall|a: int, b: int| 0 <= a < b < t.len() implies t[a].descriptor@
                        != t[b].descriptor@ by {
                        assert(pre[a].descriptor@ != pre[b].descriptor@);
                        if a != i && b != i {
                            assert(t[a] == pre[a] && t[b] == pre[b]);
                        } else if a == i {
                            assert(t[a].descriptor@ == pre[i as int].descriptor@ && t[b] == pre[b]);
                        } else {
                            assert(t[b].descriptor@ == pre[i as int].descriptor@ && t[a] == pre[a]);
                        }
                    }
                }
                return ;
            }
            i = i + 1;
        }
        let ghost pre = self.entries@;
        self.entries.push(rec);
        proof {
            let t = self.entries@;
            assert(t.drop_last() =~= pre);
            assert forall|a: int, b: int| 0 <= a < b < t.len() implies t[a].descriptor@
                != t[b].descriptor@ by {
                if b < t.len() - 1 {
                    assert(t[a] == pre[a] && t[b] == pre[b]);
                    assert(pre[a].descriptor@ != pre[b].descriptor@);
                } else {
                    assert(t[a] == pre[a]);
                }
            }
        }
    }
}

/// Two record sequences with pointwise equal descriptors and views
/// denote the same emitted-set map.
proof fn lemma_map_of_records_congruence(s1: Seq<EmittedRecord>, s2: Seq<EmittedRecord>)
    requires
        s1.len() == s2.len(),
        forall|j: int|
            0 <= j < s2.len() ==> #[trigger] s1[j].descriptor@ == s2[j].descriptor@ && s1[j]@
                == s2[j]@,
    ensures
        map_of_records(s1) == map_of_records(s2),
    decreases s1.len(),
{
    if s1.len() > 0 {
        assert(forall|j: int| 0 <= j < s1.len() - 1 ==> s1.drop_last()[j] == s1[j]);
        assert(forall|j: int| 0 <= j < s2.len() - 1 ==> s2.drop_last()[j] == s2[j]);
        lemma_map_of_records_congruence(s1.drop_last(), s2.drop_last());
        assert(s1.last() == s1[s1.len() - 1]);
        assert(s2.last() == s2[s2.len() - 1]);
    }
}

proof fn lemma_records_set_is_insert(s: Seq<EmittedRecord>, i: int, rec: EmittedRecord)
    requires
        unique_descriptors(s),
        0 <= i < s.len(),
        s[i].descriptor@ == rec.descriptor@,
    ensures
        map_of_records(s.update(i, rec)) == map_of_records(s).insert(rec.descriptor@, rec@),
    decreases s.len(),
{
    let t = s.update(i, rec);
    if i == s.len() - 1 {
        assert(t.drop_last() =~= s.drop_last());
        assert(t.last() == rec);
    } else {
        assert(t.drop_last() =~= s.drop_last().update(i, rec));
        assert(forall|j: int| 0 <= j < s.len() - 1 ==> s.drop_last()[j] == s[j]);
        assert(unique_descriptors(s.drop_last()));
        lemma_records_set_is_insert(s.drop_last(), i, rec);
        assert(t.last() == s.last());
        assert(s.last().descriptor@ != rec.descriptor@);
        assert(map_of_records(t) == map_of_records(s.drop_last()).insert(
            rec.descriptor@,
            rec@,
        ).insert(s.last().descriptor@, s.last()@));
        assert(map_of_records(s.drop_last()).insert(rec.descriptor@, rec@).insert(
            s.last().descriptor@,
            s.last()@,
        ) =~= map_of_records(s.drop_last()).insert(s.last().descriptor@, s.last()@).insert(
            rec.descriptor@,
            rec@,
        ));
    }
}

/// The engine's bookkeeping for one entity it has processed: the path it
/// resolved to last tick, its hash cache, and its emitted set.
pub struct EntityBook {
    pub id: u64,
    pub path: EntityPath,
    pub hashes: CurrentHashes,
    pub emitted: CurrentComponents,
}

/// Spec-level image of an [`EntityBook`], without its identifier.
pub ghost struct BookMeta {
    pub path: Seq<Seq<char>>,
    pub hashes: Map<Seq<char>, u64>,
    pub emitted: Map<Seq<char>, EmittedInfo>,
}

impl View for EntityBook {
    type V = BookMeta;

    open spec fn view(&self) -> BookMeta {
        BookMeta { path: self.path@, hashes: self.hashes@, emitted: self.emitted@ }
    }
}

pub open spec fn book_wf(b: EntityBook) -> bool {
    &&& b.hashes.wf()
    &&& b.emitted.wf()
    &&& entity_own_path(b.path@, b.id)
}

/// The bookkeeping as a map from entity identifier, later entries winning.
pub open spec fn books_map(s: Seq<EntityBook>) -> Map<u64, BookMeta>
    decreases s.len(),
{
    if s.len() == 0 {
        Map::empty()
    } else {
        books_map(s.drop_last()).insert(s.last().id, s.last()@)
    }
}

pub open spec fn unique_book_ids(s: Seq<EntityBook>) -> bool {
    forall|i: int, j: int| 0 <= i < j < s.len() ==> s[i].id != s[j].id
}

pub proof fn lemma_books_map_dom(s: Seq<EntityBook>, id: u64)
    ensures
        books_map(s).contains_key(id) <==> exists|i: int| 0 <= i < s.len() && s[i].id == id,
    decreases s.len(),
{
    if s.len() > 0 {
        lemma_books_map_dom(s.drop_last(), id);
        if s.last().id == id {
            assert(s[s.len() - 1].id == id);
        } else if books_map(s).contains_key(id) {
            let i = choose|i: int| 0 <= i < s.drop_last().len() && s.drop_last()[i].id == id;
            assert(s[i].id == id);
        } else {
            assert(forall|i: int| 0 <= i < s.len() - 1 ==> s.drop_last()[i] == s[i]);
        }
    }
}

pub proof fn lemma_books_map_get(s: Seq<EntityBook>, i: int)
    requires
        unique_book_ids(s),
        0 <= i < s.len(),
    ensures
        books_map(s).contains_key(s[i].id),
        books_map(s)[s[i].id] == s[i]@,
    decreases s.len(),
{
    if i == s.len() - 1 {
        assert(s.last() == s[i]);
    } else {
        assert(forall|j: int| 0 <= j < s.len() - 1 ==> s.drop_last()[j] == s[j]);
        lemma_books_map_get(s.drop_last(), i);
        assert(s.last().id != s[i].id);
    }
}

/// Finds the book for an entity, if one is kept.
fn find_book(books: &Vec<EntityBook>, id: u64) -> (r: Option<usize>)
    ensures
        match r {
            Option::Some(i) => i < books@.len() && books@[i as int].id == id,
            Option::None => forall|i: int| 0 <= i < books@.len() ==> books@[i].id != id,
        },
{
    let n = books.len();
    let mut i: usize = 0;
    while i < n
        invariant
            n == books@.len(),
            i <= n,
            forall|j: int| 0 <= j < i ==> books@[j].id != id,
        decreases n - i,
    {
        if books[i].id == id {
            return Some(i);
        }
        i = i + 1;
    }
    None
}

/// Whether a component must be dispatched this tick, judged against a
/// hash cache: it is a candidate, and the cache does not already hold
/// exactly its hash.
pub open spec fn is_selected(h: Map<Seq<char>, u64>, c: ComponentMeta, a: AssetChanges) -> bool {
    is_candidate(c, a) && spec_should_emit(h, c.kind, effective_hash(c.hash))
}

/// The hash cache after one tick's detection pass over the components,
/// processed left to right: every dispatched component has its hash
/// recorded; all other kinds keep their cached hash.
pub open spec fn tick_hashes(
    h: Map<Seq<char>, u64>,
    comps: Seq<ComponentMeta>,
    a: AssetChanges,
) -> Map<Seq<char>, u64>
    decreases comps.len(),
{
    if comps.len() == 0 {
        h
    } else {
        let c = comps.first();
        let h1 = if is_selected(h, c, a) {
            h.insert(c.kind, effective_hash(c.hash))
        } else {
            h
        };
        tick_hashes(h1, comps.drop_first(), a)
    }
}

/// Whether one action emits a batch of the given kind.
pub open spec fn emit_has_kind(x: SinkAction, kind: Seq<char>) -> bool {
    x matches SinkAction::Emit { batches, .. } && exists|j: int|
        0 <= j < batches@.len() && batches@[j].kind@ == kind
}

/// Whether the actions emit a batch under the given descriptor for the
/// given entity.
pub open spec fn sent_for(acts: Seq<SinkAction>, id: u64, d: Seq<char>) -> bool {
    exists|k: int|
        #![trigger acts[k]]
        0 <= k < acts.len() && (acts[k] matches SinkAction::Emit { entity, batches, .. } && entity
            == id && exists|j: int|
            0 <= j < batches@.len() && (#[trigger] batches@[j]).descriptor@ == d)
}

/// Whether the actions emit any batch of the given kind for the entity.
pub open spec fn kind_dispatched_for(acts: Seq<SinkAction>, id: u64, kind: Seq<char>) -> bool {
    exists|k: int|
        #![trigger acts[k]]
        0 <= k < acts.len() && (acts[k] matches SinkAction::Emit { entity, .. } && entity == id)
            && emit_has_kind(acts[k], kind)
}

/// Whether some component of the given kind is attached.
pub open spec fn has_kind(comps: Seq<ComponentMeta>, kind: Seq<char>) -> bool {
    exists|ci: int| 0 <= ci < comps.len() && comps[ci].kind == kind
}

/// Whether a descriptor's previous state is carried into this tick
/// unchanged: its kind is still attached but was not dispatched, and
/// nothing was sent under the descriptor.
pub open spec fn carried_for(
    ee: Map<Seq<char>, EmittedInfo>,
    comps: Seq<ComponentMeta>,
    acts: Seq<SinkAction>,
    id: u64,
    d: Seq<char>,
) -> bool {
    &&& ee.contains_key(d)
    &&& has_kind(comps, ee[d].kind)
    &&& !kind_dispatched_for(acts, id, ee[d].kind)
    &&& !sent_for(acts, id, d)
}

/// Whether the recorded state of a descriptor matches one batch the
/// actions sent for the entity, at the sink path that emission targeted.
pub open spec fn sent_value_ok(
    acts: Seq<SinkAction>,
    id: u64,
    np: Seq<Seq<char>>,
    d: Seq<char>,
    info: EmittedInfo,
) -> bool {
    exists|k: int|
        #![trigger acts[k]]
        0 <= k < acts.len() && (acts[k] matches SinkAction::Emit {
            entity,
            suffix,
            batches,
            ..
        } && entity == id && info.path == emit_target(np, crate::snapshot::opt_str_view(suffix))
            && exists|j: int|
            0 <= j < batches@.len() && (#[trigger] batches@[j]).descriptor@ == d && info.kind
                == batches@[j].kind@)
}

/// The hash cache an entity starts the tick with: its cached hashes when
/// it is known under an unchanged path, empty otherwise.
pub open spec fn eff_hashes(b0: Map<u64, BookMeta>, id: u64, np: Seq<Seq<char>>) -> Map<
    Seq<char>,
    u64,
> {
    if b0.contains_key(id) && b0[id].path == np {
        b0[id].hashes
    } else {
        Map::empty()
    }
}

/// The emitted set an entity starts the tick with: its recorded set when
/// it is known under an unchanged path, empty otherwise.
pub open spec fn eff_emitted(b0: Map<u64, BookMeta>, id: u64, np: Seq<Seq<char>>) -> Map<
    Seq<char>,
    EmittedInfo,
> {
    if b0.contains_key(id) && b0[id].path == np {
        b0[id].emitted
    } else {
        Map::empty()
    }
}

/// Whether an entity's path identity changed since the previous tick.
pub open spec fn is_reparented(b0: Map<u64, BookMeta>, id: u64, np: Seq<Seq<char>>) -> bool {
    b0.contains_key(id) && b0[id].path != np
}

pub open spec fn opt_loggers_view(l: Option<RerunComponentLoggers>) -> Option<
    Map<Seq<char>, Option<u64>>,
> {
    match l {
        Option::Some(x) => Option::Some(x@),
        Option::None => Option::None,
    }
}

/// Two hash caches agree about one kind.
pub open spec fn agree_at(h1: Map<Seq<char>, u64>, h2: Map<Seq<char>, u64>, kind: Seq<char>) -> bool {
    (h1.contains_key(kind) <==> h2.contains_key(kind)) && (h1.contains_key(kind) ==> h1[kind]
        == h2[kind])
}

/// Whether a kind is attached to the entity.
fn component_has_kind(entity: &EntitySnapshot, kind: &String) -> (r: bool)
    ensures
        r == has_kind(entity@.components, kind@),
{
    let n = entity.components.len();
    let mut i: usize = 0;
    while i < n
        invariant
            n == entity.components@.len(),
            i <= n,
            forall|j: int| 0 <= j < i ==> #[trigger] entity.components@[j].kind@ != kind@,
        decreases n - i,
    {
        if entity.components[i].kind == *kind {
            proof {
                assert(entity@.components[i as int].kind == kind@);
            }
            return true;
        }
        i = i + 1;
    }
    proof {
        assert(forall|ci: int|
            0 <= ci < entity@.components.len() ==> #[trigger] entity@.components[ci].kind
                != kind@);
    }
    false
}

/// Whether a string with the given view is in the list.
pub open spec fn list_has_str(l: Seq<String>, kind: Seq<char>) -> bool {
    exists|t: int| 0 <= t < l.len() && l[t]@ == kind
}

/// Whether a string with this view is in the list.
fn string_in_list(list: &Vec<String>, s: &String) -> (r: bool)
    ensures
        r == list_has_str(list@, s@),
{
    let n = list.len();
    let mut i: usize = 0;
    while i < n
        invariant
            n == list@.len(),
            i <= n,
            forall|j: int| 0 <= j < i ==> #[trigger] list@[j]@ != s@,
        decreases n - i,
    {
        if list[i] == *s {
            return true;
        }
        i = i + 1;
    }
    false
}

/// What processing one entity for one tick produced.
struct EntityOutcome {
    book: EntityBook,
    emits: Vec<SinkAction>,
    flats: Vec<SinkAction>,
    reparent: Option<SinkAction>,
}

/// The per-entity tick contract: the bookkeeping is rebuilt
/// deterministically from the previous book and the snapshot, emissions
/// happen exactly for dispatched components, the emitted set records what
/// was sent plus what is carried unchanged, and a targeted flat
/// retraction is issued exactly for every previously recorded descriptor
/// whose state did not survive.
#[verifier::opaque]
pub open spec fn entity_outcome_emits_ok(
    emits: Seq<SinkAction>,
    s: Seq<EntitySnapshot>,
    eidx: int,
    a: AssetChanges,
    ov: Option<Map<Seq<char>, Option<u64>>>,
    df: Map<Seq<char>, Option<u64>>,
    b0: Map<u64, BookMeta>,
) -> bool {
    let id = s[eidx].id;
    let np = path_spec(s, id);
    let comps = s[eidx]@.components;
    let eh = eff_hashes(b0, id, np);
    &&& forall|k: int|
        0 <= k < emits.len() ==> (#[trigger] emits[k] matches SinkAction::Emit {
            entity,
            path,
            batches,
            ..
        } && entity == id && path@ == np && batches@.len() >= 1)
    &&& forall|k: int|
        0 <= k < emits.len() ==> (#[trigger] emits[k] matches SinkAction::Emit { batches, .. }
            ==> forall|j: int|
            0 <= j < batches@.len() ==> exists|ci: int|
                0 <= ci < comps.len() && comps[ci].kind == (#[trigger] batches@[j]).kind@
                    && is_selected(eh, comps[ci], a) && resolve_logger(batches@[j].kind@, ov, df)
                    is Some)
    &&& forall|k1: int, k2: int, kind: Seq<char>|
        #![trigger emit_has_kind(emits[k1], kind), emit_has_kind(emits[k2], kind)]
        0 <= k1 < emits.len() && 0 <= k2 < emits.len() && emit_has_kind(emits[k1], kind)
            && emit_has_kind(emits[k2], kind) ==> k1 == k2
    &&& forall|ci: int|
        0 <= ci < comps.len() && is_selected(eh, #[trigger] comps[ci], a) && resolve_logger(
            comps[ci].kind,
            ov,
            df,
        ) == Option::Some(LoggerRef::Fallback) ==> exists|k: int|
            #![trigger emits[k]]
            0 <= k < emits.len() && (emits[k] matches SinkAction::Emit { batches, .. } && exists|
                j: int,
            |
                0 <= j < batches@.len() && (#[trigger] batches@[j]).kind@ == comps[ci].kind
                    && batches@[j].descriptor@ == sanitize_chars(comps[ci].kind))
}

#[verifier::opaque]
pub open spec fn entity_outcome_book_ok(
    book: EntityBook,
    emits: Seq<SinkAction>,
    s: Seq<EntitySnapshot>,
    eidx: int,
    a: AssetChanges,
    b0: Map<u64, BookMeta>,
) -> bool {
    let id = s[eidx].id;
    let np = path_spec(s, id);
    let comps = s[eidx]@.components;
    let eh = eff_hashes(b0, id, np);
    let ee = eff_emitted(b0, id, np);
    &&& book.id == id
    &&& book.path@ == np
    &&& book_wf(book)
    &&& book.hashes@ == tick_hashes(eh, comps, a)
    &&& forall|d: Seq<char>|
        #![trigger book.emitted@.contains_key(d)]
        #![trigger sent_for(emits, id, d)]
        book.emitted@.contains_key(d) <==> (sent_for(emits, id, d) || carried_for(
            ee,
            comps,
            emits,
            id,
            d,
        ))
    &&& forall|d: Seq<char>|
        #[trigger] carried_for(ee, comps, emits, id, d) ==> book.emitted@[d] == ee[d]
    &&& forall|d: Seq<char>|
        book.emitted@.contains_key(d) && #[trigger] sent_for(emits, id, d) ==> sent_value_ok(
            emits,
            id,
            np,
            d,
            book.emitted@[d],
        )
}

#[verifier::opaque]
pub open spec fn entity_outcome_retracts_ok(
    book: EntityBook,
    flats: Seq<SinkAction>,
    reparent: Option<SinkAction>,
    s: Seq<EntitySnapshot>,
    eidx: int,
    b0: Map<u64, BookMeta>,
) -> bool {
    let id = s[eidx].id;
    let np = path_spec(s, id);
    let ee = eff_emitted(b0, id, np);
    &&& forall|k: int|
        0 <= k < flats.len() ==> (#[trigger] flats[k] matches SinkAction::Retract {
            path,
            recursive,
        } && !recursive && exists|d: Seq<char>|
            ee.contains_key(d) && ee[d].path == path@ && !(book.emitted@.contains_key(d)
                && book.emitted@[d] == ee[d]))
    &&& forall|d: Seq<char>|
        #[trigger] ee.contains_key(d) && !(book.emitted@.contains_key(d) && book.emitted@[d]
            == ee[d]) ==> exists|k: int|
            #![trigger flats[k]]
            0 <= k < flats.len() && (flats[k] matches SinkAction::Retract { path, recursive }
                && !recursive && path@ == ee[d].path)
    &&& (reparent is Some <==> is_reparented(b0, id, np))
    &&& (reparent matches Option::Some(x) ==> (x matches SinkAction::Retract { path, recursive }
        && recursive && path@ == b0[id].path))
}

/// The synchronization engine: the logger configuration it was built
/// with, and its per-entity bookkeeping from the previous tick.
pub struct SyncEngine {
    /// User-supplied per-kind overrides, if any.
    pub loggers: Option<RerunComponentLoggers>,
    /// The built-in default logger table.
    pub default_loggers: DefaultRerunComponentLoggers,
    /// One book per entity that was live last tick.
    pub books: Vec<EntityBook>,
}

impl SyncEngine {
    pub open spec fn wf(&self) -> bool {
        &&& match self.loggers {
            Option::Some(l) => l.wf(),
            Option::None => true,
        }
        &&& self.default_loggers.table.wf()
        &&& unique_book_ids(self.books@)
        &&& forall|i: int| 0 <= i < self.books@.len() ==> book_wf(#[trigger] self.books@[i])
    }

    /// The override table's view, if overrides were supplied.
    pub open spec fn overrides_view(&self) -> Option<Map<Seq<char>, Option<u64>>> {
        match self.loggers {
            Option::Some(l) => Option::Some(l@),
            Option::None => Option::None,
        }
    }

    /// Builds an engine from its logger configuration. No entity has been
    /// seen yet.
    pub fn new(
        loggers: Option<RerunComponentLoggers>,
        default_loggers: DefaultRerunComponentLoggers,
    ) -> (r: SyncEngine)
        requires
            loggers matches Option::Some(l) ==> l.wf(),
            default_loggers.table.wf(),
        ensures
            r.wf(),
            r.loggers == loggers,
            r.default_loggers == default_loggers,
            r.books@.len() == 0,
    {
        SyncEngine { loggers, default_loggers, books: Vec::new() }
    }
}

/// Processes one entity for one tick: resolves its path, detects and
/// dispatches changed components, rebuilds its bookkeeping, and collects
/// the retractions its vanished state requires.
#[verifier::loop_isolation(false)]
#[verifier::rlimit(100)]
fn sync_entity<H: RerunLoggerFn>(
    entities: &Vec<EntitySnapshot>,
    eidx: usize,
    assets: &AssetChanges,
    loggers: &Option<RerunComponentLoggers>,
    default_loggers: &DefaultRerunComponentLoggers,
    old_books: &Vec<EntityBook>,
    host: &mut H,
) -> (r: EntityOutcome)
    requires
        unique_ids(entities@),
        eidx < entities@.len(),
        unique_kinds(entities@[eidx as int]@.components),
        loggers matches Option::Some(l) ==> l.wf(),
        default_loggers.table.wf(),
        unique_book_ids(old_books@),
        forall|i: int| 0 <= i < old_books@.len() ==> book_wf(#[trigger] old_books@[i]),
    ensures
        entity_outcome_emits_ok(
            r.emits@,
            entities@,
            eidx as int,
            *assets,
            opt_loggers_view(*loggers),
            default_loggers@,
            books_map(old_books@),
        ),
        entity_outcome_book_ok(
            r.book,
            r.emits@,
            entities@,
            eidx as int,
            *assets,
            books_map(old_books@),
        ),
        entity_outcome_retracts_ok(
            r.book,
            r.flats@,
            r.reparent,
            entities@,
            eidx as int,
            books_map(old_books@),
        ),
        r.book.id == entities@[eidx as int].id,
        book_wf(r.book),
        r.reparent is Some <==> is_reparented(
            books_map(old_books@),
            entities@[eidx as int].id,
            path_spec(entities@, entities@[eidx as int].id),
        ),
        r.reparent matches Option::Some(x) ==> rec_retract_at(
            x,
            books_map(old_books@)[entities@[eidx as int].id].path,
        ),
{
    let ghost s = entities@;
    let ghost a = *assets;
    let ghost ov = opt_loggers_view(*loggers);
    let ghost df = default_loggers@;
    let ghost b0 = books_map(old_books@);
    let entity = &entities[eidx];
    let id = entity.id;
    let ghost comps = s[eidx as int]@.components;
    let path = compute_entity_path(entities, id);
    let ghost np = path_spec(s, id);
    proof {
        lemma_path_spec_own(s, id);
        assert(entity@ == s[eidx as int]@);
        assert(comps == entity@.components);
    }
    let mut reparent: Option<SinkAction> = None;
    let mut old_hashes: CurrentHashes;
    let mut old_emitted: CurrentComponents;
    match find_book(old_books, id) {
        Option::None => {
            proof {
                lemma_books_map_dom(old_books@, id);
                assert(!b0.contains_key(id));
            }
            old_hashes = CurrentHashes::new();
            old_emitted = CurrentComponents::new();
        },
        Option::Some(bi) => {
            proof {
                lemma_books_map_get(old_books@, bi as int);
                assert(b0[id] == old_books@[bi as int]@);
                assert(book_wf(old_books@[bi as int]));
            }
            if path.eq_path(&old_books[bi].path) {
                old_hashes = old_books[bi].hashes.clone_cache();
                old_emitted = old_books[bi].emitted.clone_set();
                proof {
                    assert(b0[id].path == np);
                }
            } else {
                reparent = Some(
                    SinkAction::Retract { path: old_books[bi].path.clone_path(), recursive: true },
                );
                old_hashes = CurrentHashes::new();
                old_emitted = CurrentComponents::new();
                proof {
                    assert(b0[id].path != np);
                }
            }
        },
    }
    let ghost eh = old_hashes@;
    let ghost ee = old_emitted@;
    proof {
        assert(eh == eff_hashes(b0, id, np));
        assert(ee == eff_emitted(b0, id, np));
        assert(reparent is Some <==> is_reparented(b0, id, np));
    }
    // Detection and dispatch.
    let mut hashes = old_hashes;
    let mut emits: Vec<SinkAction> = Vec::new();
    let mut new_emitted = CurrentComponents::new();
    let mut dispatched_kinds: Vec<String> = Vec::new();
    let ncomp = entity.components.len();
    let mut ci: usize = 0;
    proof {
        assert(comps.skip(0) =~= comps);
    }
    while ci < ncomp
        invariant
            ci <= ncomp,
            ncomp == comps.len(),
            hashes.wf(),
            new_emitted.wf(),
            tick_hashes(eh, comps, a) == tick_hashes(hashes@, comps.skip(ci as int), a),
            forall|j: int| ci <= j < ncomp ==> agree_at(hashes@, eh, (#[trigger] comps[j]).kind),
            forall|k: int|
                0 <= k < emits@.len() ==> (#[trigger] emits@[k] matches SinkAction::Emit {
                    entity: eid,
                    path: p,
                    batches,
                    ..
                } && eid == id && p@ == np && batches@.len() >= 1),
            forall|k: int|
                0 <= k < emits@.len() ==> ((#[trigger] emits@[k]) matches SinkAction::Emit {
                    batches,
                    ..
                } ==> forall|j: int|
                    0 <= j < batches@.len() ==> exists|c2: int|
                        0 <= c2 < ci && comps[c2].kind == (#[trigger] batches@[j]).kind@
                            && is_selected(eh, comps[c2], a) && resolve_logger(
                            batches@[j].kind@,
                            ov,
                            df,
                        ) is Some),
            forall|k1: int, k2: int, kind: Seq<char>|
                #![trigger emit_has_kind(emits@[k1], kind), emit_has_kind(emits@[k2], kind)]
                0 <= k1 < emits@.len() && 0 <= k2 < emits@.len() && emit_has_kind(
                    emits@[k1],
                    kind,
                ) && emit_has_kind(emits@[k2], kind) ==> k1 == k2,
            forall|c2: int|
                0 <= c2 < ci && is_selected(eh, #[trigger] comps[c2], a) && resolve_logger(
                    comps[c2].kind,
                    ov,
                    df,
                ) == Option::Some(LoggerRef::Fallback) ==> exists|k: int|
                    #![trigger emits@[k]]
                    0 <= k < emits@.len() && (emits@[k] matches SinkAction::Emit {
                        batches,
                        ..
                    } && exists|j: int|
                        0 <= j < batches@.len() && (#[trigger] batches@[j]).kind@ == comps[c2].kind
                            && batches@[j].descriptor@ == sanitize_chars(comps[c2].kind)),
            forall|kind: Seq<char>|
                #![trigger kind_dispatched_for(emits@, id, kind)]
                #![trigger list_has_str(dispatched_kinds@, kind)]
                kind_dispatched_for(emits@, id, kind) <==> list_has_str(dispatched_kinds@, kind),
            forall|d: Seq<char>|
                #![trigger new_emitted@.contains_key(d)]
                #![trigger sent_for(emits@, id, d)]
                new_emitted@.contains_key(d) <==> sent_for(emits@, id, d),
            forall|d: Seq<char>|
                new_emitted@.contains_key(d) && #[trigger] sent_for(emits@, id, d)
                    ==> sent_value_ok(emits@, id, np, d, new_emitted@[d]),
        decreases ncomp - ci,
    {
        let c = &entity.components[ci];
        proof {
            assert(c@ == comps[ci as int]);
            assert(comps.skip(ci as int).first() == comps[ci as int]);
            assert(comps.skip(ci as int).drop_first() =~= comps.skip(ci as int + 1));
        }
        let ghost pre_h = hashes@;
        if component_is_candidate(c, assets) {
            let hval = effective_hash_of(c.hash);
            if hashes.should_emit(&c.kind, hval) {
                proof {
                    assert(agree_at(pre_h, eh, comps[ci as int].kind));
                    assert(is_selected(eh, comps[ci as int], a));
                    assert(is_selected(pre_h, comps[ci as int], a));
                }
                hashes.set(c.kind.clone(), hval);
                proof {
                    assert(hashes@ == pre_h.insert(
                        comps[ci as int].kind,
                        effective_hash(comps[ci as int].hash),
                    ));
                    assert(tick_hashes(pre_h, comps.skip(ci as int), a) == tick_hashes(
                        hashes@,
                        comps.skip(ci as int + 1),
                        a,
                    ));
                    assert forall|j: int| ci + 1 <= j < ncomp implies agree_at(
                        hashes@,
                        eh,
                        (comps[j]).kind,
                    ) by {
                        assert(comps[j].kind != comps[ci as int].kind);
                        assert(agree_at(pre_h, eh, comps[j].kind));
                    }
                }
                let to_emit: Option<(Option<String>, Vec<EmitBatch>)> = match get_component_logger(
                    &c.kind,
                    loggers.as_ref(),
                    default_loggers,
                ) {
                    Option::None => None,
                    Option::Some(LoggerRef::Custom(tok)) => {
                        let out = host.invoke(tok, id, &c.kind);
                        let LoggerOutput { suffix, batches } = out;
                        if batches.len() > 0 {
                            let mut bo: Vec<EmitBatch> = Vec::new();
                            let mut bb = batches;
                            let ghost nb = bb@.len();
                            while bb.len() > 0
                                invariant
                                    bo@.len() + bb@.len() == nb,
                                    forall|j2: int|
                                        0 <= j2 < bo@.len() ==> (#[trigger] bo@[j2]).kind@
                                            == comps[ci as int].kind,
                                decreases bb@.len(),
                            {
                                let b = bb.pop().unwrap();
                                bo.push(
                                    EmitBatch {
                                        kind: c.kind.clone(),
                                        descriptor: b.descriptor,
                                        payload: b.payload,
                                    },
                                );
                            }
                            Some((suffix, bo))
                        } else {
                            None
                        }
                    },
                    Option::Some(LoggerRef::Fallback) => {
                        let txt = host.fallback_text(id, &c.kind);
                        let body = match txt {
                            Option::Some(t) => t,
                            Option::None => String::from_str("<missing reflection metadata>"),
                        };
                        let desc = sanitize_kind_name(c.kind.as_str());
                        let payload = body.as_str().as_bytes_vec();
                        let mut bo: Vec<EmitBatch> = Vec::new();
                        bo.push(EmitBatch { kind: c.kind.clone(), descriptor: desc, payload });
                        Some((Option::None, bo))
                    },
                };
                match to_emit {
                    Option::None => {},
                    Option::Some((suffix, bo)) => {
                        proof {
                            assert(bo@.len() >= 1);
                            assert(forall|j2: int|
                                0 <= j2 < bo@.len() ==> (#[trigger] bo@[j2]).kind@ == comps[
                                    ci as int
                                ].kind);
                            assert(resolve_logger(comps[ci as int].kind, ov, df) is Some);
                            assert(resolve_logger(comps[ci as int].kind, ov, df) == Option::Some(
                                LoggerRef::Fallback,
                            ) ==> bo@[0].descriptor@ == sanitize_chars(comps[ci as int].kind));
                        }
                        let ghost sfxv = crate::snapshot::opt_str_view(suffix);
                        let ghost info = EmittedInfo {
                            kind: comps[ci as int].kind,
                            path: emit_target(np, sfxv),
                        };
                        let target = emit_target_of(&path, &suffix);
                        let ghost pre_em = new_emitted@;
                        let blen = bo.len();
                        let mut j: usize = 0;
                        while j < blen
                            invariant
                                j <= blen,
                                blen == bo@.len(),
                                new_emitted.wf(),
                                forall|d: Seq<char>|
                                    #![trigger new_emitted@.contains_key(d)]
                                    new_emitted@.contains_key(d) <==> (pre_em.contains_key(d)
                                        || exists|j2: int|
                                        0 <= j2 < j && (#[trigger] bo@[j2]).descriptor@ == d),
                                forall|d: Seq<char>|
                                    #![trigger new_emitted@[d]]
                                    new_emitted@.contains_key(d) ==> ((exists|j2: int|
                                        0 <= j2 < j && (#[trigger] bo@[j2]).descriptor@ == d
                                            && new_emitted@[d] == info) || (pre_em.contains_key(d)
                                        && new_emitted@[d] == pre_em[d] && !(exists|j2: int|
                                        0 <= j2 < j && bo@[j2].descriptor@ == d))),
                            decreases blen - j,
                        {
                            new_emitted.set(
                                EmittedRecord {
                                    descriptor: bo[j].descriptor.clone(),
                                    kind: c.kind.clone(),
                                    path: target.clone_path(),
                                },
                            );
                            j = j + 1;
                        }
                        let ghost bo_v = bo@;
                        let ghost pre_emits = emits@;
                        let ghost pre_dk = dispatched_kinds@;
                        emits.push(
                            SinkAction::Emit {
                                entity: id,
                                path: path.clone_path(),
                                suffix,
                                batches: bo,
                            },
                        );
                        dispatched_kinds.push(c.kind.clone());
                        proof {
                            let ghost ne = emits@.len() - 1;
                            assert(emits@[ne] matches SinkAction::Emit {
                                entity: eid,
                                path: p,
                                suffix: sfx2,
                                batches,
                            } && eid == id && p@ == np && batches@ == bo_v && crate::snapshot::opt_str_view(sfx2) == sfxv);
                            assert(forall|k: int| 0 <= k < ne ==> emits@[k] == pre_emits[k]);
                            // kind-once: older emits carry kinds of earlier components
                            assert forall|k1: int, k2: int, kind: Seq<char>|
                                #![trigger emit_has_kind(emits@[k1], kind), emit_has_kind(emits@[k2], kind)]
                                0 <= k1 < emits@.len() && 0 <= k2 < emits@.len() && k1 != k2
                                    && emit_has_kind(emits@[k1], kind) implies !emit_has_kind(
                                emits@[k2],
                                kind,
                            ) by {
                                if k1 < ne && k2 < ne {
                                    assert(emit_has_kind(pre_emits[k1], kind));
                                    if emit_has_kind(emits@[k2], kind) {
                                        assert(emit_has_kind(pre_emits[k2], kind));
                                        assert(false);
                                    }
                                } else if k1 == ne {
                                    assert(kind == comps[ci as int].kind);
                                    if emit_has_kind(emits@[k2], kind) {
                                        assert(emit_has_kind(pre_emits[k2], kind));
                                        let c2 = choose|c2: int|
                                            0 <= c2 < ci && comps[c2].kind == kind && is_selected(
                                                eh,
                                                comps[c2],
                                                a,
                                            ) && resolve_logger(kind, ov, df) is Some;
                                        assert(comps[c2].kind == comps[ci as int].kind);
                                        assert(false);
                                    }
                                } else {
                                    assert(emit_has_kind(pre_emits[k1], kind));
                                    let c2 = choose|c2: int|
                                        0 <= c2 < ci && comps[c2].kind == kind && is_selected(
                                            eh,
                                            comps[c2],
                                            a,
                                        ) && resolve_logger(kind, ov, df) is Some;
                                    if emit_has_kind(emits@[k2], kind) {
                                        assert(kind == comps[ci as int].kind);
                                        assert(false);
                                    }
                                }
                            }
                            assert forall|kind: Seq<char>| #[trigger] kind_dispatched_for(
                                emits@,
                                id,
                                kind,
                            ) implies list_has_str(dispatched_kinds@, kind) by {
                                let k = choose|k: int|
                                    #![trigger emits@[k]]
                                    0 <= k < emits@.len() && (emits@[k]
                                        matches SinkAction::Emit { entity: eid2, .. } && eid2
                                        == id) && emit_has_kind(emits@[k], kind);
                                if k < ne {
                                    assert(emit_has_kind(pre_emits[k], kind));
                                    assert(kind_dispatched_for(pre_emits, id, kind));
                                    assert(list_has_str(pre_dk, kind));
                                    let t3 = choose|t3: int|
                                        0 <= t3 < pre_dk.len() && pre_dk[t3]@ == kind;
                                    assert(dispatched_kinds@[t3]@ == kind);
                                } else {
                                    assert(kind == comps[ci as int].kind);
                                    assert(dispatched_kinds@[dispatched_kinds@.len() - 1]@
                                        == kind);
                                }
                            }
                            assert forall|kind: Seq<char>| #[trigger] list_has_str(
                                dispatched_kinds@,
                                kind,
                            ) implies kind_dispatched_for(emits@, id, kind) by {
                                let t3 = choose|t3: int|
                                    0 <= t3 < dispatched_kinds@.len() && dispatched_kinds@[t3]@
                                        == kind;
                                if t3 < dispatched_kinds@.len() - 1 {
                                    assert(pre_dk[t3]@ == kind);
                                    assert(list_has_str(pre_dk, kind));
                                    assert(kind_dispatched_for(pre_emits, id, kind));
                                    let k = choose|k: int|
                                        #![trigger pre_emits[k]]
                                        0 <= k < pre_emits.len() && (pre_emits[k]
                                            matches SinkAction::Emit { entity: eid2, .. } && eid2
                                            == id) && emit_has_kind(pre_emits[k], kind);
                                    assert(emits@[k] == pre_emits[k]);
                                    assert(emit_has_kind(emits@[k], kind));
                                } else {
                                    assert(kind == comps[ci as int].kind);
                                    assert(bo_v[0].kind@ == kind);
                                    assert(emit_has_kind(emits@[ne], kind));
                                }
                            }
                        }
                    },
                }
            } else {
                proof {
                    assert(agree_at(pre_h, eh, comps[ci as int].kind));
                    assert(!is_selected(pre_h, comps[ci as int], a));
                    assert(!is_selected(eh, comps[ci as int], a));
                    assert(tick_hashes(pre_h, comps.skip(ci as int), a) == tick_hashes(
                        hashes@,
                        comps.skip(ci as int + 1),
                        a,
                    ));
                }
            }
        } else {
            proof {
                assert(!is_candidate(comps[ci as int], a));
                assert(!is_selected(hashes@, comps[ci as int], a));
                assert(tick_hashes(pre_h, comps.skip(ci as int), a) == tick_hashes(
                    hashes@,
                    comps.skip(ci as int + 1),
                    a,
                ));
            }
        }
        ci = ci + 1;
    }
    proof {
        assert(comps.skip(ncomp as int) =~= Seq::<ComponentMeta>::empty());
        assert(tick_hashes(eh, comps, a) == hashes@);
    }
    // Carry forward previous state whose kind is still attached but was
    // not dispatched this tick.
    let nold = old_emitted.entries.len();
    let mut t: usize = 0;
    while t < nold
        invariant
            t <= nold,
            new_emitted.wf(),
            forall|d: Seq<char>|
                #![trigger new_emitted@.contains_key(d)]
                new_emitted@.contains_key(d) <==> (sent_for(emits@, id, d) || (carried_for(
                    ee,
                    comps,
                    emits@,
                    id,
                    d,
                ) && exists|t2: int|
                    0 <= t2 < t && (#[trigger] old_emitted.entries@[t2]).descriptor@ == d)),
            forall|d: Seq<char>|
                new_emitted@.contains_key(d) && #[trigger] sent_for(emits@, id, d)
                    ==> sent_value_ok(emits@, id, np, d, new_emitted@[d]),
            forall|d: Seq<char>|
                #![trigger new_emitted@[d]]
                new_emitted@.contains_key(d) && !sent_for(emits@, id, d) ==> new_emitted@[d]
                    == ee[d],
        decreases nold - t,
    {
        let rec = &old_emitted.entries[t];
        proof {
            lemma_map_of_records_get(old_emitted.entries@, t as int);
            assert(ee[rec.descriptor@] == rec@);
        }
        let already = new_emitted.contains(&rec.descriptor);
        if !already {
            let kind_attached = component_has_kind(entity, &rec.kind);
            let was_dispatched = string_in_list(&dispatched_kinds, &rec.kind);
            if kind_attached && !was_dispatched {
                new_emitted.set(
                    EmittedRecord {
                        descriptor: rec.descriptor.clone(),
                        kind: rec.kind.clone(),
                        path: rec.path.clone_path(),
                    },
                );
                proof {
                    assert(carried_for(ee, comps, emits@, id, rec.descriptor@));
                }
            }
        } else {
            proof {
                if !sent_for(emits@, id, rec.descriptor@) {
                    let t2 = choose|t2: int|
                        0 <= t2 < t && old_emitted.entries@[t2].descriptor@ == rec.descriptor@;
                    assert(old_emitted.entries@[t2].descriptor@ == old_emitted.entries@[
                        t as int
                    ].descriptor@);
                    assert(false);
                }
            }
        }
        t = t + 1;
    }
    proof {
        assert forall|d: Seq<char>| #[trigger] carried_for(ee, comps, emits@, id, d) implies exists|
            t2: int,
        | 0 <= t2 < nold && old_emitted.entries@[t2].descriptor@ == d by {
            lemma_map_of_records_dom(old_emitted.entries@, d);
        }
    }
    // Targeted retractions for previously recorded state that did not
    // survive into this tick's emitted set.
    let mut flats: Vec<SinkAction> = Vec::new();
    let mut t2: usize = 0;
    while t2 < nold
        invariant
            t2 <= nold,
            forall|k: int|
                0 <= k < flats@.len() ==> (#[trigger] flats@[k] matches SinkAction::Retract {
                    path: p,
                    recursive,
                } && !recursive && exists|d: Seq<char>|
                    ee.contains_key(d) && ee[d].path == p@ && !(new_emitted@.contains_key(d)
                        && new_emitted@[d] == ee[d])),
            forall|u: int|
                0 <= u < t2 && !(new_emitted@.contains_key(
                    (#[trigger] old_emitted.entries@[u]).descriptor@,
                ) && new_emitted@[old_emitted.entries@[u].descriptor@] == ee[old_emitted.entries@[
                    u
                ].descriptor@]) ==> exists|k: int|
                    #![trigger flats@[k]]
                    0 <= k < flats@.len() && (flats@[k] matches SinkAction::Retract {
                        path: p,
                        recursive,
                    } && !recursive && p@ == ee[old_emitted.entries@[u].descriptor@].path),
        decreases nold - t2,
    {
        let rec = &old_emitted.entries[t2];
        proof {
            lemma_map_of_records_get(old_emitted.entries@, t2 as int);
            assert(ee[rec.descriptor@] == rec@);
        }
        let ghost flats0 = flats@;
        let dropped = !new_emitted.holds_record(rec);
        if dropped {
            flats.push(SinkAction::Retract { path: rec.path.clone_path(), recursive: false });
            proof {
                assert(forall|k: int| 0 <= k < flats0.len() ==> flats@[k] == flats0[k]);
            }
        }
        proof {
            assert forall|u: int|
                0 <= u < t2 + 1 && !(new_emitted@.contains_key(
                    (old_emitted.entries@[u]).descriptor@,
                ) && new_emitted@[old_emitted.entries@[u].descriptor@] == ee[old_emitted.entries@[
                    u
                ].descriptor@]) implies exists|k: int|
                #![trigger flats@[k]]
                0 <= k < flats@.len() && (flats@[k] matches SinkAction::Retract {
                    path: p,
                    recursive,
                } && !recursive && p@ == ee[old_emitted.entries@[u].descriptor@].path) by {
                let d = old_emitted.entries@[u].descriptor@;
                if u < t2 {
                    let k = choose|k: int|
                        #![trigger flats0[k]]
                        0 <= k < flats0.len() && (flats0[k] matches SinkAction::Retract {
                            path: p,
                            recursive,
                        } && !recursive && p@ == ee[d].path);
                    assert(flats@[k] == flats0[k]);
                } else {
                    assert(u == t2);
                    assert(dropped);
                    assert(flats@[flats@.len() - 1] matches SinkAction::Retract {
                        path: p,
                        recursive,
                    } && !recursive && p@ == ee[d].path);
                }
            }
        }
        t2 = t2 + 1;
    }
    proof {
        assert forall|d: Seq<char>|
            #[trigger] ee.contains_key(d) && !(new_emitted@.contains_key(d) && new_emitted@[d]
                == ee[d]) implies exists|k: int|
            #![trigger flats@[k]]
            0 <= k < flats@.len() && (flats@[k] matches SinkAction::Retract { path: p, recursive }
                && !recursive && p@ == ee[d].path) by {
            lemma_map_of_records_dom(old_emitted.entries@, d);
            let u = choose|u: int|
                0 <= u < old_emitted.entries@.len() && old_emitted.entries@[u].descriptor@ == d;
            lemma_map_of_records_get(old_emitted.entries@, u);
        }
    }
    let book = EntityBook { id, path, hashes, emitted: new_emitted };
    proof {
        assert(book_wf(book));
        reveal(entity_outcome_emits_ok);
        reveal(entity_outcome_book_ok);
        reveal(entity_outcome_retracts_ok);
        assert(entity_outcome_emits_ok(emits@, s, eidx as int, a, ov, df, b0));
        assert(entity_outcome_book_ok(book, emits@, s, eidx as int, a, b0));
        assert(entity_outcome_retracts_ok(book, flats@, reparent, s, eidx as int, b0));
        match &reparent {
            Option::Some(x) => {
                assert(rec_retract_at(*x, b0[id].path));
            },
            Option::None => {},
        }
    }
    EntityOutcome { book, emits, flats, reparent }
}

/// Whether some entity with this identifier is in the snapshot.
pub open spec fn has_entity(s: Seq<EntitySnapshot>, id: u64) -> bool {
    exists|i: int| 0 <= i < s.len() && s[i].id == id
}

/// The entity an emission belongs to.
pub open spec fn emit_entity(x: SinkAction) -> u64 {
    match x {
        SinkAction::Emit { entity, .. } => entity,
        _ => 0,
    }
}

/// Whether an entity known last tick is gone from the snapshot.
pub open spec fn despawned(b0: Map<u64, BookMeta>, s: Seq<EntitySnapshot>, id: u64) -> bool {
    b0.contains_key(id) && !has_entity(s, id)
}

/// What every emission in the action list satisfies: it belongs to an
/// entity of the snapshot, lands at that entity's resolved path, and
/// every batch comes from a component that change detection dispatched
/// and the resolution chain did not suppress.
pub open spec fn emit_action_ok(
    x: SinkAction,
    s: Seq<EntitySnapshot>,
    a: AssetChanges,
    ov: Option<Map<Seq<char>, Option<u64>>>,
    df: Map<Seq<char>, Option<u64>>,
    b0: Map<u64, BookMeta>,
) -> bool {
    x matches SinkAction::Emit { entity, path, batches, .. } ==> exists|i: int|
        #![trigger s[i]]
        0 <= i < s.len() && s[i].id == entity && path@ == path_spec(s, entity) && batches@.len()
            >= 1 && (forall|j: int|
            0 <= j < batches@.len() ==> exists|ci: int|
                0 <= ci < s[i]@.components.len() && s[i]@.components[ci].kind == (#[trigger] batches@[
                    j
                ]).kind@ && is_selected(
                    eff_hashes(b0, entity, path_spec(s, entity)),
                    s[i]@.components[ci],
                    a,
                ) && resolve_logger(batches@[j].kind@, ov, df) is Some)
}

/// All batches of one component kind of one entity land in one emission.
pub open spec fn emits_once_per_kind(acts: Seq<SinkAction>) -> bool {
    forall|k1: int, k2: int, kind: Seq<char>|
        #![trigger emit_has_kind(acts[k1], kind), emit_has_kind(acts[k2], kind)]
        (0 <= k1 < acts.len() && 0 <= k2 < acts.len() && k1 != k2 && (acts[k1]
            matches SinkAction::Emit { entity: e1, .. } && (acts[k2] matches SinkAction::Emit {
            entity: e2,
            ..
        } && e1 == e2))) ==> !(emit_has_kind(acts[k1], kind) && emit_has_kind(acts[k2], kind))
}

/// Whether the actions emit, for the entity, a batch of this kind under
/// the fallback logger's sanitized descriptor.
pub open spec fn fallback_emitted(acts: Seq<SinkAction>, id: u64, kind: Seq<char>) -> bool {
    exists|k: int|
        #![trigger acts[k]]
        0 <= k < acts.len() && (acts[k] matches SinkAction::Emit { entity, batches, .. } && entity
            == id && exists|j: int|
            0 <= j < batches@.len() && (#[trigger] batches@[j]).kind@ == kind
                && batches@[j].descriptor@ == sanitize_chars(kind))
}

/// The emission-related predicates only look at emissions for the given
/// entity, so they carry over between an action list and any list that
/// holds the same emissions for that entity.
proof fn lemma_sent_restrict(full: Seq<SinkAction>, em: Seq<SinkAction>, off: int, id: u64)
    requires
        0 <= off,
        off + em.len() <= full.len(),
        forall|k: int| 0 <= k < em.len() ==> full[off + k] == em[k],
        forall|k: int|
            (0 <= k < off || off + em.len() <= k < full.len()) ==> !((#[trigger] full[k])
                matches SinkAction::Emit { entity, .. } && entity == id),
    ensures
        forall|d: Seq<char>|
            #![trigger sent_for(full, id, d)]
            #![trigger sent_for(em, id, d)]
            sent_for(full, id, d) == sent_for(em, id, d),
        forall|kind: Seq<char>|
            #![trigger kind_dispatched_for(full, id, kind)]
            #![trigger kind_dispatched_for(em, id, kind)]
            kind_dispatched_for(full, id, kind) == kind_dispatched_for(em, id, kind),
        forall|np: Seq<Seq<char>>, d: Seq<char>, info: EmittedInfo|
            #![trigger sent_value_ok(full, id, np, d, info)]
            #![trigger sent_value_ok(em, id, np, d, info)]
            sent_value_ok(full, id, np, d, info) == sent_value_ok(em, id, np, d, info),
        forall|kind: Seq<char>|
            #![trigger fallback_emitted(full, id, kind)]
            #![trigger fallback_emitted(em, id, kind)]
            fallback_emitted(full, id, kind) == fallback_emitted(em, id, kind),
{
    assert forall|d: Seq<char>| #[trigger] sent_for(full, id, d) implies sent_for(em, id, d) by {
        let k = choose|k: int|
            #![trigger full[k]]
            0 <= k < full.len() && (full[k] matches SinkAction::Emit { entity, batches, .. }
                && entity == id && exists|j: int|
                0 <= j < batches@.len() && (#[trigger] batches@[j]).descriptor@ == d);
        assert(off <= k < off + em.len());
        assert(em[k - off] == full[k]);
    }
    assert forall|d: Seq<char>| #[trigger] sent_for(em, id, d) implies sent_for(full, id, d) by {
        let k = choose|k: int|
            #![trigger em[k]]
            0 <= k < em.len() && (em[k] matches SinkAction::Emit { entity, batches, .. } && entity
                == id && exists|j: int|
                0 <= j < batches@.len() && (#[trigger] batches@[j]).descriptor@ == d);
        assert(full[off + k] == em[k]);
    }
    assert forall|kind: Seq<char>| #[trigger] kind_dispatched_for(full, id, kind) implies
        kind_dispatched_for(em, id, kind) by {
        let k = choose|k: int|
            #![trigger full[k]]
            0 <= k < full.len() && (full[k] matches SinkAction::Emit { entity, .. } && entity
                == id) && emit_has_kind(full[k], kind);
        assert(off <= k < off + em.len());
        assert(em[k - off] == full[k]);
    }
    assert forall|kind: Seq<char>| #[trigger] kind_dispatched_for(em, id, kind) implies
        kind_dispatched_for(full, id, kind) by {
        let k = choose|k: int|
            #![trigger em[k]]
            0 <= k < em.len() && (em[k] matches SinkAction::Emit { entity, .. } && entity == id)
                && emit_has_kind(em[k], kind);
        assert(full[off + k] == em[k]);
    }
    assert forall|np: Seq<Seq<char>>, d: Seq<char>, info: EmittedInfo| #[trigger] sent_value_ok(
        full,
        id,
        np,
        d,
        info,
    ) implies sent_value_ok(em, id, np, d, info) by {
        let k = choose|k: int|
            #![trigger full[k]]
            0 <= k < full.len() && (full[k] matches SinkAction::Emit { entity, suffix, batches, .. }
                && entity == id && info.path == emit_target(
                np,
                crate::snapshot::opt_str_view(suffix),
            ) && exists|j: int|
                0 <= j < batches@.len() && (#[trigger] batches@[j]).descriptor@ == d && info.kind
                    == batches@[j].kind@);
        assert(off <= k < off + em.len());
        assert(em[k - off] == full[k]);
    }
    assert forall|np: Seq<Seq<char>>, d: Seq<char>, info: EmittedInfo| #[trigger] sent_value_ok(
        em,
        id,
        np,
        d,
        info,
    ) implies sent_value_ok(full, id, np, d, info) by {
        let k = choose|k: int|
            #![trigger em[k]]
            0 <= k < em.len() && (em[k] matches SinkAction::Emit { entity, suffix, batches, .. }
                && entity == id && info.path == emit_target(
                np,
                crate::snapshot::opt_str_view(suffix),
            ) && exists|j: int|
                0 <= j < batches@.len() && (#[trigger] batches@[j]).descriptor@ == d && info.kind
                    == batches@[j].kind@);
        assert(full[off + k] == em[k]);
    }
    assert forall|kind: Seq<char>| #[trigger] fallback_emitted(full, id, kind) implies
        fallback_emitted(em, id, kind) by {
        let k = choose|k: int|
            #![trigger full[k]]
            0 <= k < full.len() && (full[k] matches SinkAction::Emit { entity, batches, .. }
                && entity == id && exists|j: int|
                0 <= j < batches@.len() && (#[trigger] batches@[j]).kind@ == kind
                    && batches@[j].descriptor@ == sanitize_chars(kind));
        assert(off <= k < off + em.len());
        assert(em[k - off] == full[k]);
    }
    assert forall|kind: Seq<char>| #[trigger] fallback_emitted(em, id, kind) implies
        fallback_emitted(full, id, kind) by {
        let k = choose|k: int|
            #![trigger em[k]]
            0 <= k < em.len() && (em[k] matches SinkAction::Emit { entity, batches, .. } && entity
                == id && exists|j: int|
                0 <= j < batches@.len() && (#[trigger] batches@[j]).kind@ == kind
                    && batches@[j].descriptor@ == sanitize_chars(kind));
        assert(full[off + k] == em[k]);
    }
}

/// The per-entity bookkeeping relation, stated over the whole action
/// list: what [`entity_outcome_book_ok`] states over one entity's own
/// emissions.
pub open spec fn tick_book_entry_ok(
    b: BookMeta,
    acts: Seq<SinkAction>,
    s: Seq<EntitySnapshot>,
    i: int,
    a: AssetChanges,
    b0: Map<u64, BookMeta>,
) -> bool {
    let id = s[i].id;
    let np = path_spec(s, id);
    let comps = s[i]@.components;
    let eh = eff_hashes(b0, id, np);
    let ee = eff_emitted(b0, id, np);
    &&& b.path == np
    &&& b.hashes == tick_hashes(eh, comps, a)
    &&& forall|d: Seq<char>|
        #![trigger b.emitted.contains_key(d)]
        #![trigger sent_for(acts, id, d)]
        b.emitted.contains_key(d) <==> (sent_for(acts, id, d) || carried_for(ee, comps, acts, id, d))
    &&& forall|d: Seq<char>| #[trigger] carried_for(ee, comps, acts, id, d) ==> b.emitted[d] == ee[d]
    &&& forall|d: Seq<char>|
        b.emitted.contains_key(d) && #[trigger] sent_for(acts, id, d) ==> sent_value_ok(
            acts,
            id,
            np,
            d,
            b.emitted[d],
        )
}

/// Whether an action is a targeted (non-recursive) retraction at this path.
pub open spec fn flat_retract_at(x: SinkAction, p: Seq<Seq<char>>) -> bool {
    x matches SinkAction::Retract { path, recursive } && !recursive && path@ == p
}

/// Whether an action is a recursive retraction at this path.
pub open spec fn rec_retract_at(x: SinkAction, p: Seq<Seq<char>>) -> bool {
    x matches SinkAction::Retract { path, recursive } && recursive && path@ == p
}

/// The path a retraction targets.
pub open spec fn retract_path(x: SinkAction) -> Seq<Seq<char>> {
    match x {
        SinkAction::Retract { path, .. } => path@,
        _ => Seq::empty(),
    }
}

/// Whether a descriptor's recorded state did not survive into the new
/// bookkeeping of the entity at index `i`.
pub open spec fn entry_dropped(
    b1: Map<u64, BookMeta>,
    s: Seq<EntitySnapshot>,
    i: int,
    b0: Map<u64, BookMeta>,
    d: Seq<char>,
) -> bool {
    let id = s[i].id;
    let ee = eff_emitted(b0, id, path_spec(s, id));
    ee.contains_key(d) && !(b1[id].emitted.contains_key(d) && b1[id].emitted[d] == ee[d])
}

/// The retraction discipline of one tick, stated over the whole action
/// list and the bookkeeping it leaves behind: a targeted retraction is
/// issued exactly at the recorded paths of descriptors whose state did
/// not survive, and one recursive retraction is issued exactly at the
/// last-known path of every entity that despawned or whose path identity
/// changed.
pub open spec fn tick_retracts_ok(
    b1: Map<u64, BookMeta>,
    acts: Seq<SinkAction>,
    s: Seq<EntitySnapshot>,
    b0: Map<u64, BookMeta>,
) -> bool {
    &&& forall|k: int|
        0 <= k < acts.len() && ((#[trigger] acts[k]) matches SinkAction::Retract {
            recursive: false,
            ..
        }) ==> exists|i: int, d: Seq<char>|
            #![trigger entry_dropped(b1, s, i, b0, d)]
            0 <= i < s.len() && entry_dropped(b1, s, i, b0, d) && flat_retract_at(
                acts[k],
                eff_emitted(b0, s[i].id, path_spec(s, s[i].id))[d].path,
            )
    &&& forall|i: int, d: Seq<char>|
        0 <= i < s.len() && #[trigger] entry_dropped(b1, s, i, b0, d) ==> exists|k: int|
            #![trigger acts[k]]
            0 <= k < acts.len() && flat_retract_at(
                acts[k],
                eff_emitted(b0, s[i].id, path_spec(s, s[i].id))[d].path,
            )
    &&& forall|k: int|
        0 <= k < acts.len() && ((#[trigger] acts[k]) matches SinkAction::Retract {
            recursive: true,
            ..
        }) ==> ((exists|id: u64| #[trigger] despawned(b0, s, id) && rec_retract_at(acts[k], b0[id].path))
            || (exists|i: int|
            #![trigger s[i]]
            0 <= i < s.len() && is_reparented(b0, s[i].id, path_spec(s, s[i].id)) && rec_retract_at(
                acts[k],
                b0[s[i].id].path,
            )))
    &&& forall|id: u64|
        #[trigger] despawned(b0, s, id) ==> exists|k: int|
            #![trigger acts[k]]
            0 <= k < acts.len() && rec_retract_at(acts[k], b0[id].path)
    &&& forall|i: int|
        0 <= i < s.len() && is_reparented(b0, (#[trigger] s[i]).id, path_spec(s, s[i].id))
            ==> exists|k: int|
            #![trigger acts[k]]
            0 <= k < acts.len() && rec_retract_at(acts[k], b0[s[i].id].path)
    &&& forall|k1: int, k2: int|
        0 <= k1 < k2 < acts.len() && ((#[trigger] acts[k1]) matches SinkAction::Retract {
            recursive: true,
            ..
        }) && ((#[trigger] acts[k2]) matches SinkAction::Retract { recursive: true, .. })
            ==> retract_path(acts[k1]) != retract_path(acts[k2])
}

/// Whether the recorded state of a descriptor did not survive into the
/// rebuilt book at position `j`.
pub open spec fn books_entry_dropped(
    books: Seq<EntityBook>,
    s: Seq<EntitySnapshot>,
    j: int,
    b0: Map<u64, BookMeta>,
    d: Seq<char>,
) -> bool {
    let id = s[j].id;
    let ee = eff_emitted(b0, id, path_spec(s, id));
    ee.contains_key(d) && !(books[j].emitted@.contains_key(d) && books[j].emitted@[d] == ee[d])
}

/// Every identifier the bookkeeping knows names a well-formed path that
/// ends in that entity's own segment.
proof fn lemma_b0_own_path(books: Seq<EntityBook>, id: u64)
    requires
        unique_book_ids(books),
        forall|i: int| 0 <= i < books.len() ==> book_wf(#[trigger] books[i]),
        books_map(books).contains_key(id),
    ensures
        entity_own_path(books_map(books)[id].path, id),
{
    lemma_books_map_dom(books, id);
    let j = choose|j: int| 0 <= j < books.len() && books[j].id == id;
    lemma_books_map_get(books, j);
}

/// The aggregate emission facts of a tick's processed prefix: the
/// rebuilt books, their relation to the emissions issued so far, and the
/// discipline of those emissions.
#[verifier::opaque]
pub open spec fn tick_em_inv(
    s: Seq<EntitySnapshot>,
    a: AssetChanges,
    ov: Option<Map<Seq<char>, Option<u64>>>,
    df: Map<Seq<char>, Option<u64>>,
    b0: Map<u64, BookMeta>,
    i: int,
    books: Seq<EntityBook>,
    em: Seq<SinkAction>,
) -> bool {
    &&& books.len() == i
    &&& forall|j: int| 0 <= j < i ==> (#[trigger] books[j]).id == s[j].id
    &&& forall|j: int| 0 <= j < i ==> book_wf(#[trigger] books[j])
    &&& forall|j: int| 0 <= j < i ==> entity_outcome_book_ok(#[trigger] books[j], em, s, j, a, b0)
    &&& forall|k: int|
        0 <= k < em.len() ==> ((#[trigger] em[k]) matches SinkAction::Emit { entity, .. } && exists|
            j: int,
        | 0 <= j < i && (#[trigger] s[j]).id == entity)
    &&& forall|k: int| 0 <= k < em.len() ==> emit_action_ok(#[trigger] em[k], s, a, ov, df, b0)
    &&& emits_once_per_kind(em)
    &&& forall|j: int, ci: int|
        0 <= j < i && 0 <= ci < s[j]@.components.len() && is_selected(
            eff_hashes(b0, s[j].id, path_spec(s, s[j].id)),
            #[trigger] s[j]@.components[ci],
            a,
        ) && resolve_logger(s[j]@.components[ci].kind, ov, df) == Option::Some(
            LoggerRef::Fallback,
        ) ==> fallback_emitted(em, s[j].id, s[j]@.components[ci].kind)
}

/// The aggregate retraction facts of a tick's processed prefix: a
/// targeted retraction was collected exactly for the dropped state of
/// the processed entities.
#[verifier::opaque]
pub open spec fn tick_fl_inv(
    s: Seq<EntitySnapshot>,
    b0: Map<u64, BookMeta>,
    i: int,
    books: Seq<EntityBook>,
    fl: Seq<SinkAction>,
) -> bool {
    &&& forall|k: int|
        0 <= k < fl.len() ==> ((#[trigger] fl[k]) matches SinkAction::Retract {
            recursive: false,
            ..
        } && exists|j: int, d: Seq<char>|
            #![trigger books_entry_dropped(books, s, j, b0, d)]
            0 <= j < i && books_entry_dropped(books, s, j, b0, d) && flat_retract_at(
                fl[k],
                eff_emitted(b0, s[j].id, path_spec(s, s[j].id))[d].path,
            ))
    &&& forall|j: int, d: Seq<char>|
        0 <= j < i && #[trigger] books_entry_dropped(books, s, j, b0, d) ==> exists|k: int|
            #![trigger fl[k]]
            0 <= k < fl.len() && flat_retract_at(
                fl[k],
                eff_emitted(b0, s[j].id, path_spec(s, s[j].id))[d].path,
            )
}

/// Nothing has been processed yet: the empty aggregates satisfy both
/// invariants.
proof fn lemma_tick_inv_init(
    s: Seq<EntitySnapshot>,
    a: AssetChanges,
    ov: Option<Map<Seq<char>, Option<u64>>>,
    df: Map<Seq<char>, Option<u64>>,
    b0: Map<u64, BookMeta>,
)
    ensures
        tick_em_inv(s, a, ov, df, b0, 0, Seq::empty(), Seq::empty()),
        tick_fl_inv(s, b0, 0, Seq::empty(), Seq::empty()),
{
    reveal(tick_em_inv);
    reveal(tick_fl_inv);
}

/// Appending one entity's emissions keeps the aggregate emission facts.
#[verifier::rlimit(100)]
proof fn lemma_tick_append_emits(
    s: Seq<EntitySnapshot>,
    a: AssetChanges,
    ov: Option<Map<Seq<char>, Option<u64>>>,
    df: Map<Seq<char>, Option<u64>>,
    b0: Map<u64, BookMeta>,
    i: int,
    pre_em: Seq<SinkAction>,
    em_i: Seq<SinkAction>,
    pre_books: Seq<EntityBook>,
    book: EntityBook,
)
    requires
        unique_ids(s),
        0 <= i < s.len(),
        tick_em_inv(s, a, ov, df, b0, i, pre_books, pre_em),
        entity_outcome_emits_ok(em_i, s, i, a, ov, df, b0),
        entity_outcome_book_ok(book, em_i, s, i, a, b0),
    ensures
        tick_em_inv(s, a, ov, df, b0, i + 1, pre_books.push(book), pre_em + em_i),
{
    reveal(tick_em_inv);
    reveal(entity_outcome_emits_ok);
    reveal(entity_outcome_book_ok);
    let id_i = s[i].id;
    let em2 = pre_em + em_i;
    let books2 = pre_books.push(book);
    assert(forall|k: int| 0 <= k < pre_em.len() ==> em2[k] == pre_em[k]);
    assert(forall|k: int| 0 <= k < em_i.len() ==> em2[pre_em.len() + k] == em_i[k]);
    assert(forall|j: int| 0 <= j < i ==> books2[j] == pre_books[j]);
    assert(books2[i] == book);
    assert forall|k: int| 0 <= k < pre_em.len() implies !((#[trigger] em2[k])
        matches SinkAction::Emit { entity, .. } && entity == id_i) by {
        if pre_em[k] is Emit {
            let e0 = emit_entity(pre_em[k]);
            assert(pre_em[k] matches SinkAction::Emit { entity, .. } && exists|j: int|
                0 <= j < i && (#[trigger] s[j]).id == entity);
            let j = choose|j: int| 0 <= j < i && (#[trigger] s[j]).id == e0;
            assert(s[j].id != s[i].id);
        }
    }
    assert forall|k: int| 0 <= k < em_i.len() implies ((#[trigger] em_i[k])
        matches SinkAction::Emit { entity, .. } ==> entity == id_i) by {}
    lemma_sent_restrict(em2, em_i, pre_em.len() as int, id_i);
    assert forall|j: int| 0 <= j < i + 1 implies entity_outcome_book_ok(
        #[trigger] books2[j],
        em2,
        s,
        j,
        a,
        b0,
    ) by {
        if j < i {
            assert(s[j].id != id_i);
            assert forall|k: int| pre_em.len() <= k < em2.len() implies !((#[trigger] em2[k])
                matches SinkAction::Emit { entity, .. } && entity == s[j].id) by {
                assert(em2[k] == em_i[k - pre_em.len()]);
            }
            lemma_sent_restrict(em2, pre_em, 0, s[j].id);
            assert(entity_outcome_book_ok(pre_books[j], pre_em, s, j, a, b0));
        }
    }
    assert forall|j: int, ci: int|
        0 <= j < i + 1 && 0 <= ci < s[j]@.components.len() && is_selected(
            eff_hashes(b0, s[j].id, path_spec(s, s[j].id)),
            #[trigger] s[j]@.components[ci],
            a,
        ) && resolve_logger(s[j]@.components[ci].kind, ov, df) == Option::Some(
            LoggerRef::Fallback,
        ) implies fallback_emitted(em2, s[j].id, s[j]@.components[ci].kind) by {
        if j < i {
            assert(s[j].id != id_i);
            assert forall|k: int| pre_em.len() <= k < em2.len() implies !((#[trigger] em2[k])
                matches SinkAction::Emit { entity, .. } && entity == s[j].id) by {
                assert(em2[k] == em_i[k - pre_em.len()]);
            }
            lemma_sent_restrict(em2, pre_em, 0, s[j].id);
            assert(fallback_emitted(pre_em, s[j].id, s[j]@.components[ci].kind));
        } else {
            let kind = s[i]@.components[ci].kind;
            let k = choose|k: int|
                #![trigger em_i[k]]
                0 <= k < em_i.len() && (em_i[k] matches SinkAction::Emit { batches, .. } && exists|
                    j2: int,
                |
                    0 <= j2 < batches@.len() && (#[trigger] batches@[j2]).kind@ == kind
                        && batches@[j2].descriptor@ == sanitize_chars(kind));
            assert(fallback_emitted(em_i, id_i, kind));
            assert(fallback_emitted(em2, id_i, kind));
        }
    }
    assert forall|k: int| 0 <= k < em2.len() implies emit_action_ok(
        #[trigger] em2[k],
        s,
        a,
        ov,
        df,
        b0,
    ) by {
        if k >= pre_em.len() {
            assert(em2[k] == em_i[k - pre_em.len()]);
        }
    }
    assert forall|k: int| 0 <= k < em2.len() implies ((#[trigger] em2[k])
        matches SinkAction::Emit { entity, .. } && exists|j: int|
        0 <= j < i + 1 && (#[trigger] s[j]).id == entity) by {
        if k >= pre_em.len() {
            assert(em2[k] == em_i[k - pre_em.len()]);
            assert(s[i].id == id_i);
        }
    }
    assert forall|k1: int, k2: int, kind: Seq<char>|
        #![trigger emit_has_kind(em2[k1], kind), emit_has_kind(em2[k2], kind)]
        (0 <= k1 < em2.len() && 0 <= k2 < em2.len() && k1 != k2 && (em2[k1]
            matches SinkAction::Emit { entity: e1, .. } && (em2[k2] matches SinkAction::Emit {
            entity: e2,
            ..
        } && e1 == e2))) implies !(emit_has_kind(em2[k1], kind) && emit_has_kind(em2[k2], kind)) by {
        if k1 < pre_em.len() && k2 < pre_em.len() {
            assert(em2[k1] == pre_em[k1] && em2[k2] == pre_em[k2]);
        } else if k1 >= pre_em.len() && k2 >= pre_em.len() {
            assert(em2[k1] == em_i[k1 - pre_em.len()]);
            assert(em2[k2] == em_i[k2 - pre_em.len()]);
        } else {
            let kn = if k1 < pre_em.len() {
                k2
            } else {
                k1
            };
            assert(em2[kn] == em_i[kn - pre_em.len()]);
        }
    }
}

/// One collected targeted retraction of an entity's outcome, resolved to
/// the dropped descriptor it points at.
#[verifier::rlimit(100)]
proof fn lemma_outcome_flat_at(
    s: Seq<EntitySnapshot>,
    b0: Map<u64, BookMeta>,
    i: int,
    fl_i: Seq<SinkAction>,
    book: EntityBook,
    reparent: Option<SinkAction>,
    kk: int,
)
    requires
        0 <= i < s.len(),
        entity_outcome_retracts_ok(book, fl_i, reparent, s, i, b0),
        0 <= kk < fl_i.len(),
    ensures
        fl_i[kk] matches SinkAction::Retract { recursive: false, .. },
        exists|d: Seq<char>|
            #![trigger eff_emitted(b0, s[i].id, path_spec(s, s[i].id)).contains_key(d)]
            eff_emitted(b0, s[i].id, path_spec(s, s[i].id)).contains_key(d) && !(
            book.emitted@.contains_key(d) && book.emitted@[d] == eff_emitted(
                b0,
                s[i].id,
                path_spec(s, s[i].id),
            )[d]) && flat_retract_at(
                fl_i[kk],
                eff_emitted(b0, s[i].id, path_spec(s, s[i].id))[d].path,
            ),
{
    reveal(entity_outcome_retracts_ok);
    let ee = eff_emitted(b0, s[i].id, path_spec(s, s[i].id));
    assert(fl_i[kk] matches SinkAction::Retract { path, recursive } && !recursive && exists|
        d: Seq<char>,
    |
        ee.contains_key(d) && ee[d].path == path@ && !(book.emitted@.contains_key(d)
            && book.emitted@[d] == ee[d]));
    let d = choose|d: Seq<char>|
        ee.contains_key(d) && ee[d].path == retract_path(fl_i[kk]) && !(book.emitted@.contains_key(
            d,
        ) && book.emitted@[d] == ee[d]);
    assert(flat_retract_at(fl_i[kk], ee[d].path));
}

/// The outcome's targeted retraction for one dropped descriptor.
#[verifier::rlimit(100)]
proof fn lemma_outcome_flat_complete(
    s: Seq<EntitySnapshot>,
    b0: Map<u64, BookMeta>,
    i: int,
    fl_i: Seq<SinkAction>,
    book: EntityBook,
    reparent: Option<SinkAction>,
    d: Seq<char>,
)
    requires
        0 <= i < s.len(),
        entity_outcome_retracts_ok(book, fl_i, reparent, s, i, b0),
        eff_emitted(b0, s[i].id, path_spec(s, s[i].id)).contains_key(d),
        !(book.emitted@.contains_key(d) && book.emitted@[d] == eff_emitted(
            b0,
            s[i].id,
            path_spec(s, s[i].id),
        )[d]),
    ensures
        exists|k: int|
            #![trigger fl_i[k]]
            0 <= k < fl_i.len() && flat_retract_at(
                fl_i[k],
                eff_emitted(b0, s[i].id, path_spec(s, s[i].id))[d].path,
            ),
{
    reveal(entity_outcome_retracts_ok);
    let ee = eff_emitted(b0, s[i].id, path_spec(s, s[i].id));
    let k = choose|k: int|
        #![trigger fl_i[k]]
        0 <= k < fl_i.len() && (fl_i[k] matches SinkAction::Retract { path, recursive }
            && !recursive && path@ == ee[d].path);
    assert(flat_retract_at(fl_i[k], ee[d].path));
}

/// The soundness half: every collected targeted retraction still points
/// at dropped state of a processed entity.
#[verifier::rlimit(100)]
proof fn lemma_append_flats_sound(
    s: Seq<EntitySnapshot>,
    a: AssetChanges,
    b0: Map<u64, BookMeta>,
    i: int,
    pre_fl: Seq<SinkAction>,
    fl_i: Seq<SinkAction>,
    pre_books: Seq<EntityBook>,
    book: EntityBook,
    em_i: Seq<SinkAction>,
    reparent: Option<SinkAction>,
)
    requires
        0 <= i < s.len(),
        pre_books.len() == i,
        tick_fl_inv(s, b0, i, pre_books, pre_fl),
        entity_outcome_retracts_ok(book, fl_i, reparent, s, i, b0),
    ensures
        forall|k: int|
            0 <= k < (pre_fl + fl_i).len() ==> ((#[trigger] (pre_fl + fl_i)[k])
                matches SinkAction::Retract { recursive: false, .. } && exists|j: int, d: Seq<char>|
                #![trigger books_entry_dropped(pre_books.push(book), s, j, b0, d)]
                0 <= j < i + 1 && books_entry_dropped(pre_books.push(book), s, j, b0, d)
                    && flat_retract_at(
                    (pre_fl + fl_i)[k],
                    eff_emitted(b0, s[j].id, path_spec(s, s[j].id))[d].path,
                )),
{
    reveal(tick_fl_inv);
    let id_i = s[i].id;
    let fl2 = pre_fl + fl_i;
    let books2 = pre_books.push(book);
    assert(forall|k: int| 0 <= k < pre_fl.len() ==> fl2[k] == pre_fl[k]);
    assert(forall|k: int| 0 <= k < fl_i.len() ==> fl2[pre_fl.len() + k] == fl_i[k]);
    assert(forall|j: int| 0 <= j < i ==> books2[j] == pre_books[j]);
    assert(books2[i] == book);
    assert forall|k: int| 0 <= k < fl2.len() implies ((#[trigger] fl2[k])
        matches SinkAction::Retract { recursive: false, .. } && exists|j: int, d: Seq<char>|
        #![trigger books_entry_dropped(books2, s, j, b0, d)]
        0 <= j < i + 1 && books_entry_dropped(books2, s, j, b0, d) && flat_retract_at(
            fl2[k],
            eff_emitted(b0, s[j].id, path_spec(s, s[j].id))[d].path,
        )) by {
        if k < pre_fl.len() {
            assert(fl2[k] == pre_fl[k]);
            let (j, d) = choose|j: int, d: Seq<char>|
                #![trigger books_entry_dropped(pre_books, s, j, b0, d)]
                0 <= j < i && books_entry_dropped(pre_books, s, j, b0, d) && flat_retract_at(
                    pre_fl[k],
                    eff_emitted(b0, s[j].id, path_spec(s, s[j].id))[d].path,
                );
            assert(books2[j] == pre_books[j]);
            assert(books_entry_dropped(books2, s, j, b0, d));
        } else {
            let kk = k - pre_fl.len();
            assert(fl2[k] == fl_i[kk]);
            lemma_outcome_flat_at(s, b0, i, fl_i, book, reparent, kk);
            let d = choose|d: Seq<char>|
                #![trigger eff_emitted(b0, s[i].id, path_spec(s, s[i].id)).contains_key(d)]
                eff_emitted(b0, s[i].id, path_spec(s, s[i].id)).contains_key(d) && !(
                book.emitted@.contains_key(d) && book.emitted@[d] == eff_emitted(
                    b0,
                    s[i].id,
                    path_spec(s, s[i].id),
                )[d]) && flat_retract_at(
                    fl_i[kk],
                    eff_emitted(b0, s[i].id, path_spec(s, s[i].id))[d].path,
                );
            assert(books_entry_dropped(books2, s, i, b0, d));
            assert(flat_retract_at(fl2[k], eff_emitted(b0, id_i, path_spec(s, id_i))[d].path));
        }
    }
}

/// The completeness half: every dropped entry of the processed entities
/// still has a collected targeted retraction at its recorded path.
#[verifier::rlimit(100)]
proof fn lemma_append_flats_complete(
    s: Seq<EntitySnapshot>,
    a: AssetChanges,
    b0: Map<u64, BookMeta>,
    i: int,
    pre_fl: Seq<SinkAction>,
    fl_i: Seq<SinkAction>,
    pre_books: Seq<EntityBook>,
    book: EntityBook,
    em_i: Seq<SinkAction>,
    reparent: Option<SinkAction>,
)
    requires
        0 <= i < s.len(),
        pre_books.len() == i,
        tick_fl_inv(s, b0, i, pre_books, pre_fl),
        entity_outcome_retracts_ok(book, fl_i, reparent, s, i, b0),
    ensures
        forall|j: int, d: Seq<char>|
            0 <= j < i + 1 && #[trigger] books_entry_dropped(pre_books.push(book), s, j, b0, d)
                ==> exists|k: int|
                #![trigger (pre_fl + fl_i)[k]]
                0 <= k < (pre_fl + fl_i).len() && flat_retract_at(
                    (pre_fl + fl_i)[k],
                    eff_emitted(b0, s[j].id, path_spec(s, s[j].id))[d].path,
                ),
{
    reveal(tick_fl_inv);
    let id_i = s[i].id;
    let fl2 = pre_fl + fl_i;
    let books2 = pre_books.push(book);
    assert(forall|k: int| 0 <= k < pre_fl.len() ==> fl2[k] == pre_fl[k]);
    assert(forall|k: int| 0 <= k < fl_i.len() ==> fl2[pre_fl.len() + k] == fl_i[k]);
    assert(forall|j: int| 0 <= j < i ==> books2[j] == pre_books[j]);
    assert(books2[i] == book);
    assert forall|j: int, d: Seq<char>|
        0 <= j < i + 1 && #[trigger] books_entry_dropped(books2, s, j, b0, d) implies exists|
        k: int,
    |
        #![trigger fl2[k]]
        0 <= k < fl2.len() && flat_retract_at(
            fl2[k],
            eff_emitted(b0, s[j].id, path_spec(s, s[j].id))[d].path,
        ) by {
        if j < i {
            assert(books2[j] == pre_books[j]);
            assert(books_entry_dropped(pre_books, s, j, b0, d));
            let k = choose|k: int|
                #![trigger pre_fl[k]]
                0 <= k < pre_fl.len() && flat_retract_at(
                    pre_fl[k],
                    eff_emitted(b0, s[j].id, path_spec(s, s[j].id))[d].path,
                );
            assert(fl2[k] == pre_fl[k]);
        } else {
            let ee = eff_emitted(b0, id_i, path_spec(s, id_i));
            assert(ee.contains_key(d) && !(book.emitted@.contains_key(d) && book.emitted@[d]
                == ee[d]));
            lemma_outcome_flat_complete(s, b0, i, fl_i, book, reparent, d);
            let k = choose|k: int|
                #![trigger fl_i[k]]
                0 <= k < fl_i.len() && flat_retract_at(fl_i[k], ee[d].path);
            assert(fl2[pre_fl.len() + k] == fl_i[k]);
            assert(flat_retract_at(fl2[pre_fl.len() + k], ee[d].path));
        }
    }
}

/// Appending one entity's targeted retractions keeps the aggregate
/// retraction facts.
proof fn lemma_tick_append_flats(
    s: Seq<EntitySnapshot>,
    a: AssetChanges,
    b0: Map<u64, BookMeta>,
    i: int,
    pre_fl: Seq<SinkAction>,
    fl_i: Seq<SinkAction>,
    pre_books: Seq<EntityBook>,
    book: EntityBook,
    em_i: Seq<SinkAction>,
    reparent: Option<SinkAction>,
)
    requires
        0 <= i < s.len(),
        pre_books.len() == i,
        tick_fl_inv(s, b0, i, pre_books, pre_fl),
        entity_outcome_book_ok(book, em_i, s, i, a, b0),
        entity_outcome_retracts_ok(book, fl_i, reparent, s, i, b0),
    ensures
        tick_fl_inv(s, b0, i + 1, pre_books.push(book), pre_fl + fl_i),
{
    lemma_append_flats_sound(s, a, b0, i, pre_fl, fl_i, pre_books, book, em_i, reparent);
    lemma_append_flats_complete(s, a, b0, i, pre_fl, fl_i, pre_books, book, em_i, reparent);
    reveal(tick_fl_inv);
}

/// The ordering and emission obligations of the assembled action list.
#[verifier::rlimit(100)]
proof fn lemma_tick_actions_emits(
    s: Seq<EntitySnapshot>,
    a: AssetChanges,
    ov: Option<Map<Seq<char>, Option<u64>>>,
    df: Map<Seq<char>, Option<u64>>,
    b0: Map<u64, BookMeta>,
    books: Seq<EntityBook>,
    em: Seq<SinkAction>,
    fl: Seq<SinkAction>,
    rp: Seq<SinkAction>,
    dp: Seq<SinkAction>,
    t: u64,
    acts: Seq<SinkAction>,
)
    requires
        unique_ids(s),
        acts == seq![SinkAction::AdvanceTime { time_ns: t }] + em + fl + rp + dp,
        tick_em_inv(s, a, ov, df, b0, s.len() as int, books, em),
        forall|k: int|
            0 <= k < fl.len() ==> (#[trigger] fl[k]) matches SinkAction::Retract {
                recursive: false,
                ..
            },
        forall|k: int|
            0 <= k < rp.len() ==> (#[trigger] rp[k]) matches SinkAction::Retract {
                recursive: true,
                ..
            },
        forall|k: int|
            0 <= k < dp.len() ==> (#[trigger] dp[k]) matches SinkAction::Retract {
                recursive: true,
                ..
            },
    ensures
        acts.len() >= 1,
        acts[0] matches SinkAction::AdvanceTime { time_ns } && time_ns == t,
        forall|k: int| 1 <= k < acts.len() ==> !((#[trigger] acts[k]) is AdvanceTime),
        forall|k1: int, k2: int|
            0 <= k1 < k2 < acts.len() && (#[trigger] acts[k1]) is Retract ==> !((
            #[trigger] acts[k2]) is Emit),
        forall|k: int| 0 <= k < acts.len() ==> emit_action_ok(#[trigger] acts[k], s, a, ov, df, b0),
        emits_once_per_kind(acts),
        forall|i2: int, ci: int|
            0 <= i2 < s.len() && 0 <= ci < s[i2]@.components.len() && is_selected(
                eff_hashes(b0, s[i2].id, path_spec(s, s[i2].id)),
                #[trigger] s[i2]@.components[ci],
                a,
            ) && resolve_logger(s[i2]@.components[ci].kind, ov, df) == Option::Some(
                LoggerRef::Fallback,
            ) ==> fallback_emitted(acts, s[i2].id, s[i2]@.components[ci].kind),
        forall|id: u64| #[trigger] books_map(books).contains_key(id) <==> has_entity(s, id),
        forall|i2: int|
            0 <= i2 < s.len() ==> tick_book_entry_ok(
                books_map(books)[(#[trigger] s[i2]).id],
                acts,
                s,
                i2,
                a,
                b0,
            ),
{
    reveal(tick_em_inv);
    reveal(entity_outcome_book_ok);
    let ne = em.len() as int;
    let nf = fl.len() as int;
    let nr = rp.len() as int;
    let nd = dp.len() as int;
    assert(acts.len() == 1 + ne + nf + nr + nd);
    assert(forall|k: int| 0 <= k < ne ==> acts[1 + k] == em[k]);
    assert(forall|k: int| 0 <= k < nf ==> acts[1 + ne + k] == fl[k]);
    assert(forall|k: int| 0 <= k < nr ==> acts[1 + ne + nf + k] == rp[k]);
    assert(forall|k: int| 0 <= k < nd ==> acts[1 + ne + nf + nr + k] == dp[k]);
    assert(acts[0] matches SinkAction::AdvanceTime { time_ns } && time_ns == t);
    assert forall|k: int| 1 <= k < acts.len() implies !((#[trigger] acts[k]) is AdvanceTime) by {
        if k < 1 + ne {
            assert(acts[k] == em[k - 1]);
        } else if k < 1 + ne + nf {
            assert(acts[k] == fl[k - 1 - ne]);
        } else if k < 1 + ne + nf + nr {
            assert(acts[k] == rp[k - 1 - ne - nf]);
        } else {
            assert(acts[k] == dp[k - 1 - ne - nf - nr]);
        }
    }
    assert forall|k: int| 0 <= k < acts.len() && (#[trigger] acts[k]) is Emit implies 1 <= k < 1
        + ne by {
        if k == 0 {
        } else if k >= 1 + ne + nf + nr {
            assert(acts[k] == dp[k - 1 - ne - nf - nr]);
        } else if k >= 1 + ne + nf {
            assert(acts[k] == rp[k - 1 - ne - nf]);
        } else if k >= 1 + ne {
            assert(acts[k] == fl[k - 1 - ne]);
        }
    }
    assert forall|k: int| 0 <= k < acts.len() && (#[trigger] acts[k]) is Retract implies k >= 1
        + ne by {
        if k >= 1 && k < 1 + ne {
            assert(acts[k] == em[k - 1]);
        }
    }
    assert forall|k1: int, k2: int|
        0 <= k1 < k2 < acts.len() && (#[trigger] acts[k1]) is Retract implies !((
    #[trigger] acts[k2]) is Emit) by {}
    assert forall|k: int| 0 <= k < acts.len() implies emit_action_ok(
        #[trigger] acts[k],
        s,
        a,
        ov,
        df,
        b0,
    ) by {
        if acts[k] is Emit {
            assert(acts[k] == em[k - 1]);
        }
    }
    assert forall|k1: int, k2: int, kind: Seq<char>|
        #![trigger emit_has_kind(acts[k1], kind), emit_has_kind(acts[k2], kind)]
        (0 <= k1 < acts.len() && 0 <= k2 < acts.len() && k1 != k2 && (acts[k1]
            matches SinkAction::Emit { entity: e1, .. } && (acts[k2] matches SinkAction::Emit {
            entity: e2,
            ..
        } && e1 == e2))) implies !(emit_has_kind(acts[k1], kind) && emit_has_kind(
        acts[k2],
        kind,
    )) by {
        assert(acts[k1] == em[k1 - 1]);
        assert(acts[k2] == em[k2 - 1]);
    }
    assert forall|k: int| (0 == k || 1 + ne <= k < acts.len()) && 0 <= k < acts.len() implies !((
    #[trigger] acts[k]) matches SinkAction::Emit { entity, .. }) by {}
    assert forall|i2: int, ci: int|
        0 <= i2 < s.len() && 0 <= ci < s[i2]@.components.len() && is_selected(
            eff_hashes(b0, s[i2].id, path_spec(s, s[i2].id)),
            #[trigger] s[i2]@.components[ci],
            a,
        ) && resolve_logger(s[i2]@.components[ci].kind, ov, df) == Option::Some(
            LoggerRef::Fallback,
        ) implies fallback_emitted(acts, s[i2].id, s[i2]@.components[ci].kind) by {
        lemma_sent_restrict(acts, em, 1, s[i2].id);
        assert(fallback_emitted(em, s[i2].id, s[i2]@.components[ci].kind));
    }
    assert(unique_book_ids(books));
    assert forall|id: u64| #[trigger] books_map(books).contains_key(id) implies has_entity(
        s,
        id,
    ) by {
        lemma_books_map_dom(books, id);
        let j = choose|j: int| 0 <= j < books.len() && books[j].id == id;
        assert(s[j].id == id);
    }
    assert forall|id: u64| has_entity(s, id) implies books_map(books).contains_key(id) by {
        let j = choose|j: int| 0 <= j < s.len() && s[j].id == id;
        assert(books[j].id == id);
        lemma_books_map_dom(books, id);
    }
    assert forall|i2: int| 0 <= i2 < s.len() implies tick_book_entry_ok(
        books_map(books)[(#[trigger] s[i2]).id],
        acts,
        s,
        i2,
        a,
        b0,
    ) by {
        lemma_books_map_get(books, i2);
        assert(books_map(books)[s[i2].id] == books[i2]@);
        assert(entity_outcome_book_ok(books[i2], em, s, i2, a, b0));
        lemma_sent_restrict(acts, em, 1, s[i2].id);
    }
}

/// The targeted-retraction obligations of the assembled action list.
#[verifier::rlimit(100)]
proof fn lemma_tick_actions_flats(
    s: Seq<EntitySnapshot>,
    b0: Map<u64, BookMeta>,
    books: Seq<EntityBook>,
    em: Seq<SinkAction>,
    fl: Seq<SinkAction>,
    rp: Seq<SinkAction>,
    dp: Seq<SinkAction>,
    t: u64,
    acts: Seq<SinkAction>,
)
    requires
        unique_ids(s),
        acts == seq![SinkAction::AdvanceTime { time_ns: t }] + em + fl + rp + dp,
        books.len() == s.len(),
        forall|j: int| 0 <= j < s.len() ==> (#[trigger] books[j]).id == s[j].id,
        tick_fl_inv(s, b0, s.len() as int, books, fl),
        forall|k: int|
            0 <= k < em.len() ==> (#[trigger] em[k]) matches SinkAction::Emit { .. },
        forall|k: int|
            0 <= k < rp.len() ==> (#[trigger] rp[k]) matches SinkAction::Retract {
                recursive: true,
                ..
            },
        forall|k: int|
            0 <= k < dp.len() ==> (#[trigger] dp[k]) matches SinkAction::Retract {
                recursive: true,
                ..
            },
    ensures
        forall|k: int|
            0 <= k < acts.len() && ((#[trigger] acts[k]) matches SinkAction::Retract {
                recursive: false,
                ..
            }) ==> exists|i2: int, d: Seq<char>|
                #![trigger entry_dropped(books_map(books), s, i2, b0, d)]
                0 <= i2 < s.len() && entry_dropped(books_map(books), s, i2, b0, d)
                    && flat_retract_at(
                    acts[k],
                    eff_emitted(b0, s[i2].id, path_spec(s, s[i2].id))[d].path,
                ),
        forall|i2: int, d: Seq<char>|
            0 <= i2 < s.len() && #[trigger] entry_dropped(books_map(books), s, i2, b0, d)
                ==> exists|k: int|
                #![trigger acts[k]]
                0 <= k < acts.len() && flat_retract_at(
                    acts[k],
                    eff_emitted(b0, s[i2].id, path_spec(s, s[i2].id))[d].path,
                ),
{
    reveal(tick_fl_inv);
    let b1 = books_map(books);
    let ne = em.len() as int;
    let nf = fl.len() as int;
    let nr = rp.len() as int;
    let nd = dp.len() as int;
    assert(acts.len() == 1 + ne + nf + nr + nd);
    assert(forall|k: int| 0 <= k < ne ==> acts[1 + k] == em[k]);
    assert(forall|k: int| 0 <= k < nf ==> acts[1 + ne + k] == fl[k]);
    assert(forall|k: int| 0 <= k < nr ==> acts[1 + ne + nf + k] == rp[k]);
    assert(forall|k: int| 0 <= k < nd ==> acts[1 + ne + nf + nr + k] == dp[k]);
    assert(unique_book_ids(books));
    assert forall|k: int|
        0 <= k < acts.len() && ((#[trigger] acts[k]) matches SinkAction::Retract {
            recursive: false,
            ..
        }) implies exists|i2: int, d: Seq<char>|
        #![trigger entry_dropped(b1, s, i2, b0, d)]
        0 <= i2 < s.len() && entry_dropped(b1, s, i2, b0, d) && flat_retract_at(
            acts[k],
            eff_emitted(b0, s[i2].id, path_spec(s, s[i2].id))[d].path,
        ) by {
        if k == 0 {
        } else if k < 1 + ne {
            assert(acts[k] == em[k - 1]);
        } else if k < 1 + ne + nf {
            assert(acts[k] == fl[k - 1 - ne]);
            let (j, d) = choose|j: int, d: Seq<char>|
                #![trigger books_entry_dropped(books, s, j, b0, d)]
                0 <= j < s.len() && books_entry_dropped(books, s, j, b0, d) && flat_retract_at(
                    fl[k - 1 - ne],
                    eff_emitted(b0, s[j].id, path_spec(s, s[j].id))[d].path,
                );
            lemma_books_map_get(books, j);
            assert(entry_dropped(b1, s, j, b0, d));
        } else if k < 1 + ne + nf + nr {
            assert(acts[k] == rp[k - 1 - ne - nf]);
        } else {
            assert(acts[k] == dp[k - 1 - ne - nf - nr]);
        }
    }
    assert forall|i2: int, d: Seq<char>|
        0 <= i2 < s.len() && #[trigger] entry_dropped(b1, s, i2, b0, d) implies exists|k: int|
        #![trigger acts[k]]
        0 <= k < acts.len() && flat_retract_at(
            acts[k],
            eff_emitted(b0, s[i2].id, path_spec(s, s[i2].id))[d].path,
        ) by {
        lemma_books_map_get(books, i2);
        assert(books_entry_dropped(books, s, i2, b0, d));
        let k = choose|k: int|
            #![trigger fl[k]]
            0 <= k < fl.len() && flat_retract_at(
                fl[k],
                eff_emitted(b0, s[i2].id, path_spec(s, s[i2].id))[d].path,
            );
        assert(acts[1 + ne + k] == fl[k]);
    }
}

/// The recursive-retraction obligations of the assembled action list.
#[verifier::rlimit(100)]
proof fn lemma_tick_actions_recs(
    s: Seq<EntitySnapshot>,
    old_books: Seq<EntityBook>,
    em: Seq<SinkAction>,
    fl: Seq<SinkAction>,
    rp: Seq<SinkAction>,
    dp: Seq<SinkAction>,
    rp_ids: Seq<u64>,
    dp_ids: Seq<u64>,
    t: u64,
    acts: Seq<SinkAction>,
)
    requires
        unique_ids(s),
        acts == seq![SinkAction::AdvanceTime { time_ns: t }] + em + fl + rp + dp,
        unique_book_ids(old_books),
        forall|j: int| 0 <= j < old_books.len() ==> book_wf(#[trigger] old_books[j]),
        forall|k: int|
            0 <= k < em.len() ==> (#[trigger] em[k]) matches SinkAction::Emit { .. },
        forall|k: int|
            0 <= k < fl.len() ==> (#[trigger] fl[k]) matches SinkAction::Retract {
                recursive: false,
                ..
            },
        rp_ids.len() == rp.len(),
        forall|k: int|
            0 <= k < rp.len() ==> is_reparented(
                books_map(old_books),
                #[trigger] rp_ids[k],
                path_spec(s, rp_ids[k]),
            ) && rec_retract_at(rp[k], books_map(old_books)[rp_ids[k]].path) && has_entity(
                s,
                rp_ids[k],
            ),
        forall|k1: int, k2: int| 0 <= k1 < k2 < rp_ids.len() ==> rp_ids[k1] != rp_ids[k2],
        forall|j: int|
            0 <= j < s.len() && is_reparented(
                books_map(old_books),
                (#[trigger] s[j]).id,
                path_spec(s, s[j].id),
            ) ==> exists|k: int| 0 <= k < rp_ids.len() && rp_ids[k] == s[j].id,
        dp_ids.len() == dp.len(),
        forall|k: int|
            0 <= k < dp.len() ==> despawned(books_map(old_books), s, #[trigger] dp_ids[k])
                && rec_retract_at(dp[k], books_map(old_books)[dp_ids[k]].path),
        forall|k1: int, k2: int| 0 <= k1 < k2 < dp_ids.len() ==> dp_ids[k1] != dp_ids[k2],
        forall|id: u64|
            #[trigger] despawned(books_map(old_books), s, id) ==> exists|k: int|
                0 <= k < dp_ids.len() && dp_ids[k] == id,
    ensures
        forall|k: int|
            0 <= k < acts.len() && ((#[trigger] acts[k]) matches SinkAction::Retract {
                recursive: true,
                ..
            }) ==> ((exists|id: u64|
                #[trigger] despawned(books_map(old_books), s, id) && rec_retract_at(
                    acts[k],
                    books_map(old_books)[id].path,
                )) || (exists|i2: int|
                #![trigger s[i2]]
                0 <= i2 < s.len() && is_reparented(
                    books_map(old_books),
                    s[i2].id,
                    path_spec(s, s[i2].id),
                ) && rec_retract_at(acts[k], books_map(old_books)[s[i2].id].path))),
        forall|id: u64|
            #[trigger] despawned(books_map(old_books), s, id) ==> exists|k: int|
                #![trigger acts[k]]
                0 <= k < acts.len() && rec_retract_at(acts[k], books_map(old_books)[id].path),
        forall|i2: int|
            0 <= i2 < s.len() && is_reparented(
                books_map(old_books),
                (#[trigger] s[i2]).id,
                path_spec(s, s[i2].id),
            ) ==> exists|k: int|
                #![trigger acts[k]]
                0 <= k < acts.len() && rec_retract_at(
                    acts[k],
                    books_map(old_books)[s[i2].id].path,
                ),
        forall|k1: int, k2: int|
            0 <= k1 < k2 < acts.len() && ((#[trigger] acts[k1]) matches SinkAction::Retract {
                recursive: true,
                ..
            }) && ((#[trigger] acts[k2]) matches SinkAction::Retract { recursive: true, .. })
                ==> retract_path(acts[k1]) != retract_path(acts[k2]),
{
    let b0 = books_map(old_books);
    let ne = em.len() as int;
    let nf = fl.len() as int;
    let nr = rp.len() as int;
    let nd = dp.len() as int;
    assert(acts.len() == 1 + ne + nf + nr + nd);
    assert(forall|k: int| 0 <= k < ne ==> acts[1 + k] == em[k]);
    assert(forall|k: int| 0 <= k < nf ==> acts[1 + ne + k] == fl[k]);
    assert(forall|k: int| 0 <= k < nr ==> acts[1 + ne + nf + k] == rp[k]);
    assert(forall|k: int| 0 <= k < nd ==> acts[1 + ne + nf + nr + k] == dp[k]);
    assert forall|k: int|
        0 <= k < acts.len() && ((#[trigger] acts[k]) matches SinkAction::Retract {
            recursive: true,
            ..
        }) implies ((exists|id: u64|
        #[trigger] despawned(b0, s, id) && rec_retract_at(acts[k], b0[id].path)) || (exists|
        i2: int,
    |
        #![trigger s[i2]]
        0 <= i2 < s.len() && is_reparented(b0, s[i2].id, path_spec(s, s[i2].id)) && rec_retract_at(
            acts[k],
            b0[s[i2].id].path,
        ))) by {
        if k == 0 {
        } else if k < 1 + ne {
            assert(acts[k] == em[k - 1]);
        } else if k < 1 + ne + nf {
            assert(acts[k] == fl[k - 1 - ne]);
        } else if k < 1 + ne + nf + nr {
            let kk = k - 1 - ne - nf;
            assert(acts[k] == rp[kk]);
            let j = choose|j: int| 0 <= j < s.len() && (#[trigger] s[j]).id == rp_ids[kk];
            assert(is_reparented(b0, s[j].id, path_spec(s, s[j].id)));
            assert(rec_retract_at(acts[k], b0[s[j].id].path));
        } else {
            let kk = k - 1 - ne - nf - nr;
            assert(acts[k] == dp[kk]);
            assert(despawned(b0, s, dp_ids[kk]));
            assert(rec_retract_at(acts[k], b0[dp_ids[kk]].path));
        }
    }
    assert forall|id: u64| #[trigger] despawned(b0, s, id) implies exists|k: int|
        #![trigger acts[k]]
        0 <= k < acts.len() && rec_retract_at(acts[k], b0[id].path) by {
        let kk = choose|kk: int| 0 <= kk < dp_ids.len() && dp_ids[kk] == id;
        assert(acts[1 + ne + nf + nr + kk] == dp[kk]);
        assert(rec_retract_at(dp[kk], b0[id].path));
    }
    assert forall|i2: int|
        0 <= i2 < s.len() && is_reparented(
            b0,
            (#[trigger] s[i2]).id,
            path_spec(s, s[i2].id),
        ) implies exists|k: int|
        #![trigger acts[k]]
        0 <= k < acts.len() && rec_retract_at(acts[k], b0[s[i2].id].path) by {
        let kk = choose|kk: int| 0 <= kk < rp_ids.len() && rp_ids[kk] == s[i2].id;
        assert(acts[1 + ne + nf + kk] == rp[kk]);
        assert(rec_retract_at(rp[kk], b0[s[i2].id].path));
    }
    assert forall|k1: int, k2: int|
        0 <= k1 < k2 < acts.len() && ((#[trigger] acts[k1]) matches SinkAction::Retract {
            recursive: true,
            ..
        }) && ((#[trigger] acts[k2]) matches SinkAction::Retract {
            recursive: true,
            ..
        }) implies retract_path(acts[k1]) != retract_path(acts[k2]) by {
        assert(k1 >= 1 + ne + nf) by {
            if 1 <= k1 < 1 + ne {
                assert(acts[k1] == em[k1 - 1]);
                assert(false);
            } else if 1 + ne <= k1 < 1 + ne + nf {
                assert(acts[k1] == fl[k1 - 1 - ne]);
                assert(false);
            }
        }
        assert(k2 >= 1 + ne + nf) by {
            if 1 <= k2 < 1 + ne {
                assert(acts[k2] == em[k2 - 1]);
                assert(false);
            } else if 1 + ne <= k2 < 1 + ne + nf {
                assert(acts[k2] == fl[k2 - 1 - ne]);
                assert(false);
            }
        }
        let id1: u64 = if k1 < 1 + ne + nf + nr {
            rp_ids[k1 - 1 - ne - nf]
        } else {
            dp_ids[k1 - 1 - ne - nf - nr]
        };
        let id2: u64 = if k2 < 1 + ne + nf + nr {
            rp_ids[k2 - 1 - ne - nf]
        } else {
            dp_ids[k2 - 1 - ne - nf - nr]
        };
        if k1 < 1 + ne + nf + nr {
            assert(acts[k1] == rp[k1 - 1 - ne - nf]);
            assert(rec_retract_at(acts[k1], b0[id1].path));
            assert(b0.contains_key(id1));
        } else {
            assert(acts[k1] == dp[k1 - 1 - ne - nf - nr]);
            assert(rec_retract_at(acts[k1], b0[id1].path));
            assert(b0.contains_key(id1));
        }
        if k2 < 1 + ne + nf + nr {
            assert(acts[k2] == rp[k2 - 1 - ne - nf]);
            assert(rec_retract_at(acts[k2], b0[id2].path));
            assert(b0.contains_key(id2));
        } else {
            assert(acts[k2] == dp[k2 - 1 - ne - nf - nr]);
            assert(rec_retract_at(acts[k2], b0[id2].path));
            assert(b0.contains_key(id2));
        }
        assert(id1 != id2) by {
            if k1 < 1 + ne + nf + nr && k2 < 1 + ne + nf + nr {
            } else if k1 >= 1 + ne + nf + nr && k2 >= 1 + ne + nf + nr {
            } else if k1 < 1 + ne + nf + nr {
                assert(has_entity(s, id1));
                assert(!has_entity(s, id2));
            } else {
                assert(!has_entity(s, id1));
                assert(has_entity(s, id2));
            }
        }
        lemma_b0_own_path(old_books, id1);
        lemma_b0_own_path(old_books, id2);
        lemma_own_paths_distinct(b0[id1].path, id1, b0[id2].path, id2);
        assert(retract_path(acts[k1]) == b0[id1].path);
        assert(retract_path(acts[k2]) == b0[id2].path);
    }
}

impl SyncEngine {
    /// Runs one synchronization tick over the given graph snapshot and
    /// returns the sink actions it requires, in order: first the clock
    /// advance, then every emission, then every targeted retraction, then
    /// every recursive retraction, so that all writes of a tick are
    /// issued before any retraction of the same tick.
    #[verifier::rlimit(100)]
    pub fn sync_tick<H: RerunLoggerFn>(&mut self, input: &TickInput, host: &mut H) -> (actions:
        Vec<SinkAction>)
        requires
            old(self).wf(),
            input_wf(*input),
        ensures
            final(self).wf(),
            final(self).loggers == old(self).loggers,
            final(self).default_loggers == old(self).default_loggers,
            actions@.len() >= 1,
            actions@[0] matches SinkAction::AdvanceTime { time_ns } && time_ns == input.time_ns,
            forall|k: int| 1 <= k < actions@.len() ==> !((#[trigger] actions@[k]) is AdvanceTime),
            forall|k1: int, k2: int|
                0 <= k1 < k2 < actions@.len() && (#[trigger] actions@[k1]) is Retract ==> !((
                #[trigger] actions@[k2]) is Emit),
            forall|k: int|
                0 <= k < actions@.len() ==> emit_action_ok(
                    #[trigger] actions@[k],
                    input.entities@,
                    input.assets,
                    opt_loggers_view(old(self).loggers),
                    old(self).default_loggers@,
                    books_map(old(self).books@),
                ),
            emits_once_per_kind(actions@),
            forall|i: int, ci: int|
                0 <= i < input.entities@.len() && 0 <= ci < input.entities@[i]@.components.len()
                    && is_selected(
                    eff_hashes(
                        books_map(old(self).books@),
                        input.entities@[i].id,
                        path_spec(input.entities@, input.entities@[i].id),
                    ),
                    #[trigger] input.entities@[i]@.components[ci],
                    input.assets,
                ) && resolve_logger(
                    input.entities@[i]@.components[ci].kind,
                    opt_loggers_view(old(self).loggers),
                    old(self).default_loggers@,
                ) == Option::Some(LoggerRef::Fallback) ==> fallback_emitted(
                    actions@,
                    input.entities@[i].id,
                    input.entities@[i]@.components[ci].kind,
                ),
            forall|id: u64|
                #[trigger] books_map(final(self).books@).contains_key(id) <==> has_entity(
                    input.entities@,
                    id,
                ),
            forall|i: int|
                0 <= i < input.entities@.len() ==> tick_book_entry_ok(
                    books_map(final(self).books@)[(#[trigger] input.entities@[i]).id],
                    actions@,
                    input.entities@,
                    i,
                    input.assets,
                    books_map(old(self).books@),
                ),
            tick_retracts_ok(
                books_map(final(self).books@),
                actions@,
                input.entities@,
                books_map(old(self).books@),
            ),
    {
        let ghost s = input.entities@;
        let ghost a = input.assets;
        let ghost ov = opt_loggers_view(self.loggers);
        let ghost df = self.default_loggers@;
        let ghost b0 = books_map(self.books@);
        let n = input.entities.len();
        // Retract everything of entities that despawned since last tick.
        let mut dp_recs: Vec<SinkAction> = Vec::new();
        let ghost mut dp_ids: Seq<u64> = Seq::empty();
        let nb = self.books.len();
        let mut bi: usize = 0;
        while bi < nb
            invariant
                *self == *old(self),
                old(self).wf(),
                input_wf(*input),
                s == input.entities@,
                b0 == books_map(old(self).books@),
                bi <= nb,
                nb == self.books@.len(),
                dp_ids.len() == dp_recs@.len(),
                forall|k: int|
                    0 <= k < dp_recs@.len() ==> despawned(b0, s, #[trigger] dp_ids[k])
                        && rec_retract_at(dp_recs@[k], b0[dp_ids[k]].path) && (exists|j: int|
                        0 <= j < bi && (#[trigger] self.books@[j]).id == dp_ids[k]),
                forall|k1: int, k2: int| 0 <= k1 < k2 < dp_ids.len() ==> dp_ids[k1] != dp_ids[k2],
                forall|j: int|
                    0 <= j < bi && despawned(b0, s, (#[trigger] self.books@[j]).id) ==> exists|
                        k: int,
                    | 0 <= k < dp_ids.len() && dp_ids[k] == self.books@[j].id,
            decreases nb - bi,
        {
            let book_id = self.books[bi].id;
            proof {
                lemma_books_map_get(self.books@, bi as int);
            }
            match find_entity(&input.entities, book_id) {
                Option::Some(idx) => {
                    proof {
                        assert(s[idx as int].id == book_id);
                        assert(has_entity(s, book_id));
                        assert(!despawned(b0, s, self.books@[bi as int].id));
                    }
                },
                Option::None => {
                    proof {
                        assert(!has_entity(s, book_id));
                    }
                    dp_recs.push(
                        SinkAction::Retract {
                            path: self.books[bi].path.clone_path(),
                            recursive: true,
                        },
                    );
                    proof {
                        let ghost pre_ids = dp_ids;
                        dp_ids = dp_ids.push(book_id);
                        assert(despawned(b0, s, book_id));
                        assert(b0[book_id].path == self.books@[bi as int].path@);
                        assert(dp_ids[dp_ids.len() - 1] == self.books@[bi as int].id);
                        assert forall|k1: int, k2: int|
                            0 <= k1 < k2 < dp_ids.len() implies dp_ids[k1] != dp_ids[k2] by {
                            if k2 == dp_ids.len() - 1 {
                                let j = choose|j: int|
                                    0 <= j < bi && (#[trigger] self.books@[j]).id == pre_ids[k1];
                                assert(self.books@[j].id != self.books@[bi as int].id);
                            }
                        }
                        assert forall|j: int|
                            0 <= j < bi + 1 && despawned(
                                b0,
                                s,
                                (#[trigger] self.books@[j]).id,
                            ) implies exists|k: int|
                            0 <= k < dp_ids.len() && dp_ids[k] == self.books@[j].id by {
                            if j < bi {
                                let k0 = choose|k0: int|
                                    0 <= k0 < pre_ids.len() && pre_ids[k0] == self.books@[j].id;
                                assert(dp_ids[k0] == self.books@[j].id);
                            } else {
                                assert(dp_ids[dp_ids.len() - 1] == self.books@[j].id);
                            }
                        }
                    }
                },
            }
            bi = bi + 1;
        }
        proof {
            assert forall|id: u64| #[trigger] despawned(b0, s, id) implies exists|k: int|
                0 <= k < dp_ids.len() && dp_ids[k] == id by {
                lemma_books_map_dom(self.books@, id);
            }
        }
        // Resolve, detect, dispatch and rebuild bookkeeping per entity.
        let mut new_books: Vec<EntityBook> = Vec::new();
        let mut emits_all: Vec<SinkAction> = Vec::new();
        let mut flats_all: Vec<SinkAction> = Vec::new();
        let mut rp_recs: Vec<SinkAction> = Vec::new();
        let ghost mut rp_ids: Seq<u64> = Seq::empty();
        let mut i: usize = 0;
        proof {
            lemma_tick_inv_init(s, a, ov, df, b0);
            assert(new_books@ =~= Seq::<EntityBook>::empty());
            assert(emits_all@ =~= Seq::<SinkAction>::empty());
            assert(flats_all@ =~= Seq::<SinkAction>::empty());
        }
        while i < n
            invariant
                *self == *old(self),
                old(self).wf(),
                input_wf(*input),
                s == input.entities@,
                a == input.assets,
                ov == opt_loggers_view(old(self).loggers),
                df == old(self).default_loggers@,
                b0 == books_map(old(self).books@),
                i <= n,
                n == s.len(),
                dp_ids.len() == dp_recs@.len(),
                forall|k: int|
                    0 <= k < dp_recs@.len() ==> despawned(b0, s, #[trigger] dp_ids[k])
                        && rec_retract_at(dp_recs@[k], b0[dp_ids[k]].path),
                forall|k1: int, k2: int| 0 <= k1 < k2 < dp_ids.len() ==> dp_ids[k1] != dp_ids[k2],
                forall|id: u64|
                    #[trigger] despawned(b0, s, id) ==> exists|k: int|
                        0 <= k < dp_ids.len() && dp_ids[k] == id,
                tick_em_inv(s, a, ov, df, b0, i as int, new_books@, emits_all@),
                tick_fl_inv(s, b0, i as int, new_books@, flats_all@),
                new_books@.len() == i,
                forall|j: int| 0 <= j < i ==> (#[trigger] new_books@[j]).id == s[j].id,
                forall|j: int| 0 <= j < i ==> book_wf(#[trigger] new_books@[j]),
                rp_ids.len() == rp_recs@.len(),
                forall|k: int|
                    0 <= k < rp_recs@.len() ==> is_reparented(
                        b0,
                        #[trigger] rp_ids[k],
                        path_spec(s, rp_ids[k]),
                    ) && rec_retract_at(rp_recs@[k], b0[rp_ids[k]].path) && (exists|j: int|
                        0 <= j < i && (#[trigger] s[j]).id == rp_ids[k]),
                forall|k1: int, k2: int| 0 <= k1 < k2 < rp_ids.len() ==> rp_ids[k1] != rp_ids[k2],
                forall|j: int|
                    0 <= j < i && is_reparented(b0, (#[trigger] s[j]).id, path_spec(s, s[j].id))
                        ==> exists|k: int|
                        0 <= k < rp_ids.len() && rp_ids[k] == s[j].id,
            decreases n - i,
        {
            let oc = sync_entity(
                &input.entities,
                i,
                &input.assets,
                &self.loggers,
                &self.default_loggers,
                &self.books,
                host,
            );
            let EntityOutcome { book, emits: mut oc_emits, flats: mut oc_flats, reparent } = oc;
            let ghost id_i = s[i as int].id;
            let ghost em_i = oc_emits@;
            let ghost fl_i = oc_flats@;
            let ghost pre_em = emits_all@;
            let ghost pre_fl = flats_all@;
            let ghost pre_books = new_books@;
            proof {
                lemma_tick_append_emits(s, a, ov, df, b0, i as int, pre_em, em_i, pre_books, book);
                lemma_tick_append_flats(s, a, b0, i as int, pre_fl, fl_i, pre_books, book, em_i, reparent);
            }
            emits_all.append(&mut oc_emits);
            flats_all.append(&mut oc_flats);
            new_books.push(book);
            proof {
                assert(emits_all@ == pre_em + em_i);
                assert(flats_all@ == pre_fl + fl_i);
                assert(new_books@ == pre_books.push(book));
            }
            match reparent {
                Option::Some(x) => {
                    rp_recs.push(x);
                    proof {
                        let ghost pre_ids = rp_ids;
                        rp_ids = rp_ids.push(id_i);
                        assert(rec_retract_at(rp_recs@[rp_recs@.len() - 1], b0[id_i].path));
                        assert forall|k1: int, k2: int|
                            0 <= k1 < k2 < rp_ids.len() implies rp_ids[k1] != rp_ids[k2] by {
                            if k2 == rp_ids.len() - 1 {
                                let j = choose|j: int|
                                    0 <= j < i && (#[trigger] s[j]).id == pre_ids[k1];
                                assert(s[j].id != s[i as int].id);
                            }
                        }
                        assert(s[i as int].id == rp_ids[rp_ids.len() - 1]);
                        assert forall|j: int|
                            0 <= j < i + 1 && is_reparented(
                                b0,
                                (#[trigger] s[j]).id,
                                path_spec(s, s[j].id),
                            ) implies exists|k: int|
                            0 <= k < rp_ids.len() && rp_ids[k] == s[j].id by {
                            if j < i {
                                let k0 = choose|k0: int|
                                    0 <= k0 < pre_ids.len() && pre_ids[k0] == s[j].id;
                                assert(rp_ids[k0] == s[j].id);
                            } else {
                                assert(rp_ids[rp_ids.len() - 1] == s[j].id);
                            }
                        }
                    }
                },
                Option::None => {
                    proof {
                        assert(!is_reparented(b0, id_i, path_spec(s, id_i)));
                    }
                },
            }
            i = i + 1;
        }
        // Commit the new bookkeeping and assemble the ordered action list.
        let ghost old_books_view = self.books@;
        self.books = new_books;
        let mut actions: Vec<SinkAction> = Vec::new();
        actions.push(SinkAction::AdvanceTime { time_ns: input.time_ns });
        let ghost adv = actions@;
        let ghost em = emits_all@;
        let ghost fl = flats_all@;
        let ghost rp = rp_recs@;
        let ghost dp = dp_recs@;
        actions.append(&mut emits_all);
        actions.append(&mut flats_all);
        actions.append(&mut rp_recs);
        actions.append(&mut dp_recs);
        proof {
            let acts = actions@;
            assert(adv =~= seq![SinkAction::AdvanceTime { time_ns: input.time_ns }]);
            assert(acts == adv + em + fl + rp + dp);
            assert(acts =~= seq![SinkAction::AdvanceTime { time_ns: input.time_ns }] + em + fl + rp
                + dp);
            assert(self.books@.len() == s.len());
            assert forall|k: int| 0 <= k < rp.len() implies (#[trigger] rp[k])
                matches SinkAction::Retract { recursive: true, .. } by {
                assert(rec_retract_at(rp[k], b0[rp_ids[k]].path));
            }
            assert forall|k: int| 0 <= k < dp.len() implies (#[trigger] dp[k])
                matches SinkAction::Retract { recursive: true, .. } by {
                assert(rec_retract_at(dp[k], b0[dp_ids[k]].path));
            }
            assert forall|k: int| 0 <= k < rp.len() implies has_entity(s, rp_ids[k]) by {
                let j = choose|j: int| 0 <= j < s.len() && (#[trigger] s[j]).id == rp_ids[k];
            }
            assert forall|k: int| 0 <= k < em.len() implies (#[trigger] em[k])
                matches SinkAction::Emit { .. } by {
                reveal(tick_em_inv);
            }
            assert forall|k: int| 0 <= k < fl.len() implies (#[trigger] fl[k])
                matches SinkAction::Retract { recursive: false, .. } by {
                reveal(tick_fl_inv);
            }
            lemma_tick_actions_emits(
                s,
                a,
                ov,
                df,
                b0,
                self.books@,
                em,
                fl,
                rp,
                dp,
                input.time_ns,
                acts,
            );
            lemma_tick_actions_flats(
                s,
                b0,
                self.books@,
                em,
                fl,
                rp,
                dp,
                input.time_ns,
                acts,
            );
            lemma_tick_actions_recs(
                s,
                old_books_view,
                em,
                fl,
                rp,
                dp,
                rp_ids,
                dp_ids,
                input.time_ns,
                acts,
            );
            assert(unique_book_ids(self.books@)) by {
                reveal(tick_em_inv);
            }
            assert(forall|j: int|
                0 <= j < self.books@.len() ==> book_wf(#[trigger] self.books@[j])) by {
                reveal(tick_em_inv);
            }
            assert(final(self).wf());
        }
        actions
    }
}

} // verus!
