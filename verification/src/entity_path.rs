//! Hierarchy-derived entity paths.
//!
//! An entity's path is computed from the current graph shape on every call:
//! the chain of ancestors is walked upward, reversed so the root comes
//! first, each entity is rendered as a segment (`"{id}_{name}"`, or
//! `"{id}"` when it has no display name), and the fixed root segment is
//! prepended. A parent reference to an entity that is no longer in the
//! snapshot is treated as "no parent".

use vstd::prelude::*;
use vstd::string::*;

use crate::snapshot::{
    entities_map, find_entity, lemma_entities_map_dom, lemma_entities_map_get, opt_str_view,
    unique_ids, EntityMeta, EntitySnapshot,
};
use crate::text::{
    decimal_chars, is_digit_char, lemma_decimal_chars_digits, lemma_decimal_chars_injective,
    string_push, u64_to_decimal,
};

verus! {

/// A resolved entity path: the ordered segments, root first.
pub struct EntityPath {
    pub parts: Vec<String>,
}

impl View for EntityPath {
    type V = Seq<Seq<char>>;

    open spec fn view(&self) -> Seq<Seq<char>> {
        Seq::new(self.parts@.len(), |i: int| self.parts@[i]@)
    }
}

impl EntityPath {
    /// An exact copy of this path.
    pub fn clone_path(&self) -> (r: EntityPath)
        ensures
            r@ == self@,
    {
        let mut parts: Vec<String> = Vec::new();
        let n = self.parts.len();
        let mut i: usize = 0;
        while i < n
            invariant
                n == self.parts@.len(),
                i <= n,
                parts@.len() == i,
                forall|j: int| 0 <= j < i ==> #[trigger] parts@[j]@ == self.parts@[j]@,
            decreases n - i,
        {
            parts.push(self.parts[i].clone());
            i = i + 1;
        }
        let r = EntityPath { parts };
        proof {
            assert(r@ =~= self@);
        }
        r
    }

    /// Whether two paths hold the same segments.
    pub fn eq_path(&self, other: &EntityPath) -> (r: bool)
        ensures
            r == (self@ == other@),
    {
        let n = self.parts.len();
        if n != other.parts.len() {
            proof {
                assert(self@.len() != other@.len());
            }
            return false;
        }
        let mut i: usize = 0;
        while i < n
            invariant
                n == self.parts@.len(),
                n == other.parts@.len(),
                i <= n,
                forall|j: int| 0 <= j < i ==> #[trigger] self.parts@[j]@ == other.parts@[j]@,
            decreases n - i,
        {
            if !(self.parts[i] == other.parts[i]) {
                proof {
                    assert(self@[i as int] != other@[i as int]);
                }
                return false;
            }
            i = i + 1;
        }
        proof {
            assert(self@ =~= other@);
        }
        true
    }
}

/// One path segment: the entity's identifier in decimal, followed, when a
/// display name is present, by an underscore and the name.
pub open spec fn segment_chars(id: u64, name: Option<Seq<char>>) -> Seq<char> {
    match name {
        Option::None => decimal_chars(id as nat),
        Option::Some(n) => decimal_chars(id as nat) + seq!['_'] + n,
    }
}

/// Renders one path segment.
pub fn segment_of(id: u64, name: &Option<String>) -> (s: String)
    ensures
        s@ == segment_chars(id, opt_str_view(*name)),
{
    let mut s = u64_to_decimal(id);
    match name {
        Option::None => {},
        Option::Some(nm) => {
            string_push(&mut s, '_');
            s.append(nm.as_str());
            proof {
                assert(decimal_chars(id as nat).push('_') + nm@ =~= decimal_chars(id as nat)
                    + seq!['_'] + nm@);
            }
        },
    }
    s
}

/// The effective parent of an entity: its parent reference, unless the
/// entity itself is unknown or the reference dangles.
pub open spec fn eff_parent(m: Map<u64, EntityMeta>, id: u64) -> Option<u64> {
    if m.contains_key(id) {
        match m[id].parent {
            Option::Some(p) => if m.contains_key(p) {
                Option::Some(p)
            } else {
                Option::None
            },
            Option::None => Option::None,
        }
    } else {
        Option::None
    }
}

/// The ancestors of an entity in ascending order (parent first), following
/// effective parents for at most `fuel` steps.
pub open spec fn chain_spec(m: Map<u64, EntityMeta>, id: u64, fuel: nat) -> Seq<u64>
    decreases fuel,
{
    if fuel == 0 {
        Seq::empty()
    } else {
        match eff_parent(m, id) {
            Option::None => Seq::empty(),
            Option::Some(p) => seq![p] + chain_spec(m, p, (fuel - 1) as nat),
        }
    }
}

/// The display name recorded for an entity, or none for an unknown one.
pub open spec fn name_in(m: Map<u64, EntityMeta>, id: u64) -> Option<Seq<char>> {
    if m.contains_key(id) {
        m[id].name
    } else {
        Option::None
    }
}

/// The segments of a chain of entities, read back-to-front, so that an
/// ascending ancestor chain comes out root first.
pub open spec fn seg_rev(m: Map<u64, EntityMeta>, ds: Seq<u64>) -> Seq<Seq<char>> {
    Seq::new(
        ds.len(),
        |i: int| segment_chars(ds[ds.len() - 1 - i], name_in(m, ds[ds.len() - 1 - i])),
    )
}

/// The resolved path of an entity over a graph snapshot.
pub open spec fn path_spec(s: Seq<EntitySnapshot>, id: u64) -> Seq<Seq<char>> {
    let m = entities_map(s);
    seq![crate::root_segment()] + seg_rev(m, seq![id] + chain_spec(m, id, s.len() as nat))
}

/// Collects the ancestors of `entity_id`, in ascending order (parent,
/// grand-parent, ...). A dangling or missing parent reference stops the
/// ascent; the walk also stops after as many steps as there are entities,
/// so it terminates on any input.
pub fn ancestors_from_world(entities: &Vec<EntitySnapshot>, entity_id: u64) -> (r: Vec<u64>)
    requires
        unique_ids(entities@),
    ensures
        r@ == chain_spec(entities_map(entities@), entity_id, entities@.len() as nat),
{
    let ghost m = entities_map(entities@);
    let n = entities.len();
    let mut r: Vec<u64> = Vec::new();
    let mut current: u64 = entity_id;
    let mut steps: usize = 0;
    let mut done: bool = false;
    proof {
        assert(r@ + chain_spec(m, entity_id, n as nat) =~= chain_spec(m, entity_id, n as nat));
    }
    while !done && steps < n
        invariant
            unique_ids(entities@),
            m == entities_map(entities@),
            n == entities@.len(),
            steps <= n,
            done ==> r@ == chain_spec(m, entity_id, n as nat),
            !done ==> chain_spec(m, entity_id, n as nat) == r@ + chain_spec(
                m,
                current,
                (n - steps) as nat,
            ),
        decreases 2 * (n - steps) + (if done {
            0int
        } else {
            1int
        }),
    {
        let ghost fuel = (n - steps) as nat;
        let parent_ref: Option<u64> = match find_entity(entities, current) {
            Option::Some(i) => {
                proof {
                    lemma_entities_map_get(entities@, i as int);
                }
                entities[i].parent
            },
            Option::None => {
                proof {
                    lemma_entities_map_dom(entities@, current);
                }
                Option::None
            },
        };
        let step_to: Option<u64> = match parent_ref {
            Option::Some(p) => {
                match find_entity(entities, p) {
                    Option::Some(_) => {
                        proof {
                            lemma_entities_map_dom(entities@, p);
                        }
                        Option::Some(p)
                    },
                    Option::None => {
                        proof {
                            lemma_entities_map_dom(entities@, p);
                        }
                        Option::None
                    },
                }
            },
            Option::None => Option::None,
        };
        match step_to {
            Option::Some(p) => {
                proof {
                    assert(eff_parent(m, current) == Option::Some(p));
                    assert(chain_spec(m, current, fuel) == seq![p] + chain_spec(
                        m,
                        p,
                        (fuel - 1) as nat,
                    ));
                    assert(r@ + (seq![p] + chain_spec(m, p, (fuel - 1) as nat)) =~= r@.push(p)
                        + chain_spec(m, p, (fuel - 1) as nat));
                }
                r.push(p);
                current = p;
                steps = steps + 1;
            },
            Option::None => {
                proof {
                    assert(eff_parent(m, current) is None);
                    assert(chain_spec(m, current, fuel) =~= Seq::<u64>::empty());
                    assert(r@ + Seq::<u64>::empty() =~= r@);
                }
                done = true;
            },
        }
    }
    proof {
        if !done {
            assert(chain_spec(m, current, (n - steps) as nat) =~= Seq::<u64>::empty());
            assert(r@ + Seq::<u64>::empty() =~= r@);
        }
    }
    r
}

/// Renders the segment of an entity as the snapshot shows it; an unknown
/// entity is rendered without a name.
fn segment_for(entities: &Vec<EntitySnapshot>, id: u64) -> (s: String)
    requires
        unique_ids(entities@),
    ensures
        s@ == segment_chars(id, name_in(entities_map(entities@), id)),
{
    match find_entity(entities, id) {
        Option::Some(i) => {
            proof {
                lemma_entities_map_get(entities@, i as int);
            }
            segment_of(id, &entities[i].name)
        },
        Option::None => {
            proof {
                lemma_entities_map_dom(entities@, id);
            }
            u64_to_decimal(id)
        },
    }
}

/// Computes the resolved path of `entity_id` over the current snapshot.
///
/// The path is hierarchy dependent: when the entity's ancestry changes,
/// the next call yields the changed path. Nothing is cached between calls,
/// so repeated calls over one snapshot always agree.
pub fn compute_entity_path(entities: &Vec<EntitySnapshot>, entity_id: u64) -> (path: EntityPath)
    requires
        unique_ids(entities@),
    ensures
        path@ == path_spec(entities@, entity_id),
{
    let ghost m = entities_map(entities@);
    let ancestors = ancestors_from_world(entities, entity_id);
    let ghost full = seq![entity_id] + chain_spec(m, entity_id, entities@.len() as nat);
    proof {
        assert(full == seq![entity_id] + ancestors@);
        assert(full.len() == ancestors@.len() + 1);
    }
    let mut parts: Vec<String> = Vec::new();
    parts.push(crate::root_segment_str());
    let alen = ancestors.len();
    let mut k: usize = 0;
    while k < alen
        invariant
            unique_ids(entities@),
            m == entities_map(entities@),
            alen == ancestors@.len(),
            full == seq![entity_id] + ancestors@,
            k <= alen,
            parts@.len() == k + 1,
            parts@[0]@ == crate::root_segment(),
            forall|i: int| 1 <= i <= k ==> #[trigger] parts@[i]@ == seg_rev(m, full)[i - 1],
        decreases alen - k,
    {
        let a = ancestors[alen - 1 - k];
        proof {
            assert(full[full.len() - 1 - (k as int)] == ancestors@[alen - 1 - k as int]);
        }
        let seg = segment_for(entities, a);
        parts.push(seg);
        k = k + 1;
    }
    let seg = segment_for(entities, entity_id);
    parts.push(seg);
    let path = EntityPath { parts };
    proof {
        assert(full[full.len() - 1 - (alen as int)] == entity_id);
        assert(path@ =~= seq![crate::root_segment()] + seg_rev(m, full));
    }
    path
}

/// Entity identifiers are recoverable from their segments: two equal
/// segments always come from one identifier, whatever the names were.
pub proof fn lemma_segment_chars_injective(
    id1: u64,
    n1: Option<Seq<char>>,
    id2: u64,
    n2: Option<Seq<char>>,
)
    requires
        segment_chars(id1, n1) == segment_chars(id2, n2),
    ensures
        id1 == id2,
{
    lemma_decimal_chars_digits(id1 as nat);
    lemma_decimal_chars_digits(id2 as nat);
    let d1 = decimal_chars(id1 as nat);
    let d2 = decimal_chars(id2 as nat);
    match (n1, n2) {
        (Option::None, Option::None) => {
            lemma_decimal_chars_injective(id1 as nat, id2 as nat);
        },
        (Option::Some(s1), Option::Some(s2)) => {
            let g1 = d1 + seq!['_'] + s1;
            let g2 = d2 + seq!['_'] + s2;
            assert(g1 == g2);
            if d1.len() < d2.len() {
                assert(g1[d1.len() as int] == '_');
                assert(g2[d1.len() as int] == d2[d1.len() as int]);
                assert(is_digit_char(d2[d1.len() as int]));
                assert(false);
            } else if d2.len() < d1.len() {
                assert(g2[d2.len() as int] == '_');
                assert(g1[d2.len() as int] == d1[d2.len() as int]);
                assert(is_digit_char(d1[d2.len() as int]));
                assert(false);
            } else {
                assert forall|i: int| 0 <= i < d1.len() implies d1[i] == d2[i] by {
                    assert(g1[i] == d1[i]);
                    assert(g2[i] == d2[i]);
                }
                assert(d1 =~= d2);
                lemma_decimal_chars_injective(id1 as nat, id2 as nat);
            }
        },
        (Option::Some(s1), Option::None) => {
            let g1 = d1 + seq!['_'] + s1;
            assert(g1 == d2);
            assert(d2.len() == d1.len() + 1 + s1.len());
            assert(g1[d1.len() as int] == '_');
            assert(is_digit_char(d2[d1.len() as int]));
            assert(false);
        },
        (Option::None, Option::Some(s2)) => {
            let g2 = d2 + seq!['_'] + s2;
            assert(g2 == d1);
            assert(d1.len() == d2.len() + 1 + s2.len());
            assert(g2[d2.len() as int] == '_');
            assert(is_digit_char(d1[d2.len() as int]));
            assert(false);
        },
    }
}

/// A path that ends with some segment of the given entity: what the
/// engine's bookkeeping records for an entity's own resolved path.
pub open spec fn entity_own_path(p: Seq<Seq<char>>, id: u64) -> bool {
    p.len() >= 2 && exists|nm: Option<Seq<char>>| p.last() == segment_chars(id, nm)
}

/// A resolved path always ends with the entity's own segment and starts
/// with the root segment.
pub proof fn lemma_path_spec_own(s: Seq<EntitySnapshot>, id: u64)
    ensures
        entity_own_path(path_spec(s, id), id),
        path_spec(s, id)[0] == crate::root_segment(),
        path_spec(s, id).len() >= 2,
{
    let m = entities_map(s);
    let full = seq![id] + chain_spec(m, id, s.len() as nat);
    let p = path_spec(s, id);
    assert(p.len() == 1 + full.len());
    assert(full[full.len() - 1 - (full.len() - 1)] == id);
    assert(p.last() == seg_rev(m, full)[full.len() - 1]);
    assert(p.last() == segment_chars(id, name_in(m, id)));
}

/// Paths recorded for two different entities never coincide: the last
/// segment pins the identifier down.
pub proof fn lemma_own_paths_distinct(p1: Seq<Seq<char>>, id1: u64, p2: Seq<Seq<char>>, id2: u64)
    requires
        entity_own_path(p1, id1),
        entity_own_path(p2, id2),
        id1 != id2,
    ensures
        p1 != p2,
{
    if p1 == p2 {
        let nm1 = choose|nm: Option<Seq<char>>| p1.last() == segment_chars(id1, nm);
        let nm2 = choose|nm: Option<Seq<char>>| p2.last() == segment_chars(id2, nm);
        assert(p1.last() == p2.last());
        lemma_segment_chars_injective(id1, nm1, id2, nm2);
    }
}

/// Re-parenting changes the resolved path: whenever an entity has two
/// different effective parents in two snapshots, its resolved paths over
/// those snapshots differ, independent of any caching.
pub proof fn lemma_reparent_changes_path(
    s1: Seq<EntitySnapshot>,
    s2: Seq<EntitySnapshot>,
    e: u64,
    p1: u64,
    p2: u64,
)
    requires
        eff_parent(entities_map(s1), e) == Option::Some(p1),
        eff_parent(entities_map(s2), e) == Option::Some(p2),
        p1 != p2,
    ensures
        path_spec(s1, e) != path_spec(s2, e),
{
    let m1 = entities_map(s1);
    let m2 = entities_map(s2);
    lemma_entities_map_dom(s1, e);
    lemma_entities_map_dom(s2, e);
    assert(s1.len() >= 1);
    assert(s2.len() >= 1);
    let c1 = chain_spec(m1, e, s1.len() as nat);
    let c2 = chain_spec(m2, e, s2.len() as nat);
    assert(c1 == seq![p1] + chain_spec(m1, p1, (s1.len() - 1) as nat));
    assert(c2 == seq![p2] + chain_spec(m2, p2, (s2.len() - 1) as nat));
    let full1 = seq![e] + c1;
    let full2 = seq![e] + c2;
    assert(full1[1] == p1);
    assert(full2[1] == p2);
    let q1 = path_spec(s1, e);
    let q2 = path_spec(s2, e);
    if q1 == q2 {
        assert(q1.len() == 1 + full1.len());
        assert(q2.len() == 1 + full2.len());
        assert(full1.len() == full2.len());
        let j = full1.len() - 2;
        assert(full1[full1.len() - 1 - j] == p1);
        assert(q1[1 + j] == segment_chars(p1, name_in(m1, p1)));
        assert(q2[1 + j] == segment_chars(p2, name_in(m2, p2)));
        lemma_segment_chars_injective(p1, name_in(m1, p1), p2, name_in(m2, p2));
        assert(false);
    }
}

} // verus!
