//! Logger registry and its three-tier resolution chain: a per-kind user
//! override, then the built-in default table, then the universal fallback.
//!
//! A logger itself is an application-side callback; the registry stores an
//! opaque token for it. An entry holding no token suppresses emission for
//! that kind entirely.

use vstd::prelude::*;
use vstd::string::*;

verus! {

/// What the resolution chain selected for a component kind.
#[derive(Clone, Copy, Debug, PartialEq, Eq)]
pub enum LoggerRef {
    /// A registered logger callback, by its token.
    Custom(u64),
    /// The universal reflection-based fallback logger.
    Fallback,
}

/// Associates logger callbacks (by token) with fully-qualified component
/// kind names. An entry with no token prevents the kind from being logged
/// entirely; a kind with no entry falls through to the next tier.
pub struct RerunComponentLoggers {
    pub entries: Vec<(String, Option<u64>)>,
}

/// The table as a map from kind name to entry, later entries winning.
pub open spec fn map_of_pairs(s: Seq<(String, Option<u64>)>) -> Map<Seq<char>, Option<u64>>
    decreases s.len(),
{
    if s.len() == 0 {
        Map::empty()
    } else {
        map_of_pairs(s.drop_last()).insert(s.last().0@, s.last().1)
    }
}

pub proof fn lemma_map_of_pairs_dom(s: Seq<(String, Option<u64>)>, k: Seq<char>)
    ensures
        map_of_pairs(s).contains_key(k) <==> exists|i: int| 0 <= i < s.len() && s[i].0@ == k,
    decreases s.len(),
{
    if s.len() > 0 {
        lemma_map_of_pairs_dom(s.drop_last(), k);
        if s.last().0@ == k {
            assert(s[s.len() - 1].0@ == k);
        } else if map_of_pairs(s).contains_key(k) {
            let i = choose|i: int| 0 <= i < s.drop_last().len() && s.drop_last()[i].0@ == k;
            assert(s[i].0@ == k);
        } else {
            assert(forall|i: int| 0 <= i < s.len() - 1 ==> s.drop_last()[i] == s[i]);
        }
    }
}

pub open spec fn unique_pair_keys(s: Seq<(String, Option<u64>)>) -> bool {
    forall|i: int, j: int| 0 <= i < j < s.len() ==> s[i].0@ != s[j].0@
}

pub proof fn lemma_map_of_pairs_get(s: Seq<(String, Option<u64>)>, i: int)
    requires
        unique_pair_keys(s),
        0 <= i < s.len(),
    ensures
        map_of_pairs(s).contains_key(s[i].0@),
        map_of_pairs(s)[s[i].0@] == s[i].1,
    decreases s.len(),
{
    if i == s.len() - 1 {
        assert(s.last() == s[i]);
    } else {
        assert(forall|j: int| 0 <= j < s.len() - 1 ==> s.drop_last()[j] == s[j]);
        lemma_map_of_pairs_get(s.drop_last(), i);
        assert(s.last().0@ != s[i].0@);
    }
}

impl View for RerunComponentLoggers {
    type V = Map<Seq<char>, Option<u64>>;

    open spec fn view(&self) -> Map<Seq<char>, Option<u64>> {
        map_of_pairs(self.entries@)
    }
}

impl RerunComponentLoggers {
    /// Each kind name appears at most once in the backing entries.
    pub open spec fn wf(&self) -> bool {
        unique_pair_keys(self.entries@)
    }

    /// An empty table.
    pub fn empty() -> (r: RerunComponentLoggers)
        ensures
            r.wf(),
            r@ == Map::<Seq<char>, Option<u64>>::empty(),
    {
        RerunComponentLoggers { entries: Vec::new() }
    }

    /// Associates a kind name with a logger token (or with suppression),
    /// replacing any earlier association for the same kind.
    pub fn set_logger(&mut self, kind: String, logger: Option<u64>)
        requires
            old(self).wf(),
        ensures
            final(self).wf(),
            final(self)@ == old(self)@.insert(kind@, logger),
    {
        let n = self.entries.len();
        let mut i: usize = 0;
        while i < n
            invariant
                self.entries@ == old(self).entries@,
                unique_pair_keys(self.entries@),
                n == self.entries@.len(),
                i <= n,
                forall|j: int| 0 <= j < i ==> #[trigger] self.entries@[j].0@ != kind@,
            decreases n - i,
        {
            if self.entries[i].0 == kind {
                let ghost pre = self.entries@;
                proof {
                    lemma_set_is_insert(pre, i as int, kind@, logger);
                }
                self.entries.set(i, (kind, logger));
                proof {
                    let t = self.entries@;
                    assert(t == pre.update(i as int, (kind, logger)));
                    assert forall|a: int, b: int| 0 <= a < b < t.len() implies t[a].0@
                        != t[b].0@ by {
                        assert(pre[a].0@ != pre[b].0@);
                        if a != i && b != i {
                            assert(t[a] == pre[a] && t[b] == pre[b]);
                        } else if a == i {
                            assert(t[a].0@ == pre[i as int].0@ && t[b] == pre[b]);
                        } else {
                            assert(t[b].0@ == pre[i as int].0@ && t[a] == pre[a]);
                        }
                    }
                }
                return ;
            }
            i = i + 1;
        }
        let ghost pre = self.entries@;
        self.entries.push((kind, logger));
        proof {
            let t = self.entries@;
            assert(t.drop_last() =~= pre);
            assert(t.last() == (kind, logger));
            assert forall|a: int, b: int| 0 <= a < b < t.len() implies t[a].0@ != t[b].0@ by {
                if b < t.len() - 1 {
                    assert(t[a] == pre[a] && t[b] == pre[b]);
                    assert(pre[a].0@ != pre[b].0@);
                } else {
                    assert(t[a] == pre[a]);
                    assert(pre[a].0@ != kind@);
                }
            }
        }
    }

    /// The entry for a kind: `Some` when the kind has an association (which
    /// may itself be the suppressing `None`), `None` when it has no entry.
    pub fn get_entry(&self, kind: &String) -> (r: Option<Option<u64>>)
        requires
            self.wf(),
        ensures
            r == if self@.contains_key(kind@) {
                Option::Some(self@[kind@])
            } else {
                Option::None::<Option<u64>>
            },
    {
        let n = self.entries.len();
        let mut i: usize = 0;
        while i < n
            invariant
                self.wf(),
                n == self.entries@.len(),
                i <= n,
                forall|j: int| 0 <= j < i ==> #[trigger] self.entries@[j].0@ != kind@,
            decreases n - i,
        {
            if self.entries[i].0 == *kind {
                proof {
                    lemma_map_of_pairs_get(self.entries@, i as int);
                }
                return Some(self.entries[i].1);
            }
            i = i + 1;
        }
        proof {
            lemma_map_of_pairs_dom(self.entries@, kind@);
        }
        None
    }

    /// Builds a table from explicit associations, later entries winning.
    pub fn new(entries: Vec<(String, Option<u64>)>) -> (r: RerunComponentLoggers)
        ensures
            r.wf(),
            r@ == map_of_pairs(entries@),
    {
        let mut r = RerunComponentLoggers::empty();
        let n = entries.len();
        let mut i: usize = 0;
        proof {
            assert(entries@.take(0) =~= Seq::<(String, Option<u64>)>::empty());
        }
        while i < n
            invariant
                r.wf(),
                n == entries@.len(),
                i <= n,
                r@ == map_of_pairs(entries@.take(i as int)),
            decreases n - i,
        {
            let kind = entries[i].0.clone();
            let logger = entries[i].1;
            r.set_logger(kind, logger);
            proof {
                assert(entries@.take(i + 1 as int).drop_last() =~= entries@.take(i as int));
                assert(entries@.take(i + 1 as int).last() == entries@[i as int]);
            }
            i = i + 1;
        }
        proof {
            assert(entries@.take(n as int) =~= entries@);
        }
        r
    }
}

/// Replacing one entry of the backing vector updates the map at that key
/// when every key is unique.
proof fn lemma_set_is_insert(
    s: Seq<(String, Option<u64>)>,
    i: int,
    k: Seq<char>,
    v: Option<u64>,
)
    requires
        unique_pair_keys(s),
        0 <= i < s.len(),
        s[i].0@ == k,
    ensures
        forall|kind: String| kind@ == k ==> map_of_pairs(s.update(i, (kind, v))) == map_of_pairs(
            s,
        ).insert(k, v),
    decreases s.len(),
{
    assert forall|kind: String| kind@ == k implies map_of_pairs(s.update(i, (kind, v)))
        == map_of_pairs(s).insert(k, v) by {
        let t = s.update(i, (kind, v));
        if i == s.len() - 1 {
            assert(t.drop_last() =~= s.drop_last());
            assert(t.last() == (kind, v));
        } else {
            assert(t.drop_last() =~= s.drop_last().update(i, (kind, v)));
            assert(forall|j: int| 0 <= j < s.len() - 1 ==> s.drop_last()[j] == s[j]);
            assert(unique_pair_keys(s.drop_last()));
            lemma_set_is_insert(s.drop_last(), i, k, v);
            assert(t.last() == s.last());
            assert(s.last().0@ != k);
            assert(map_of_pairs(t) == map_of_pairs(s.drop_last()).insert(k, v).insert(
                s.last().0@,
                s.last().1,
            ));
            assert(map_of_pairs(s.drop_last()).insert(k, v).insert(s.last().0@, s.last().1)
                =~= map_of_pairs(s.drop_last()).insert(s.last().0@, s.last().1).insert(k, v));
        }
    }
}

/// What the resolution chain yields for a kind: the override table first
/// (where a suppressing entry ends the search with no logger), then the
/// default table, then the universal fallback.
pub open spec fn resolve_logger(
    kind: Seq<char>,
    overrides: Option<Map<Seq<char>, Option<u64>>>,
    defaults: Map<Seq<char>, Option<u64>>,
) -> Option<LoggerRef> {
    match overrides {
        Option::Some(o) => if o.contains_key(kind) {
            match o[kind] {
                Option::Some(id) => Option::Some(LoggerRef::Custom(id)),
                Option::None => Option::None,
            }
        } else {
            resolve_default_logger(kind, defaults)
        },
        Option::None => resolve_default_logger(kind, defaults),
    }
}

/// The lower two tiers of the chain: the default table, then the fallback.
pub open spec fn resolve_default_logger(
    kind: Seq<char>,
    defaults: Map<Seq<char>, Option<u64>>,
) -> Option<LoggerRef> {
    if defaults.contains_key(kind) {
        match defaults[kind] {
            Option::Some(id) => Option::Some(LoggerRef::Custom(id)),
            Option::None => Option::None,
        }
    } else {
        Option::Some(LoggerRef::Fallback)
    }
}

/// Resolves the logger for a component kind. Total: every kind yields
/// either a logger (a registered one or the fallback) or an explicit
/// suppression; resolution itself never fails.
pub fn get_component_logger(
    kind: &String,
    loggers: Option<&RerunComponentLoggers>,
    default_loggers: &crate::default_loggers::DefaultRerunComponentLoggers,
) -> (r: Option<LoggerRef>)
    requires
        loggers matches Option::Some(l) ==> l.wf(),
        default_loggers.table.wf(),
    ensures
        r == resolve_logger(
            kind@,
            match loggers {
                Option::Some(l) => Option::Some(l@),
                Option::None => Option::None,
            },
            default_loggers@,
        ),
{
    if let Some(table) = loggers {
        if let Some(entry) = table.get_entry(kind) {
            return match entry {
                Some(id) => Some(LoggerRef::Custom(id)),
                None => None,
            };
        }
    }
    if let Some(entry) = default_loggers.table.get_entry(kind) {
        return match entry {
            Some(id) => Some(LoggerRef::Custom(id)),
            None => None,
        };
    }
    Some(LoggerRef::Fallback)
}

} // verus!
