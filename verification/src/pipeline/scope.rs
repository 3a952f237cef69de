use vstd::prelude::*;

use crate::pipeline::stage::Stage;

verus! {

/// A relation between two scene entities, and whether it is one of the
/// kinds that tie an entity's meaning to another (presents, recognized
/// from, fits to, flows in, inside).
#[derive(Clone, Copy, Debug, PartialEq, Eq, Structural)]
pub struct Relation {
    pub source: u64,
    pub target: u64,
    pub semantic: bool,
}

/// Why a request's scope cannot be resolved.
#[derive(Clone, Copy, Debug, PartialEq, Eq, Structural)]
pub enum ScopeError {
    /// Detection or inpainting was asked for on an entity-only scope.
    EntityScopeUnsupported,
    /// A page scope names no page.
    EmptyPageScope,
    /// A page scope names an entity that is no page.
    UnknownPage(u64),
    /// An entity scope names no entity.
    EmptyEntityScope,
}

/// Whether `stages` holds a stage that works on whole pages only.
pub open spec fn has_page_only_stage(stages: Seq<Stage>) -> bool {
    exists|i: int| #![trigger stages[i]] 0 <= i < stages.len() && (stages[i] == Stage::Detection || stages[i] == Stage::Inpainting)
}

/// Refuses detection and inpainting on an entity-only scope.
pub fn check_entity_scope(entity_scope: bool, stages: &Vec<Stage>) -> (checked: Result<(), ScopeError>)
    ensures
        match checked {
            Ok(()) => !(entity_scope && has_page_only_stage(stages@)),
            Err(error) => error == ScopeError::EntityScopeUnsupported && entity_scope && has_page_only_stage(stages@),
        },
{
    if !entity_scope {
        return Ok(());
    }
    let mut i: usize = 0;
    while i < stages.len()
        invariant
            entity_scope,
            i <= stages@.len(),
            forall|j: int| 0 <= j < i ==> #[trigger] stages@[j] != Stage::Detection && stages@[j] != Stage::Inpainting,
        decreases stages@.len() - i,
    {
        if stages[i] == Stage::Detection || stages[i] == Stage::Inpainting {
            proof {
                assert(stages@[i as int] == Stage::Detection || stages@[i as int] == Stage::Inpainting);
                assert(has_page_only_stage(stages@));
            }
            return Err(ScopeError::EntityScopeUnsupported);
        }
        i = i + 1;
    }
    Ok(())
}

fn holds(items: &Vec<u64>, item: u64) -> (found: bool)
    ensures
        found == items@.contains(item),
{
    let mut i: usize = 0;
    while i < items.len()
        invariant
            i <= items@.len(),
            forall|j: int| 0 <= j < i ==> items@[j] != item,
        decreases items@.len() - i,
    {
        if items[i] == item {
            return true;
        }
        i = i + 1;
    }
    false
}

/// The members of `items` that `wanted` holds, in the order of `items`.
pub open spec fn kept(items: Seq<u64>, wanted: Seq<u64>) -> Seq<u64> {
    items.filter(|item: u64| wanted.contains(item))
}

/// The members of `items` that `wanted` holds, in the order of `items`.
pub fn keep_listed(items: &Vec<u64>, wanted: &Vec<u64>) -> (out: Vec<u64>)
    ensures
        out@ == kept(items@, wanted@),
{
    let mut out: Vec<u64> = Vec::new();
    let mut i: usize = 0;
    while i < items.len()
        invariant
            i <= items@.len(),
            out@ == kept(items@.take(i as int), wanted@),
        decreases items@.len() - i,
    {
        proof {
            assert(items@.take(i + 1).drop_last() =~= items@.take(i as int));
            reveal(Seq::filter);
        }
        if holds(wanted, items[i]) {
            out.push(items[i]);
        }
        i = i + 1;
    }
    proof {
        assert(items@.take(items@.len() as int) =~= items@);
    }
    out
}

/// The smallest member of `requested` that `pages` lacks, where one does.
pub open spec fn first_unknown(pages: Seq<u64>, requested: Seq<u64>) -> Option<u64> {
    if exists|i: int| 0 <= i < requested.len() && !pages.contains(#[trigger] requested[i]) {
        Some(
            choose|id: u64|
                requested.contains(id) && !pages.contains(id) && forall|other: u64|
                    requested.contains(other) && !pages.contains(other) ==> id <= other,
        )
    } else {
        None
    }
}

/// Resolves a page scope against the project's pages, in project order:
/// fails where no page is named, or on the smallest named entity that is
/// no page of the project.
pub fn scope_pages(pages: &Vec<u64>, requested: &Vec<u64>) -> (resolved: Result<Vec<u64>, ScopeError>)
    ensures
        match resolved {
            Ok(out) => requested@.len() > 0 && (forall|i: int| 0 <= i < requested@.len() ==> pages@.contains(
                #[trigger] requested@[i],
            )) && out@ == kept(pages@, requested@),
            Err(ScopeError::EmptyPageScope) => requested@.len() == 0,
            Err(ScopeError::UnknownPage(id)) => requested@.len() > 0 && requested@.contains(id) && !pages@.contains(id)
                && forall|other: u64| requested@.contains(other) && !pages@.contains(other) ==> id <= other,
            Err(_) => false,
        },
{
    if requested.len() == 0 {
        return Err(ScopeError::EmptyPageScope);
    }
    let mut missing: Option<u64> = None;
    let mut i: usize = 0;
    while i < requested.len()
        invariant
            i <= requested@.len(),
            match missing {
                None => forall|j: int| 0 <= j < i ==> pages@.contains(#[trigger] requested@[j]),
                Some(id) => requested@.contains(id) && !pages@.contains(id) && forall|j: int|
                    0 <= j < i && !pages@.contains(#[trigger] requested@[j]) ==> id <= requested@[j],
            },
        decreases requested@.len() - i,
    {
        let id = requested[i];
        if !holds(pages, id) {
            missing = match missing {
                None => Some(id),
                Some(current) => if id < current { Some(id) } else { Some(current) },
            };
        }
        i = i + 1;
    }
    match missing {
        Some(id) => {
            proof {
                assert forall|other: u64| requested@.contains(other) && !pages@.contains(other) implies id <= other by {
                    let j = choose|j: int| 0 <= j < requested@.len() && requested@[j] == other;
                }
            }
            Err(ScopeError::UnknownPage(id))
        },
        None => Ok(keep_listed(pages, requested)),
    }
}

/// Whether the relations tie entity `a` to entity `b`: a semantic relation
/// has `a` at one end and `b` at one end.
pub open spec fn linked(relations: Seq<Relation>, a: u64, b: u64) -> bool {
    exists|k: int|
        0 <= k < relations.len() && (#[trigger] relations[k]).semantic && (relations[k].source == a
            || relations[k].target == a) && (b == relations[k].source || b == relations[k].target)
}

/// Whether every entity tied to a member of `s` is a member too.
pub open spec fn closed_under(s: Set<u64>, relations: Seq<Relation>) -> bool {
    forall|a: u64, b: u64| #[trigger] s.contains(a) && linked(relations, a, b) ==> #[trigger] s.contains(b)
}

/// Whether `x` belongs to the semantic closure of `seeds`: it lies in every
/// set that holds the seeds and every entity tied to a member.
pub open spec fn in_closure(seeds: Set<u64>, relations: Seq<Relation>, x: u64) -> bool {
    forall|s: Set<u64>| seeds.subset_of(s) && closed_under(s, relations) ==> #[trigger] s.contains(x)
}

/// Every entity a relation can bring in, the seeds first.
spec fn universe(seeds: Seq<u64>, relations: Seq<Relation>) -> Seq<u64> {
    seeds + relations.map_values(|r: Relation| r.source) + relations.map_values(|r: Relation| r.target)
}

proof fn lemma_no_dup_bounded(found: Seq<u64>, all: Seq<u64>)
    requires
        found.no_duplicates(),
        forall|i: int| 0 <= i < found.len() ==> all.contains(#[trigger] found[i]),
    ensures
        found.len() <= all.len(),
{
    found.unique_seq_to_set();
    all.lemma_cardinality_of_set();
    assert(found.to_set().subset_of(all.to_set())) by {
        assert forall|x: u64| found.to_set().contains(x) implies all.to_set().contains(x) by {
            let i = choose|i: int| 0 <= i < found.len() && found[i] == x;
            assert(all.contains(found[i]));
        }
    }
    vstd::seq_lib::seq_to_set_is_finite(all);
    vstd::set_lib::lemma_len_subset(found.to_set(), all.to_set());
}

/// Adds `item` to `found` unless it is there already.
fn add_new(found: &mut Vec<u64>, item: u64)
    requires
        old(found)@.no_duplicates(),
    ensures
        final(found)@.no_duplicates(),
        final(found)@.contains(item),
        final(found)@.len() >= old(found)@.len(),
        forall|j: int| 0 <= j < old(found)@.len() ==> #[trigger] final(found)@[j] == old(found)@[j],
        forall|x: u64| final(found)@.contains(x) <==> old(found)@.contains(x) || x == item,
        final(found)@ == if old(found)@.contains(item) {
            old(found)@
        } else {
            old(found)@.push(item)
        },
{
    let ghost before = found@;
    if !holds(found, item) {
        found.push(item);
        proof {
            assert(found@[before.len() as int] == item);
            assert forall|x: u64| found@.contains(x) implies before.contains(x) || x == item by {
                let j = choose|j: int| 0 <= j < found@.len() && found@[j] == x;
                if j < before.len() {
                    assert(before[j] == x);
                }
            }
            assert forall|x: u64| before.contains(x) implies found@.contains(x) by {
                let j = choose|j: int| 0 <= j < before.len() && before[j] == x;
                assert(found@[j] == x);
            }
        }
    }
}

/// Widens a set of entities by every relation of a semantic kind, from
/// either end, until nothing more is tied to it; each entity is listed once.
pub fn semantic_closure(seeds: &Vec<u64>, relations: &Vec<Relation>) -> (closure: Vec<u64>)
    ensures
        closure@.no_duplicates(),
        forall|x: u64| closure@.contains(x) <==> in_closure(seeds@.to_set(), relations@, x),
{
    let ghost all = universe(seeds@, relations@);
    let ghost seed_set = seeds@.to_set();
    let mut found: Vec<u64> = Vec::new();
    let mut s: usize = 0;
    while s < seeds.len()
        invariant
            s <= seeds@.len(),
            found@.no_duplicates(),
            all == universe(seeds@, relations@),
            seed_set == seeds@.to_set(),
            forall|j: int| 0 <= j < s ==> found@.contains(#[trigger] seeds@[j]),
            forall|x: u64| found@.contains(x) ==> seeds@.contains(x),
        decreases seeds@.len() - s,
    {
        add_new(&mut found, seeds[s]);
        s = s + 1;
    }
    proof {
        assert forall|x: u64| found@.contains(x) implies in_closure(seed_set, relations@, x) by {
            assert forall|set: Set<u64>| seed_set.subset_of(set) && closed_under(set, relations@) implies #[trigger] set.contains(x) by {
                assert(seed_set.contains(x));
            }
        }
        assert forall|x: u64| found@.contains(x) implies all.contains(x) by {
            let j = choose|j: int| 0 <= j < seeds@.len() && seeds@[j] == x;
            assert(all[j] == x);
        }
    }
    let mut i: usize = 0;
    loop
        invariant
            found@.no_duplicates(),
            all == universe(seeds@, relations@),
            seed_set == seeds@.to_set(),
            i <= found@.len(),
            forall|j: int| 0 <= j < seeds@.len() ==> found@.contains(#[trigger] seeds@[j]),
            forall|x: u64| found@.contains(x) ==> in_closure(seed_set, relations@, x),
            forall|x: u64| found@.contains(x) ==> all.contains(x),
            forall|j: int, b: u64| 0 <= j < i && #[trigger] linked(relations@, found@[j], b) ==> found@.contains(b),
        ensures
            found@.no_duplicates(),
            forall|j: int| 0 <= j < seeds@.len() ==> found@.contains(#[trigger] seeds@[j]),
            forall|x: u64| found@.contains(x) ==> in_closure(seed_set, relations@, x),
            forall|j: int, b: u64| 0 <= j < found@.len() && #[trigger] linked(relations@, found@[j], b) ==> found@.contains(b),
        decreases all.len() - i,
    {
        if i >= found.len() {
            break;
        }
        proof {
            lemma_no_dup_bounded(found@, all);
        }
        let entity = found[i];
        proof {
            assert(found@.contains(found@[i as int]));
        }
        let mut k: usize = 0;
        while k < relations.len()
            invariant
                found@.no_duplicates(),
                all == universe(seeds@, relations@),
                seed_set == seeds@.to_set(),
                i < found@.len(),
                entity == found@[i as int],
                k <= relations@.len(),
                forall|j: int| 0 <= j < seeds@.len() ==> found@.contains(#[trigger] seeds@[j]),
                forall|x: u64| found@.contains(x) ==> in_closure(seed_set, relations@, x),
                forall|x: u64| found@.contains(x) ==> all.contains(x),
                forall|j: int, b: u64| 0 <= j < i && #[trigger] linked(relations@, found@[j], b) ==> found@.contains(b),
                forall|m: int| 0 <= m < k && (#[trigger] relations@[m]).semantic && (relations@[m].source == entity
                    || relations@[m].target == entity) ==> found@.contains(relations@[m].source) && found@.contains(
                    relations@[m].target,
                ),
            decreases relations@.len() - k,
        {
            let relation = relations[k];
            if relation.semantic && (relation.source == entity || relation.target == entity) {
                proof {
                    assert(found@[i as int] == entity);
                    assert(found@.contains(entity));
                    assert(linked(relations@, entity, relation.source));
                    assert(linked(relations@, entity, relation.target));
                    assert(in_closure(seed_set, relations@, entity));
                    assert forall|set: Set<u64>| seed_set.subset_of(set) && closed_under(set, relations@) implies #[trigger] set.contains(
                        relation.source,
                    ) by {
                        assert(set.contains(entity));
                    }
                    assert forall|set: Set<u64>| seed_set.subset_of(set) && closed_under(set, relations@) implies #[trigger] set.contains(
                        relation.target,
                    ) by {
                        assert(set.contains(entity));
                    }
                    assert(in_closure(seed_set, relations@, relation.source));
                    assert(in_closure(seed_set, relations@, relation.target));
                    let sources = relations@.map_values(|r: Relation| r.source);
                    let targets = relations@.map_values(|r: Relation| r.target);
                    assert(all[seeds@.len() + k] == relation.source);
                    assert(all[seeds@.len() + relations@.len() + k] == relation.target);
                }
                let ghost before = found@;
                add_new(&mut found, relation.source);
                add_new(&mut found, relation.target);
                proof {
                    assert forall|j: int, b: u64| 0 <= j < i && #[trigger] linked(relations@, found@[j], b) implies found@.contains(b) by {
                        assert(found@[j] == before[j]);
                        assert(before.contains(b));
                    }
                }
            }
            k = k + 1;
        }
        proof {
            assert forall|j: int, b: u64| 0 <= j < i + 1 && #[trigger] linked(relations@, found@[j], b) implies found@.contains(b) by {
                if j == i {
                    let m = choose|m: int|
                        0 <= m < relations@.len() && (#[trigger] relations@[m]).semantic && (relations@[m].source
                            == found@[j] || relations@[m].target == found@[j]) && (b == relations@[m].source
                            || b == relations@[m].target);
                }
            }
        }
        i = i + 1;
    }
    proof {
        let got = found@.to_set();
        assert(seed_set.subset_of(got)) by {
            assert forall|x: u64| seed_set.contains(x) implies got.contains(x) by {
                let j = choose|j: int| 0 <= j < seeds@.len() && seeds@[j] == x;
            }
        }
        assert(closed_under(got, relations@)) by {
            assert forall|a: u64, b: u64| #[trigger] got.contains(a) && linked(relations@, a, b) implies #[trigger] got.contains(b) by {
                let j = choose|j: int| 0 <= j < found@.len() && found@[j] == a;
                assert(linked(relations@, found@[j], b));
            }
        }
        assert forall|x: u64| in_closure(seed_set, relations@, x) implies found@.contains(x) by {
            assert(got.contains(x));
        }
    }
    found
}

} // verus!
