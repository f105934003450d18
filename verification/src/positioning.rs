//! Positioning references and the constraints that they resolve to.
//!
//! A reference names its target by text. The text is looked up as the name
//! of another descriptor, then as a spelling of an entity that some
//! descriptor declares, then as an anchor token; the first that succeeds
//! decides.
use vstd::prelude::*;
use crate::declared::canonical_match;
use crate::entity::{EntityModel, ExtensionSqlEntity, Positioning};
use crate::error::SqlGraphError;
use crate::graph::{edge, rows, well_formed, DepGraph};
use crate::registry::{models, unique_names, Registry};
use crate::text::same_text;

verus! {

/// The descriptor declares an entity that `raw` refers to.
pub open spec fn creates_match(e: EntityModel, raw: Seq<char>) -> bool {
    exists|k: int| 0 <= k < e.creates.len() && canonical_match((#[trigger] e.creates[k]).name, raw)
}

/// `j` is the first descriptor called `raw`, and `raw` is not the name of
/// the descriptor that asks.
pub open spec fn first_named(reg: Seq<EntityModel>, source: Seq<char>, raw: Seq<char>, j: int) -> bool {
    &&& 0 <= j < reg.len()
    &&& raw != source
    &&& reg[j].name == raw
    &&& forall|i: int| 0 <= i < j ==> (#[trigger] reg[i]).name != raw
}

/// `j` is the first descriptor that declares an entity to which `raw` refers.
pub open spec fn first_creating(reg: Seq<EntityModel>, raw: Seq<char>, j: int) -> bool {
    &&& 0 <= j < reg.len()
    &&& creates_match(reg[j], raw)
    &&& forall|i: int| 0 <= i < j ==> !creates_match(#[trigger] reg[i], raw)
}

/// `j` is the first descriptor marked as bootstrap.
pub open spec fn first_bootstrap(reg: Seq<EntityModel>, j: int) -> bool {
    &&& 0 <= j < reg.len()
    &&& reg[j].bootstrap
    &&& forall|i: int| 0 <= i < j ==> !(#[trigger] reg[i]).bootstrap
}

/// `j` is the first descriptor marked as finalize.
pub open spec fn first_finalize(reg: Seq<EntityModel>, j: int) -> bool {
    &&& 0 <= j < reg.len()
    &&& reg[j].finalize
    &&& forall|i: int| 0 <= i < j ==> !(#[trigger] reg[i]).finalize
}

/// `raw` is an anchor token, and `j` is the anchor that it stands for:
/// `bootstrap` for the bootstrap descriptor, `finalize` for the finalize
/// descriptor.
pub open spec fn anchor(reg: Seq<EntityModel>, raw: Seq<char>, j: int) -> bool {
    if raw == "bootstrap"@ {
        first_bootstrap(reg, j)
    } else if raw == "finalize"@ {
        first_finalize(reg, j)
    } else {
        false
    }
}

/// The reference `raw`, held by the descriptor called `source`, resolves to
/// descriptor `j`.
pub open spec fn resolves_to(reg: Seq<EntityModel>, source: Seq<char>, raw: Seq<char>, j: int) -> bool {
    if exists|i: int| first_named(reg, source, raw, i) {
        first_named(reg, source, raw, j)
    } else if exists|i: int| first_creating(reg, raw, i) {
        first_creating(reg, raw, j)
    } else {
        anchor(reg, raw, j)
    }
}

/// The reference resolves to some descriptor.
pub open spec fn resolvable(reg: Seq<EntityModel>, source: Seq<char>, raw: Seq<char>) -> bool {
    exists|j: int| resolves_to(reg, source, raw, j)
}

/// A reference resolves to at most one descriptor, which is one of the
/// registry.
pub proof fn lemma_resolves_once(
    reg: Seq<EntityModel>,
    source: Seq<char>,
    raw: Seq<char>,
    a: int,
    b: int,
)
    requires
        resolves_to(reg, source, raw, a),
        resolves_to(reg, source, raw, b),
    ensures
        a == b,
        0 <= a < reg.len(),
{
    if a < b {
        assert(reg[a].name == reg[a].name);
    } else if b < a {
        assert(reg[b].name == reg[b].name);
    }
}

/// The first descriptor called `raw`, unless `raw` is the name of the
/// descriptor that asks.
fn find_named(entities: &Vec<ExtensionSqlEntity>, source: &str, raw: &str) -> (r: Option<usize>)
    ensures
        match r {
            Some(j) => first_named(models(entities@), source@, raw@, j as int),
            None => forall|i: int| !first_named(models(entities@), source@, raw@, i),
        },
{
    if same_text(raw, source) {
        return None;
    }
    let mut j: usize = 0;
    while j < entities.len()
        invariant
            j <= entities.len(),
            raw@ != source@,
            forall|i: int| 0 <= i < j ==> (#[trigger] models(entities@)[i]).name != raw@,
        decreases entities.len() - j,
    {
        assert(models(entities@)[j as int] == entities@[j as int]@);
        if same_text(entities[j].name, raw) {
            return Some(j);
        }
        j += 1;
    }
    None
}

/// Whether `entity` declares an entity to which `raw` refers.
fn declares(entity: &ExtensionSqlEntity, raw: &str) -> (r: bool)
    ensures
        r == creates_match(entity@, raw@),
{
    let mut k: usize = 0;
    while k < entity.creates.len()
        invariant
            k <= entity.creates.len(),
            forall|i: int| 0 <= i < k ==> !canonical_match((#[trigger] entity@.creates[i]).name, raw@),
        decreases entity.creates.len() - k,
    {
        if entity.creates[k].has_match(raw) {
            assert(entity@.creates[k as int] == entity.creates@[k as int]@);
            return true;
        }
        assert(entity@.creates[k as int] == entity.creates@[k as int]@);
        k += 1;
    }
    false
}

/// The first descriptor that declares an entity to which `raw` refers.
fn find_creating(entities: &Vec<ExtensionSqlEntity>, raw: &str) -> (r: Option<usize>)
    ensures
        match r {
            Some(j) => first_creating(models(entities@), raw@, j as int),
            None => forall|i: int| !first_creating(models(entities@), raw@, i),
        },
{
    let mut j: usize = 0;
    while j < entities.len()
        invariant
            j <= entities.len(),
            forall|i: int| 0 <= i < j ==> !creates_match(#[trigger] models(entities@)[i], raw@),
        decreases entities.len() - j,
    {
        if declares(&entities[j], raw) {
            return Some(j);
        }
        j += 1;
    }
    None
}

/// The first descriptor marked as bootstrap.
fn find_bootstrap(entities: &Vec<ExtensionSqlEntity>) -> (r: Option<usize>)
    ensures
        match r {
            Some(j) => first_bootstrap(models(entities@), j as int),
            None => forall|i: int| !first_bootstrap(models(entities@), i),
        },
{
    let mut j: usize = 0;
    while j < entities.len()
        invariant
            j <= entities.len(),
            forall|i: int| 0 <= i < j ==> !(#[trigger] models(entities@)[i]).bootstrap,
        decreases entities.len() - j,
    {
        if entities[j].bootstrap {
            return Some(j);
        }
        j += 1;
    }
    None
}

/// The first descriptor marked as finalize.
fn find_finalize(entities: &Vec<ExtensionSqlEntity>) -> (r: Option<usize>)
    ensures
        match r {
            Some(j) => first_finalize(models(entities@), j as int),
            None => forall|i: int| !first_finalize(models(entities@), i),
        },
{
    let mut j: usize = 0;
    while j < entities.len()
        invariant
            j <= entities.len(),
            forall|i: int| 0 <= i < j ==> !(#[trigger] models(entities@)[i]).finalize,
        decreases entities.len() - j,
    {
        if entities[j].finalize {
            return Some(j);
        }
        j += 1;
    }
    None
}

/// Resolves the reference `raw`, held by the descriptor called `source`,
/// among `entities`.
pub fn resolve_among(entities: &Vec<ExtensionSqlEntity>, source: &str, raw: &str) -> (r: Option<
    usize,
>)
    ensures
        match r {
            Some(j) => resolves_to(models(entities@), source@, raw@, j as int),
            None => !resolvable(models(entities@), source@, raw@),
        },
{
    if let Some(j) = find_named(entities, source, raw) {
        return Some(j);
    }
    if let Some(j) = find_creating(entities, raw) {
        return Some(j);
    }
    if same_text(raw, "bootstrap") {
        find_bootstrap(entities)
    } else if same_text(raw, "finalize") {
        find_finalize(entities)
    } else {
        None
    }
}

/// Resolves the reference `raw`, held by the descriptor called `source`, in
/// the registry.
pub fn resolve(registry: &Registry, source: &str, raw: &str) -> (r: Option<usize>)
    ensures
        match r {
            Some(j) => resolves_to(registry@, source@, raw@, j as int),
            None => !resolvable(registry@, source@, raw@),
        },
{
    resolve_among(registry.entities(), source, raw)
}


/// The descriptor that a resolvable reference resolves to.
pub open spec fn resolved(reg: Seq<EntityModel>, source: Seq<char>, raw: Seq<char>) -> int {
    choose|j: int| resolves_to(reg, source, raw, j)
}

/// `targets` holds, for each reference of `e`, the descriptor that it
/// resolves to.
pub open spec fn targets_of(reg: Seq<EntityModel>, e: EntityModel, targets: Seq<usize>) -> bool {
    &&& targets.len() == e.requires.len()
    &&& forall|k: int|
        0 <= k < e.requires.len() ==> resolves_to(
            reg,
            e.name,
            e.requires[k].target,
            #[trigger] targets[k] as int,
        )
}

/// Every reference of `e` resolves.
pub open spec fn fully_resolvable(reg: Seq<EntityModel>, e: EntityModel) -> bool {
    forall|k: int|
        0 <= k < e.requires.len() ==> resolvable(reg, e.name, (#[trigger] e.requires[k]).target)
}

/// Reference `k` is the first of `e` that does not resolve.
pub open spec fn first_unresolved(reg: Seq<EntityModel>, e: EntityModel, k: int) -> bool {
    &&& 0 <= k < e.requires.len()
    &&& !resolvable(reg, e.name, e.requires[k].target)
    &&& forall|b: int|
        0 <= b < k ==> resolvable(reg, e.name, (#[trigger] e.requires[b]).target)
}

/// Every reference of every descriptor resolves.
pub open spec fn all_resolved(reg: Seq<EntityModel>) -> bool {
    forall|i: int| 0 <= i < reg.len() ==> fully_resolvable(reg, #[trigger] reg[i])
}

/// Reference `k` of descriptor `i` is the first of the registry that does
/// not resolve, the descriptors taken in their order and the references of
/// each in theirs.
pub open spec fn first_failing(reg: Seq<EntityModel>, i: int, k: int) -> bool {
    &&& 0 <= i < reg.len()
    &&& first_unresolved(reg, reg[i], k)
    &&& forall|a: int| 0 <= a < i ==> fully_resolvable(reg, #[trigger] reg[a])
}

/// `table` holds the targets of the references of every descriptor.
pub open spec fn is_resolution(reg: Seq<EntityModel>, table: Seq<Seq<usize>>) -> bool {
    &&& table.len() == reg.len()
    &&& forall|i: int| 0 <= i < reg.len() ==> targets_of(reg, reg[i], #[trigger] table[i])
}

/// The anchors: a bootstrap descriptor comes before every descriptor that
/// is not one, and every descriptor that is not a finalize descriptor comes
/// before each that is.
pub open spec fn implied(reg: Seq<EntityModel>, u: int, v: int) -> bool {
    ||| reg[u].bootstrap && !reg[v].bootstrap
    ||| !reg[u].finalize && reg[v].finalize
}

/// Descriptor `v` holds a reference that asks to come after `u`: one that
/// requires `u`, or one to be placed after it.
pub open spec fn asks_after(reg: Seq<EntityModel>, v: int, u: int) -> bool {
    exists|k: int|
        0 <= k < reg[v].requires.len() && !((#[trigger] reg[v].requires[k]).relation is Before)
            && resolves_to(reg, reg[v].name, reg[v].requires[k].target, u)
}

/// Descriptor `u` holds a reference that asks to come before `v`.
pub open spec fn asks_before(reg: Seq<EntityModel>, u: int, v: int) -> bool {
    exists|k: int|
        0 <= k < reg[u].requires.len() && (#[trigger] reg[u].requires[k]).relation is Before
            && resolves_to(reg, reg[u].name, reg[u].requires[k].target, v)
}

/// Descriptor `u` must come before descriptor `v`.
pub open spec fn must_precede(reg: Seq<EntityModel>, u: int, v: int) -> bool {
    &&& 0 <= u < reg.len()
    &&& 0 <= v < reg.len()
    &&& implied(reg, u, v) || asks_after(reg, v, u) || asks_before(reg, u, v)
}

/// The edges of `g` are the constraints of the registry.
pub open spec fn is_dependency_graph(reg: Seq<EntityModel>, g: Seq<Seq<usize>>) -> bool {
    &&& g.len() == reg.len()
    &&& well_formed(g)
    &&& forall|u: usize, v: usize| #[trigger] edge(g, u, v) <==> must_precede(reg, u as int, v as int)
}

/// Resolves the references of `entity` among `entities`, in their order.
/// The first that does not resolve is reported.
pub fn resolve_requires(entities: &Vec<ExtensionSqlEntity>, entity: &ExtensionSqlEntity) -> (r:
    Result<Vec<usize>, SqlGraphError>)
    ensures
        match r {
            Ok(targets) => targets_of(models(entities@), entity@, targets@),
            Err(SqlGraphError::UnresolvedReference(from, raw)) => {
                &&& from@ == entity@.name
                &&& exists|k: int| #[trigger]
                    first_unresolved(models(entities@), entity@, k) && raw@
                        == entity@.requires[k].target
            },
            Err(_) => false,
        },
{
    let ghost reg = models(entities@);
    let mut targets: Vec<usize> = Vec::new();
    let mut k: usize = 0;
    while k < entity.requires.len()
        invariant
            reg == models(entities@),
            k <= entity.requires.len(),
            entity.requires.len() == entity@.requires.len(),
            targets.len() == k,
            forall|b: int|
                0 <= b < k ==> resolves_to(
                    reg,
                    entity@.name,
                    entity@.requires[b].target,
                    #[trigger] targets@[b] as int,
                ),
        decreases entity.requires.len() - k,
    {
        let reference = &entity.requires[k];
        assert(entity@.requires[k as int] == reference@);
        match resolve_among(entities, entity.name, reference.target.as_str()) {
            Some(j) => {
                targets.push(j);
            },
            None => {
                proof {
                    assert forall|b: int| 0 <= b < k implies resolvable(
                        reg,
                        entity@.name,
                        (#[trigger] entity@.requires[b]).target,
                    ) by {
                        assert(resolves_to(
                            reg,
                            entity@.name,
                            entity@.requires[b].target,
                            targets@[b] as int,
                        ));
                    }
                    assert(first_unresolved(reg, entity@, k as int));
                }
                return Err(
                    SqlGraphError::UnresolvedReference(
                        String::from_str(entity.name),
                        reference.target.clone(),
                    ),
                );
            },
        }
        k += 1;
    }
    Ok(targets)
}

/// Resolves every reference of every descriptor. The first that does not
/// resolve is reported.
pub fn resolve_all(entities: &Vec<ExtensionSqlEntity>) -> (r: Result<Vec<Vec<usize>>, SqlGraphError>)
    ensures
        match r {
            Ok(table) => is_resolution(models(entities@), rows(table@)) && all_resolved(
                models(entities@),
            ),
            Err(SqlGraphError::UnresolvedReference(from, raw)) => exists|i: int, k: int| #[trigger]
                first_failing(models(entities@), i, k) && from@ == models(entities@)[i].name && raw@
                    == models(entities@)[i].requires[k].target,
            Err(_) => false,
        },
        r is Ok <==> all_resolved(models(entities@)),
{
    let ghost reg = models(entities@);
    let mut table: Vec<Vec<usize>> = Vec::new();
    let mut i: usize = 0;
    while i < entities.len()
        invariant
            reg == models(entities@),
            i <= entities.len(),
            table.len() == i,
            forall|a: int| 0 <= a < i ==> targets_of(reg, reg[a], #[trigger] rows(table@)[a]),
            forall|a: int| 0 <= a < i ==> fully_resolvable(reg, #[trigger] reg[a]),
        decreases entities.len() - i,
    {
        assert(reg[i as int] == entities@[i as int]@);
        match resolve_requires(entities, &entities[i]) {
            Ok(targets) => {
                proof {
                    assert forall|k: int| 0 <= k < reg[i as int].requires.len() implies resolvable(
                        reg,
                        reg[i as int].name,
                        (#[trigger] reg[i as int].requires[k]).target,
                    ) by {
                        assert(resolves_to(
                            reg,
                            reg[i as int].name,
                            reg[i as int].requires[k].target,
                            targets@[k] as int,
                        ));
                    }
                }
                let ghost before = rows(table@);
                table.push(targets);
                proof {
                    assert forall|a: int| 0 <= a < i + 1 implies targets_of(
                        reg,
                        reg[a],
                        #[trigger] rows(table@)[a],
                    ) by {
                        if a < i {
                            assert(rows(table@)[a] == before[a]);
                        }
                    }
                }
            },
            Err(e) => {
                proof {
                    let k = choose|k: int| #[trigger]
                        first_unresolved(reg, reg[i as int], k);
                    assert(first_failing(reg, i as int, k));
                    assert(!fully_resolvable(reg, reg[i as int]));
                }
                return Err(e);
            },
        }
        i += 1;
    }
    Ok(table)
}

/// Whether `entity` holds a reference that resolves to `other` and, as
/// `before` says, asks to come before it or does not.
fn asks(entity: &ExtensionSqlEntity, targets: &Vec<usize>, other: usize, before: bool) -> (r: bool)
    requires
        targets.len() == entity.requires.len(),
    ensures
        r == exists|k: int|
            0 <= k < entity@.requires.len() && ((#[trigger] entity@.requires[k]).relation is Before)
                == before && targets@[k] == other,
{
    let mut k: usize = 0;
    while k < entity.requires.len()
        invariant
            k <= entity.requires.len(),
            targets.len() == entity.requires.len(),
            forall|b: int|
                0 <= b < k ==> !(((#[trigger] entity@.requires[b]).relation is Before) == before
                    && targets@[b] == other),
        decreases entity.requires.len() - k,
    {
        assert(entity@.requires[k as int] == entity.requires@[k as int]@);
        let is_before = match entity.requires[k].relation {
            Positioning::Before => true,
            _ => false,
        };
        if is_before == before && targets[k] == other {
            return true;
        }
        k += 1;
    }
    false
}

/// Whether descriptor `u` must come before descriptor `v`.
fn precedes(entities: &Vec<ExtensionSqlEntity>, table: &Vec<Vec<usize>>, u: usize, v: usize) -> (r:
    bool)
    requires
        is_resolution(models(entities@), rows(table@)),
        u < entities.len(),
        v < entities.len(),
    ensures
        r == must_precede(models(entities@), u as int, v as int),
{
    let ghost reg = models(entities@);
    let eu = &entities[u];
    let ev = &entities[v];
    proof {
        assert(reg[u as int] == eu@);
        assert(reg[v as int] == ev@);
        assert(targets_of(reg, reg[u as int], rows(table@)[u as int]));
        assert(targets_of(reg, reg[v as int], rows(table@)[v as int]));
        let tu = table@[u as int]@;
        let tv = table@[v as int]@;
        assert(asks_after(reg, v as int, u as int) <==> exists|k: int|
            0 <= k < ev@.requires.len() && ((#[trigger] ev@.requires[k]).relation is Before)
                == false && tv[k] == u) by {
            if asks_after(reg, v as int, u as int) {
                let k = choose|k: int|
                    0 <= k < reg[v as int].requires.len() && !((
                    #[trigger] reg[v as int].requires[k]).relation is Before) && resolves_to(
                        reg,
                        reg[v as int].name,
                        reg[v as int].requires[k].target,
                        u as int,
                    );
                assert(resolves_to(reg, ev@.name, ev@.requires[k].target, tv[k] as int));
                lemma_resolves_once(reg, ev@.name, ev@.requires[k].target, tv[k] as int, u as int);
            }
            if exists|k: int|
                0 <= k < ev@.requires.len() && ((#[trigger] ev@.requires[k]).relation is Before)
                    == false && tv[k] == u {
                let k = choose|k: int|
                    0 <= k < ev@.requires.len() && ((#[trigger] ev@.requires[k]).relation is Before)
                        == false && tv[k] == u;
                assert(resolves_to(reg, ev@.name, ev@.requires[k].target, tv[k] as int));
            }
        }
        assert(asks_before(reg, u as int, v as int) <==> exists|k: int|
            0 <= k < eu@.requires.len() && ((#[trigger] eu@.requires[k]).relation is Before)
                == true && tu[k] == v) by {
            if asks_before(reg, u as int, v as int) {
                let k = choose|k: int|
                    0 <= k < reg[u as int].requires.len() && (
                    #[trigger] reg[u as int].requires[k]).relation is Before && resolves_to(
                        reg,
                        reg[u as int].name,
                        reg[u as int].requires[k].target,
                        v as int,
                    );
                assert(resolves_to(reg, eu@.name, eu@.requires[k].target, tu[k] as int));
                lemma_resolves_once(reg, eu@.name, eu@.requires[k].target, tu[k] as int, v as int);
            }
            if exists|k: int|
                0 <= k < eu@.requires.len() && ((#[trigger] eu@.requires[k]).relation is Before)
                    == true && tu[k] == v {
                let k = choose|k: int|
                    0 <= k < eu@.requires.len() && ((#[trigger] eu@.requires[k]).relation is Before)
                        == true && tu[k] == v;
                assert(resolves_to(reg, eu@.name, eu@.requires[k].target, tu[k] as int));
            }
        }
    }
    if eu.bootstrap && !ev.bootstrap {
        return true;
    }
    if !eu.finalize && ev.finalize {
        return true;
    }
    if asks(ev, &table[v], u, false) {
        return true;
    }
    asks(eu, &table[u], v, true)
}

/// The graph of the constraints among `entities`, whose references resolve
/// as `table` says.
pub fn dependency_graph(entities: &Vec<ExtensionSqlEntity>, table: &Vec<Vec<usize>>) -> (graph:
    DepGraph)
    requires
        is_resolution(models(entities@), rows(table@)),
    ensures
        is_dependency_graph(models(entities@), graph@),
{
    let ghost reg = models(entities@);
    let n = entities.len();
    let mut preds: Vec<Vec<usize>> = Vec::new();
    let mut v: usize = 0;
    while v < n
        invariant
            reg == models(entities@),
            n == entities.len(),
            is_resolution(reg, rows(table@)),
            v <= n,
            preds.len() == v,
            forall|b: int, u: usize|
                0 <= b < v ==> (#[trigger] rows(preds@)[b].contains(u) <==> must_precede(
                    reg,
                    u as int,
                    b,
                )),
        decreases n - v,
    {
        let mut row: Vec<usize> = Vec::new();
        let mut u: usize = 0;
        while u < n
            invariant
                reg == models(entities@),
                n == entities.len(),
                is_resolution(reg, rows(table@)),
                v < n,
                u <= n,
                forall|x: usize| row@.contains(x) <==> x < u && must_precede(reg, x as int, v as int),
            decreases n - u,
        {
            if precedes(entities, table, u, v) {
                let ghost before = row@;
                row.push(u);
                proof {
                    assert forall|x: usize| row@.contains(x) <==> x < u + 1 && must_precede(
                        reg,
                        x as int,
                        v as int,
                    ) by {
                        if row@.contains(x) {
                            let i = choose|i: int| 0 <= i < row@.len() && row@[i] == x;
                            if i < before.len() {
                                assert(before[i] == x);
                                assert(before.contains(x));
                            }
                        }
                        if x < u + 1 && must_precede(reg, x as int, v as int) {
                            if x == u {
                                assert(row@[before.len() as int] == x);
                            } else {
                                assert(before.contains(x));
                                let i = choose|i: int| 0 <= i < before.len() && before[i] == x;
                                assert(row@[i] == x);
                            }
                        }
                    }
                }
            }
            u += 1;
        }
        let ghost before = rows(preds@);
        preds.push(row);
        proof {
            assert forall|b: int, u: usize| 0 <= b < v + 1 implies (#[trigger] rows(
                preds@,
            )[b].contains(u) <==> must_precede(reg, u as int, b)) by {
                if b < v {
                    assert(rows(preds@)[b] == before[b]);
                }
            }
        }
        v += 1;
    }
    let graph = DepGraph { preds };
    proof {
        let g = graph@;
        assert forall|b: int, i: int| 0 <= b < g.len() && 0 <= i < g[b].len() implies #[trigger] g[b][i]
            < g.len() by {
            assert(g[b].contains(g[b][i]));
        }
        assert forall|u: usize, b: usize| #[trigger] edge(g, u, b) <==> must_precede(
            reg,
            u as int,
            b as int,
        ) by {
            if b < g.len() {
                assert(g[b as int].contains(u) <==> must_precede(reg, u as int, b as int));
            }
        }
    }
    graph
}


/// A reference that is the name of no descriptor, refers to no declared
/// entity and is no anchor token does not resolve.
pub proof fn lemma_absent_reference_unresolved(
    reg: Seq<EntityModel>,
    source: Seq<char>,
    raw: Seq<char>,
)
    requires
        forall|i: int| 0 <= i < reg.len() ==> (#[trigger] reg[i]).name != raw,
        forall|i: int| 0 <= i < reg.len() ==> !creates_match(#[trigger] reg[i], raw),
        raw != "bootstrap"@,
        raw != "finalize"@,
    ensures
        !resolvable(reg, source, raw),
{
    assert forall|j: int| !resolves_to(reg, source, raw, j) by {
        assert forall|i: int| !first_named(reg, source, raw, i) by {
            if first_named(reg, source, raw, i) {
                assert(reg[i].name == raw);
            }
        }
        assert forall|i: int| !first_creating(reg, raw, i) by {
            if first_creating(reg, raw, i) {
                assert(creates_match(reg[i], raw));
            }
        }
    }
}


/// Among descriptors with unique names, a reference that holds the name of
/// another descriptor resolves to that descriptor.
pub proof fn lemma_name_resolves(reg: Seq<EntityModel>, source: Seq<char>, u: int)
    requires
        unique_names(reg),
        0 <= u < reg.len(),
        reg[u].name != source,
    ensures
        resolves_to(reg, source, reg[u].name, u),
{
    assert forall|i: int| 0 <= i < u implies (#[trigger] reg[i]).name != reg[u].name by {
        assert(reg[i].name != reg[u].name);
    }
    assert(first_named(reg, source, reg[u].name, u));
}

/// A descriptor that requires another by its name, or asks to come after
/// it, comes after it; one that asks to come before it comes before it.
pub proof fn lemma_reference_by_name_constrains(reg: Seq<EntityModel>, v: int, k: int, u: int)
    requires
        unique_names(reg),
        0 <= v < reg.len(),
        0 <= u < reg.len(),
        u != v,
        0 <= k < reg[v].requires.len(),
        reg[v].requires[k].target == reg[u].name,
    ensures
        reg[v].requires[k].relation is Before ==> must_precede(reg, v, u),
        !(reg[v].requires[k].relation is Before) ==> must_precede(reg, u, v),
{
    assert(reg[u].name != reg[v].name);
    lemma_name_resolves(reg, reg[v].name, u);
    if reg[v].requires[k].relation is Before {
        assert(asks_before(reg, v, u));
    } else {
        assert(asks_after(reg, v, u));
    }
}

} // verus!
