//! From a registry to its script: the order of installation and the text.
use vstd::prelude::*;
use crate::entity::{EntityModel, ExtensionSqlEntity};
use crate::error::SqlGraphError;
use crate::graph::{
    edge, is_cycle, is_next, is_schedule, key_less, key_models, lemma_partial_distinct,
    lemma_schedule_acyclic, lemma_schedule_respects, lemma_schedule_unique, placed, position,
    ready, schedule, KeyModel, SortKey,
};
use crate::positioning::{
    all_resolved, dependency_graph, first_failing, first_unresolved, fully_resolvable,
    is_dependency_graph, must_precede, resolve_all,
};
use crate::registry::{models, Registry};
use crate::render::{document, entity_text, texts};
use crate::text::chars_of;

verus! {

/// The key of a descriptor: its file, its line and its name.
pub open spec fn key_of(e: EntityModel) -> KeyModel {
    KeyModel { file: e.file, line: e.line, name: e.name }
}

/// The keys of the descriptors of a registry.
pub open spec fn keys_of(reg: Seq<EntityModel>) -> Seq<KeyModel> {
    reg.map_values(|e: EntityModel| key_of(e))
}

/// After the first `k` descriptors of `order`, `v` may be placed: it is not
/// placed yet, and every descriptor that must come before it is.
pub open spec fn may_be_placed(reg: Seq<EntityModel>, order: Seq<usize>, k: int, v: usize) -> bool {
    &&& v < reg.len()
    &&& !placed(order, k, v)
    &&& forall|u: usize| #[trigger] must_precede(reg, u as int, v as int) ==> placed(order, k, u)
}

/// After the first `k` descriptors of `order`, `v` is placed next: it may
/// be placed, and of all that may be placed it has the smallest key.
pub open spec fn is_placed_next(reg: Seq<EntityModel>, order: Seq<usize>, k: int, v: usize) -> bool {
    &&& may_be_placed(reg, order, k, v)
    &&& forall|w: usize| #[trigger]
        may_be_placed(reg, order, k, w) && w != v ==> key_less(
            key_of(reg[v as int]),
            key_of(reg[w as int]),
        )
}

/// `order` is the order of installation: it holds every descriptor of the
/// registry, and each is the one that is placed next after those before it.
pub open spec fn is_install_order(reg: Seq<EntityModel>, order: Seq<usize>) -> bool {
    &&& order.len() == reg.len()
    &&& forall|k: int| 0 <= k < order.len() ==> is_placed_next(reg, order, k, #[trigger] order[k])
}

/// `c` is a cycle of constraints: each of its descriptors must come before
/// the next, and the last before the first.
pub open spec fn is_dependency_cycle(reg: Seq<EntityModel>, c: Seq<usize>) -> bool {
    &&& c.len() > 0
    &&& forall|i: int|
        0 <= i < c.len() - 1 ==> must_precede(reg, #[trigger] c[i] as int, c[i + 1] as int)
    &&& must_precede(reg, c[c.len() - 1] as int, c[0] as int)
}

/// The constraints of the registry form a cycle.
pub open spec fn cyclic(reg: Seq<EntityModel>) -> bool {
    exists|c: Seq<usize>| is_dependency_cycle(reg, c)
}

/// The names of the descriptors `nodes`.
pub open spec fn names_of(reg: Seq<EntityModel>, nodes: Seq<usize>) -> Seq<Seq<char>> {
    nodes.map_values(|v: usize| reg[v as int].name)
}

/// `text` is the script of the registry: the texts of its descriptors in
/// the order of installation.
pub open spec fn is_script(reg: Seq<EntityModel>, text: Seq<char>) -> bool {
    exists|order: Seq<usize>| #[trigger] is_install_order(reg, order) && text == document(reg, order)
}

/// The keys of the descriptors.
fn sort_keys(entities: &Vec<ExtensionSqlEntity>) -> (keys: Vec<SortKey>)
    ensures
        key_models(keys@) == keys_of(models(entities@)),
{
    let mut keys: Vec<SortKey> = Vec::new();
    let mut i: usize = 0;
    while i < entities.len()
        invariant
            i <= entities.len(),
            keys.len() == i,
            forall|j: int| 0 <= j < i ==> (#[trigger] keys@[j])@ == key_of(entities@[j]@),
        decreases entities.len() - i,
    {
        let e = &entities[i];
        keys.push(SortKey { file: chars_of(e.file), line: e.line, name: chars_of(e.name) });
        i += 1;
    }
    assert(key_models(keys@) =~= keys_of(models(entities@)));
    keys
}

/// The names of the descriptors `nodes`.
fn names(entities: &Vec<ExtensionSqlEntity>, nodes: &Vec<usize>) -> (r: Vec<String>)
    requires
        forall|i: int| 0 <= i < nodes.len() ==> nodes@[i] < entities.len(),
    ensures
        texts(r@) == names_of(models(entities@), nodes@),
{
    let mut r: Vec<String> = Vec::new();
    let mut i: usize = 0;
    while i < nodes.len()
        invariant
            i <= nodes.len(),
            r.len() == i,
            forall|j: int| 0 <= j < nodes.len() ==> nodes@[j] < entities.len(),
            forall|j: int| 0 <= j < i ==> (#[trigger] r@[j])@ == entities@[nodes@[j] as int]@.name,
        decreases nodes.len() - i,
    {
        r.push(String::from_str(entities[nodes[i]].name));
        i += 1;
    }
    assert(texts(r@) =~= names_of(models(entities@), nodes@));
    r
}

/// The constraints of the registry as a graph: for each descriptor, in
/// their order, the descriptors that must come before it.
pub open spec fn constraint_graph(reg: Seq<EntityModel>) -> Seq<Seq<usize>> {
    Seq::new(
        reg.len(),
        |v: int|
            Seq::new(reg.len(), |u: int| u as usize).filter(
                |u: usize| must_precede(reg, u as int, v),
            ),
    )
}

/// The graph of the constraints holds the constraints, and nothing else.
pub proof fn lemma_constraint_graph(reg: Seq<EntityModel>)
    ensures
        is_dependency_graph(reg, constraint_graph(reg)),
{
    let g = constraint_graph(reg);
    assert forall|v: int, i: int| 0 <= v < g.len() && 0 <= i < g[v].len() implies #[trigger] g[v][i]
        < g.len() by {
        let all = Seq::new(reg.len(), |u: int| u as usize);
        let pred = |u: usize| must_precede(reg, u as int, v);
        all.lemma_filter_pred(pred, i);
    }
    assert forall|u: usize, v: usize| #[trigger] edge(g, u, v) <==> must_precede(
        reg,
        u as int,
        v as int,
    ) by {
        if v < g.len() {
            let all = Seq::new(reg.len(), |u: int| u as usize);
            let pred = |u: usize| must_precede(reg, u as int, v as int);
            assert(g[v as int] == all.filter(pred));
            if edge(g, u, v) {
                let i = choose|i: int| 0 <= i < g[v as int].len() && g[v as int][i] == u;
                all.lemma_filter_pred(pred, i);
            }
            if must_precede(reg, u as int, v as int) {
                assert(all[u as int] == u);
                all.lemma_filter_contains(pred, u as int);
            }
        }
    }
}

/// The order of installation is the schedule of any graph that holds the
/// constraints of the registry.
pub proof fn lemma_install_order_is_schedule(
    reg: Seq<EntityModel>,
    g: Seq<Seq<usize>>,
    order: Seq<usize>,
)
    requires
        is_dependency_graph(reg, g),
    ensures
        is_install_order(reg, order) <==> is_schedule(g, keys_of(reg), order),
{
    assert forall|k: int, w: usize| may_be_placed(reg, order, k, w) <==> ready(g, order, k, w) by {
        if may_be_placed(reg, order, k, w) {
            assert forall|u: usize| #[trigger] edge(g, u, w) implies placed(order, k, u) by {
                assert(must_precede(reg, u as int, w as int));
            }
        }
        if ready(g, order, k, w) {
            assert forall|u: usize| #[trigger]
                must_precede(reg, u as int, w as int) implies placed(order, k, u) by {
                assert(edge(g, u, w) <==> must_precede(reg, u as int, w as int));
            }
        }
    }
    if is_install_order(reg, order) {
        assert forall|k: int| 0 <= k < order.len() implies is_next(
            g,
            keys_of(reg),
            order,
            k,
            #[trigger] order[k],
        ) by {
            let v = order[k];
            assert(is_placed_next(reg, order, k, v));
            assert forall|w: usize| #[trigger] ready(g, order, k, w) && w != v implies key_less(
                keys_of(reg)[v as int],
                keys_of(reg)[w as int],
            ) by {
                assert(may_be_placed(reg, order, k, w));
            }
        }
    }
    if is_schedule(g, keys_of(reg), order) {
        assert forall|k: int| 0 <= k < order.len() implies is_placed_next(
            reg,
            order,
            k,
            #[trigger] order[k],
        ) by {
            let v = order[k];
            assert(is_next(g, keys_of(reg), order, k, v));
            assert forall|w: usize| #[trigger]
                may_be_placed(reg, order, k, w) && w != v implies key_less(
                key_of(reg[v as int]),
                key_of(reg[w as int]),
            ) by {
                assert(ready(g, order, k, w));
            }
        }
    }
}

/// A cycle of a graph of the constraints is a cycle of constraints, and
/// the other way round.
proof fn lemma_same_cycles(reg: Seq<EntityModel>, g: Seq<Seq<usize>>, c: Seq<usize>)
    requires
        is_dependency_graph(reg, g),
    ensures
        is_cycle(g, c) <==> is_dependency_cycle(reg, c),
{
    if is_cycle(g, c) {
        assert forall|i: int| 0 <= i < c.len() - 1 implies must_precede(
            reg,
            #[trigger] c[i] as int,
            c[i + 1] as int,
        ) by {
            assert(edge(g, c[i], c[i + 1]));
        }
        assert(edge(g, c[c.len() - 1], c[0]));
    }
    if is_dependency_cycle(reg, c) {
        assert forall|i: int| 0 <= i < c.len() - 1 implies edge(g, #[trigger] c[i], c[i + 1]) by {
            assert(must_precede(reg, c[i] as int, c[i + 1] as int));
            assert(edge(g, c[i], c[i + 1]) <==> must_precede(reg, c[i] as int, c[i + 1] as int));
        }
        assert(edge(g, c[c.len() - 1], c[0]) <==> must_precede(
            reg,
            c[c.len() - 1] as int,
            c[0] as int,
        ));
    }
}

/// Puts the descriptors of the registry into the order of installation.
///
/// The order exists exactly if every reference resolves and the constraints
/// form no cycle. Otherwise the first reference that does not resolve is
/// reported, or, if all resolve, the names along a cycle.
pub fn install_order(registry: &Registry) -> (r: Result<Vec<usize>, SqlGraphError>)
    ensures
        match r {
            Ok(order) => all_resolved(registry@) && is_install_order(registry@, order@),
            Err(SqlGraphError::UnresolvedReference(from, raw)) => exists|i: int, k: int| #[trigger]
                first_failing(registry@, i, k) && from@ == registry@[i].name && raw@
                    == registry@[i].requires[k].target,
            Err(SqlGraphError::CyclicDependency(cycle)) => all_resolved(registry@) && exists|
                c: Seq<usize>,
            | #[trigger]
                is_dependency_cycle(registry@, c) && texts(cycle@) == names_of(registry@, c),
            Err(_) => false,
        },
        r is Ok <==> all_resolved(registry@) && !cyclic(registry@),
{
    let entities = registry.entities();
    let ghost reg = registry@;
    let table = match resolve_all(entities) {
        Ok(table) => table,
        Err(e) => {
            return Err(e);
        },
    };
    let graph = dependency_graph(entities, &table);
    let keys = sort_keys(entities);
    proof {
        assert forall|i: int, j: int|
            0 <= i < keys_of(reg).len() && 0 <= j < keys_of(reg).len() && i != j implies (
        #[trigger] keys_of(reg)[i]).name != (#[trigger] keys_of(reg)[j]).name by {
            assert(reg[i].name != reg[j].name);
        }
    }
    match schedule(&graph, &keys) {
        Ok(order) => {
            proof {
                lemma_install_order_is_schedule(reg, graph@, order@);
                if cyclic(reg) {
                    let c = choose|c: Seq<usize>| is_dependency_cycle(reg, c);
                    lemma_same_cycles(reg, graph@, c);
                }
            }
            Ok(order)
        },
        Err(cycle) => {
            proof {
                lemma_same_cycles(reg, graph@, cycle@);
                assert forall|i: int| 0 <= i < cycle@.len() implies cycle@[i] < entities.len() by {
                    if i < cycle@.len() - 1 {
                        assert(must_precede(reg, cycle@[i] as int, cycle@[i + 1] as int));
                    }
                }
            }
            let cycle_names = names(entities, &cycle);
            Err(SqlGraphError::CyclicDependency(cycle_names))
        },
    }
}

/// Every descriptor of `order` has references that all resolve.
pub open spec fn order_resolvable(reg: Seq<EntityModel>, order: Seq<usize>) -> bool {
    forall|i: int| 0 <= i < order.len() ==> fully_resolvable(reg, reg[#[trigger] order[i] as int])
}

/// Place `i` of `order` holds the first descriptor with a reference that
/// does not resolve, which is its reference `k`.
pub open spec fn first_failing_in(reg: Seq<EntityModel>, order: Seq<usize>, i: int, k: int) -> bool {
    &&& 0 <= i < order.len()
    &&& first_unresolved(reg, reg[order[i] as int], k)
    &&& order_resolvable(reg, order.take(i))
}

/// Renders the descriptors of `order`, one after the other. The first
/// reference that does not resolve is reported.
pub fn render(registry: &Registry, order: &Vec<usize>) -> (r: Result<String, SqlGraphError>)
    requires
        forall|i: int| 0 <= i < order.len() ==> order@[i] < registry@.len(),
    ensures
        match r {
            Ok(text) => order_resolvable(registry@, order@) && text@ == document(
                registry@,
                order@,
            ),
            Err(SqlGraphError::UnresolvedReference(from, raw)) => exists|i: int, k: int| #[trigger]
                first_failing_in(registry@, order@, i, k) && from@
                    == registry@[order@[i] as int].name && raw@
                    == registry@[order@[i] as int].requires[k].target,
            Err(_) => false,
        },
{
    let entities = registry.entities();
    let ghost reg = registry@;
    let mut text = String::new();
    let mut i: usize = 0;
    assert(order@.take(0) =~= Seq::<usize>::empty());
    while i < order.len()
        invariant
            reg == models(entities@),
            reg == registry@,
            i <= order.len(),
            forall|j: int| 0 <= j < order.len() ==> order@[j] < reg.len(),
            order_resolvable(reg, order@.take(i as int)),
            text@ == document(reg, order@.take(i as int)),
        decreases order.len() - i,
    {
        let v = order[i];
        assert(reg[v as int] == entities@[v as int]@);
        match entity_text(entities, &entities[v]) {
            Ok(part) => {
                proof {
                    let now = order@.take(i + 1);
                    assert(now.drop_last() =~= order@.take(i as int));
                    assert(now.last() == v);
                    assert forall|j: int| 0 <= j < now.len() implies fully_resolvable(
                        reg,
                        reg[#[trigger] now[j] as int],
                    ) by {
                        if j < i {
                            assert(order@.take(i as int)[j] == now[j]);
                        }
                    }
                }
                text.append(part.as_str());
            },
            Err(e) => {
                proof {
                    if let SqlGraphError::UnresolvedReference(_, raw) = &e {
                        let k = choose|k: int| #[trigger]
                            first_unresolved(reg, reg[v as int], k) && raw@
                                == reg[v as int].requires[k].target;
                        assert(first_failing_in(reg, order@, i as int, k));
                    }
                }
                return Err(e);
            },
        }
        i += 1;
    }
    assert(order@.take(order.len() as int) =~= order@);
    Ok(text)
}

/// Builds the script of the registry: orders its descriptors and renders
/// them.
///
/// The script exists exactly if every reference resolves and the
/// constraints form no cycle. Otherwise nothing is rendered, and the first
/// reference that does not resolve is reported, or, if all resolve, the
/// names along a cycle.
pub fn build_sql(registry: &Registry) -> (r: Result<String, SqlGraphError>)
    ensures
        match r {
            Ok(text) => all_resolved(registry@) && is_script(registry@, text@),
            Err(SqlGraphError::UnresolvedReference(from, raw)) => exists|i: int, k: int| #[trigger]
                first_failing(registry@, i, k) && from@ == registry@[i].name && raw@
                    == registry@[i].requires[k].target,
            Err(SqlGraphError::CyclicDependency(cycle)) => all_resolved(registry@) && exists|
                c: Seq<usize>,
            | #[trigger]
                is_dependency_cycle(registry@, c) && texts(cycle@) == names_of(registry@, c),
            Err(_) => false,
        },
        r is Ok <==> all_resolved(registry@) && !cyclic(registry@),
{
    let order = match install_order(registry) {
        Ok(order) => order,
        Err(e) => {
            return Err(e);
        },
    };
    proof {
        assert forall|i: int| 0 <= i < order@.len() implies order@[i] < registry@.len() by {
            assert(is_placed_next(registry@, order@, i, order@[i]));
        }
    }
    match render(registry, &order) {
        Ok(text) => Ok(text),
        Err(e) => {
            proof {
                let (i, k) = choose|i: int, k: int| #[trigger]
                    first_failing_in(registry@, order@, i, k);
                assert(fully_resolvable(registry@, registry@[order@[i] as int]));
                assert(false);
            }
            Err(e)
        },
    }
}


/// A registry has at most one order of installation.
pub proof fn lemma_install_order_unique(reg: Seq<EntityModel>, a: Seq<usize>, b: Seq<usize>)
    requires
        is_install_order(reg, a),
        is_install_order(reg, b),
    ensures
        a == b,
{
    let g = constraint_graph(reg);
    lemma_constraint_graph(reg);
    lemma_install_order_is_schedule(reg, g, a);
    lemma_install_order_is_schedule(reg, g, b);
    lemma_schedule_unique(g, keys_of(reg), a, b);
}

/// A registry has at most one script: building it again on the same
/// registry gives the same text.
pub proof fn lemma_script_unique(reg: Seq<EntityModel>, a: Seq<char>, b: Seq<char>)
    requires
        is_script(reg, a),
        is_script(reg, b),
    ensures
        a == b,
{
    let x = choose|order: Seq<usize>| #[trigger] is_install_order(reg, order) && a == document(reg, order);
    let y = choose|order: Seq<usize>| #[trigger] is_install_order(reg, order) && b == document(reg, order);
    lemma_install_order_unique(reg, x, y);
}

/// The order of installation holds every descriptor once, and what must
/// come before a descriptor comes before it.
pub proof fn lemma_install_order_respects(
    reg: Seq<EntityModel>,
    order: Seq<usize>,
    u: usize,
    v: usize,
)
    requires
        is_install_order(reg, order),
        must_precede(reg, u as int, v as int),
    ensures
        order.len() == reg.len(),
        order.no_duplicates(),
        order.contains(u),
        order.contains(v),
        position(order, u) < position(order, v),
{
    let g = constraint_graph(reg);
    lemma_constraint_graph(reg);
    lemma_install_order_is_schedule(reg, g, order);
    lemma_partial_distinct(g, keys_of(reg), order);
    assert(edge(g, u, v) <==> must_precede(reg, u as int, v as int));
    lemma_schedule_respects(g, keys_of(reg), order, u, v);
}

/// With one bootstrap descriptor and one finalize descriptor in the
/// registry, the order of installation begins with the first and ends
/// with the second.
pub proof fn lemma_anchors_at_the_ends(reg: Seq<EntityModel>, order: Seq<usize>, b: usize, f: usize)
    requires
        is_install_order(reg, order),
        b < reg.len(),
        f < reg.len(),
        forall|i: int| 0 <= i < reg.len() ==> ((#[trigger] reg[i]).bootstrap <==> i == b),
        forall|i: int| 0 <= i < reg.len() ==> ((#[trigger] reg[i]).finalize <==> i == f),
    ensures
        order.len() == reg.len(),
        order[0] == b,
        order[order.len() - 1] == f,
{
    let g = constraint_graph(reg);
    lemma_constraint_graph(reg);
    lemma_install_order_is_schedule(reg, g, order);
    lemma_partial_distinct(g, keys_of(reg), order);
    let first = order[0];
    let last = order[order.len() - 1];
    assert(position(order, first) == 0);
    assert(position(order, last) == order.len() - 1);
    if first != b {
        assert(reg[b as int].bootstrap && !reg[first as int].bootstrap);
        assert(must_precede(reg, b as int, first as int));
        lemma_install_order_respects(reg, order, b, first);
    }
    if last != f {
        assert(!reg[last as int].finalize && reg[f as int].finalize);
        assert(must_precede(reg, last as int, f as int));
        lemma_install_order_respects(reg, order, last, f);
    }
}

/// Two descriptors each of which must come before the other form a cycle.
pub proof fn lemma_mutual_constraints_are_cyclic(reg: Seq<EntityModel>, a: usize, b: usize)
    requires
        must_precede(reg, a as int, b as int),
        must_precede(reg, b as int, a as int),
    ensures
        cyclic(reg),
{
    let c = seq![a, b];
    assert(is_dependency_cycle(reg, c));
}

/// A registry whose constraints form a cycle has no order of installation,
/// and so no script.
pub proof fn lemma_cyclic_has_no_script(reg: Seq<EntityModel>)
    requires
        cyclic(reg),
    ensures
        forall|order: Seq<usize>| !is_install_order(reg, order),
        forall|text: Seq<char>| !is_script(reg, text),
{
    assert forall|order: Seq<usize>| !is_install_order(reg, order) by {
        if is_install_order(reg, order) {
            let g = constraint_graph(reg);
            lemma_constraint_graph(reg);
            lemma_install_order_is_schedule(reg, g, order);
            let c = choose|c: Seq<usize>| is_dependency_cycle(reg, c);
            lemma_same_cycles(reg, g, c);
            lemma_schedule_acyclic(g, keys_of(reg), order);
        }
    }
}


} // verus!
