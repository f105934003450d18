//! Dependency graphs and their deterministic order.
//!
//! A graph holds, for each node, the nodes that must come before it. Its
//! schedule places the nodes one by one: at each step, among the nodes that
//! are not placed yet and whose predecessors all are, the one with the
//! smallest key comes next.
use vstd::prelude::*;
use vstd::seq_lib::*;
use vstd::set_lib::*;
use crate::text::{
    chars_less, lemma_lex_asymmetric, lemma_lex_total, lemma_lex_transitive, lex_less,
    same_chars,
};

verus! {

/// The key by which nodes without outstanding constraints are told apart,
/// as contracts see it.
pub struct KeyModel {
    pub file: Seq<char>,
    pub line: u32,
    pub name: Seq<char>,
}

/// The key of a node: where it was declared, and its name.
pub struct SortKey {
    pub file: Vec<char>,
    pub line: u32,
    pub name: Vec<char>,
}

impl View for SortKey {
    type V = KeyModel;

    open spec fn view(&self) -> KeyModel {
        KeyModel { file: self.file@, line: self.line, name: self.name@ }
    }
}

/// The keys that contracts see for a list of keys.
pub open spec fn key_models(keys: Seq<SortKey>) -> Seq<KeyModel> {
    keys.map_values(|k: SortKey| k@)
}

/// Strict order on keys: by file, then by line, then by name.
pub open spec fn key_less(a: KeyModel, b: KeyModel) -> bool {
    ||| lex_less(a.file, b.file)
    ||| a.file == b.file && a.line < b.line
    ||| a.file == b.file && a.line == b.line && lex_less(a.name, b.name)
}

/// No two keys come before each other.
pub proof fn lemma_key_asymmetric(a: KeyModel, b: KeyModel)
    ensures
        !(key_less(a, b) && key_less(b, a)),
{
    lemma_lex_asymmetric(a.file, b.file);
    lemma_lex_asymmetric(a.file, a.file);
    lemma_lex_asymmetric(a.name, b.name);
}

/// Of two keys with different names one comes before the other.
pub proof fn lemma_key_total(a: KeyModel, b: KeyModel)
    requires
        a.name != b.name,
    ensures
        key_less(a, b) || key_less(b, a),
{
    if a.file != b.file {
        lemma_lex_total(a.file, b.file);
    } else if a.line == b.line {
        lemma_lex_total(a.name, b.name);
    }
}

/// The order on keys is transitive.
pub proof fn lemma_key_transitive(a: KeyModel, b: KeyModel, c: KeyModel)
    requires
        key_less(a, b),
        key_less(b, c),
    ensures
        key_less(a, c),
{
    if lex_less(a.file, b.file) && lex_less(b.file, c.file) {
        lemma_lex_transitive(a.file, b.file, c.file);
    }
    if lex_less(a.name, b.name) && lex_less(b.name, c.name) {
        lemma_lex_transitive(a.name, b.name, c.name);
    }
}

/// Whether `a` comes strictly before `b`.
pub fn key_before(a: &SortKey, b: &SortKey) -> (r: bool)
    ensures
        r == key_less(a@, b@),
{
    proof {
        lemma_lex_asymmetric(a.file@, a.file@);
    }
    if chars_less(a.file.as_slice(), b.file.as_slice()) {
        true
    } else if !same_chars(a.file.as_slice(), b.file.as_slice()) {
        false
    } else if a.line != b.line {
        a.line < b.line
    } else {
        chars_less(a.name.as_slice(), b.name.as_slice())
    }
}

/// A dependency graph: for each node the nodes that must come before it.
pub struct DepGraph {
    pub preds: Vec<Vec<usize>>,
}

/// The lists of numbers that contracts see for a list of vectors.
pub open spec fn rows(table: Seq<Vec<usize>>) -> Seq<Seq<usize>> {
    table.map_values(|row: Vec<usize>| row@)
}

impl View for DepGraph {
    type V = Seq<Seq<usize>>;

    open spec fn view(&self) -> Seq<Seq<usize>> {
        rows(self.preds@)
    }
}

/// Every predecessor that the graph names is one of its nodes.
pub open spec fn well_formed(g: Seq<Seq<usize>>) -> bool {
    forall|v: int, i: int| 0 <= v < g.len() && 0 <= i < g[v].len() ==> #[trigger] g[v][i] < g.len()
}

/// `u` must come before `v`.
pub open spec fn edge(g: Seq<Seq<usize>>, u: usize, v: usize) -> bool {
    v < g.len() && g[v as int].contains(u)
}

/// `v` is among the first `k` nodes of `order`.
pub open spec fn placed(order: Seq<usize>, k: int, v: usize) -> bool {
    exists|i: int| 0 <= i < k && i < order.len() && #[trigger] order[i] == v
}

/// After the first `k` nodes of `order`, `v` has no outstanding constraint:
/// it is not placed, and all that must come before it is.
pub open spec fn ready(g: Seq<Seq<usize>>, order: Seq<usize>, k: int, v: usize) -> bool {
    &&& v < g.len()
    &&& !placed(order, k, v)
    &&& forall|u: usize| #[trigger] edge(g, u, v) ==> placed(order, k, u)
}

/// After the first `k` nodes of `order`, `v` is the node to place: it has
/// no outstanding constraint, and its key is the smallest of all such nodes.
pub open spec fn is_next(
    g: Seq<Seq<usize>>,
    keys: Seq<KeyModel>,
    order: Seq<usize>,
    k: int,
    v: usize,
) -> bool {
    &&& ready(g, order, k, v)
    &&& forall|w: usize| #[trigger]
        ready(g, order, k, w) && w != v ==> key_less(keys[v as int], keys[w as int])
}

/// Every node of `order` was the node to place when it was placed.
pub open spec fn is_partial_schedule(
    g: Seq<Seq<usize>>,
    keys: Seq<KeyModel>,
    order: Seq<usize>,
) -> bool {
    forall|k: int| 0 <= k < order.len() ==> is_next(g, keys, order, k, #[trigger] order[k])
}

/// `order` is the schedule of the graph: it holds all nodes, and each was
/// the node to place when it was placed.
pub open spec fn is_schedule(
    g: Seq<Seq<usize>>,
    keys: Seq<KeyModel>,
    order: Seq<usize>,
) -> bool {
    &&& order.len() == g.len()
    &&& is_partial_schedule(g, keys, order)
}

/// `c` is a cycle: each of its nodes must come before the next, and the
/// last before the first.
pub open spec fn is_cycle(g: Seq<Seq<usize>>, c: Seq<usize>) -> bool {
    &&& c.len() > 0
    &&& forall|i: int| 0 <= i < c.len() - 1 ==> edge(g, #[trigger] c[i], c[i + 1])
    &&& edge(g, c[c.len() - 1], c[0])
}

/// The graph has a cycle.
pub open spec fn has_cycle(g: Seq<Seq<usize>>) -> bool {
    exists|c: Seq<usize>| is_cycle(g, c)
}

/// No two keys have the same name.
pub open spec fn distinct_names(keys: Seq<KeyModel>) -> bool {
    forall|i: int, j: int|
        0 <= i < keys.len() && 0 <= j < keys.len() && i != j ==> (#[trigger] keys[i]).name != (
        #[trigger] keys[j]).name
}

/// A list of different numbers below `n` has at most `n` members, and if it
/// has `n`, every number below `n` is among them.
pub proof fn lemma_distinct_bounded(s: Seq<usize>, n: nat)
    requires
        s.no_duplicates(),
        forall|i: int| 0 <= i < s.len() ==> s[i] < n,
    ensures
        s.len() <= n,
        s.len() == n ==> forall|v: usize| v < n ==> s.contains(v),
{
    let t = s.map_values(|x: usize| x as int);
    assert(t.no_duplicates());
    t.unique_seq_to_set();
    lemma_int_range(0, n as int);
    assert(t.to_set().subset_of(set_int_range(0, n as int))) by {
        assert forall|x: int| t.to_set().contains(x) implies set_int_range(0, n as int).contains(
            x,
        ) by {
            let i = choose|i: int| 0 <= i < t.len() && t[i] == x;
            assert(s[i] < n);
        }
    }
    lemma_len_subset(t.to_set(), set_int_range(0, n as int));
    if s.len() == n {
        lemma_subset_equality(t.to_set(), set_int_range(0, n as int));
        assert forall|v: usize| v < n implies s.contains(v) by {
            assert(set_int_range(0, n as int).contains(v as int));
            assert(t.to_set().contains(v as int));
            let i = choose|i: int| 0 <= i < t.len() && t[i] == v as int;
            assert(s[i] == v);
        }
    }
}

/// A list that holds every number below `n` has at least `n` members.
pub proof fn lemma_covering_long(s: Seq<usize>, n: nat)
    requires
        forall|v: usize| v < n ==> s.contains(v),
        n <= usize::MAX,
    ensures
        n <= s.len(),
{
    let t = s.map_values(|x: usize| x as int);
    t.lemma_cardinality_of_set();
    lemma_int_range(0, n as int);
    assert(set_int_range(0, n as int).subset_of(t.to_set())) by {
        assert forall|x: int| set_int_range(0, n as int).contains(x) implies t.to_set().contains(
            x,
        ) by {
            assert(s.contains(x as usize));
            let i = choose|i: int| 0 <= i < s.len() && s[i] == x as usize;
            assert(t[i] == x);
        }
    }
    seq_to_set_is_finite(t);
    lemma_len_subset(set_int_range(0, n as int), t.to_set());
}

/// The nodes of a partial schedule are nodes of the graph, each placed once.
pub proof fn lemma_partial_distinct(g: Seq<Seq<usize>>, keys: Seq<KeyModel>, order: Seq<usize>)
    requires
        is_partial_schedule(g, keys, order),
    ensures
        order.no_duplicates(),
        forall|i: int| 0 <= i < order.len() ==> order[i] < g.len(),
        order.len() <= g.len(),
{
    assert forall|i: int, j: int| 0 <= i < order.len() && 0 <= j < order.len() && i != j implies order[i]
        != order[j] by {
        if order[i] == order[j] {
            if i < j {
                assert(is_next(g, keys, order, j, order[j]));
                assert(placed(order, j, order[j]));
            } else {
                assert(is_next(g, keys, order, i, order[i]));
                assert(placed(order, i, order[i]));
            }
        }
    }
    assert forall|i: int| 0 <= i < order.len() implies order[i] < g.len() by {
        assert(is_next(g, keys, order, i, order[i]));
    }
    lemma_distinct_bounded(order, g.len());
}

/// A graph has at most one schedule.
pub proof fn lemma_schedule_unique(
    g: Seq<Seq<usize>>,
    keys: Seq<KeyModel>,
    a: Seq<usize>,
    b: Seq<usize>,
)
    requires
        is_schedule(g, keys, a),
        is_schedule(g, keys, b),
    ensures
        a == b,
{
    lemma_same_prefix(g, keys, a, b, a.len() as int);
    assert(a =~= b);
}

/// Two schedules of a graph agree on their first `k` nodes.
proof fn lemma_same_prefix(
    g: Seq<Seq<usize>>,
    keys: Seq<KeyModel>,
    a: Seq<usize>,
    b: Seq<usize>,
    k: int,
)
    requires
        is_schedule(g, keys, a),
        is_schedule(g, keys, b),
        0 <= k <= a.len(),
    ensures
        forall|i: int| 0 <= i < k ==> a[i] == b[i],
    decreases k,
{
    if k > 0 {
        lemma_same_prefix(g, keys, a, b, k - 1);
        let p = k - 1;
        assert(is_next(g, keys, a, p, a[p]));
        assert(is_next(g, keys, b, p, b[p]));
        assert forall|v: usize| placed(a, p, v) == placed(b, p, v) by {
            if placed(a, p, v) {
                let i = choose|i: int| 0 <= i < p && i < a.len() && a[i] == v;
                assert(b[i] == v);
            }
            if placed(b, p, v) {
                let i = choose|i: int| 0 <= i < p && i < b.len() && b[i] == v;
                assert(a[i] == v);
            }
        }
        assert(ready(g, b, p, a[p]));
        assert(ready(g, a, p, b[p]));
        if a[p] != b[p] {
            lemma_key_asymmetric(keys[a[p] as int], keys[b[p] as int]);
        }
    }
}

/// The place of `v` in `order`.
pub open spec fn position(order: Seq<usize>, v: usize) -> int {
    choose|i: int| 0 <= i < order.len() && order[i] == v
}

/// In a schedule, what must come before a node does come before it.
pub proof fn lemma_schedule_respects(
    g: Seq<Seq<usize>>,
    keys: Seq<KeyModel>,
    order: Seq<usize>,
    u: usize,
    v: usize,
)
    requires
        well_formed(g),
        is_schedule(g, keys, order),
        edge(g, u, v),
    ensures
        order.contains(u),
        order.contains(v),
        0 <= position(order, u) < position(order, v) < order.len(),
{
    lemma_partial_distinct(g, keys, order);
    lemma_distinct_bounded(order, g.len());
    assert(order.contains(v));
    let p = position(order, v);
    assert(is_next(g, keys, order, p, order[p]));
    assert(placed(order, p, u));
    let i = choose|i: int| 0 <= i < p && i < order.len() && order[i] == u;
    assert(order.contains(u));
    assert(position(order, u) == i);
}

/// Along a cycle the places in a schedule would have to grow.
proof fn lemma_cycle_climbs(
    g: Seq<Seq<usize>>,
    keys: Seq<KeyModel>,
    order: Seq<usize>,
    c: Seq<usize>,
    t: int,
)
    requires
        well_formed(g),
        is_schedule(g, keys, order),
        is_cycle(g, c),
        0 <= t < c.len(),
    ensures
        position(order, c[0]) + t <= position(order, c[t]),
    decreases t,
{
    if t > 0 {
        lemma_cycle_climbs(g, keys, order, c, t - 1);
        assert(edge(g, c[t - 1], c[t - 1 + 1]));
        lemma_schedule_respects(g, keys, order, c[t - 1], c[t]);
    }
}

/// A graph that has a schedule has no cycle.
pub proof fn lemma_schedule_acyclic(g: Seq<Seq<usize>>, keys: Seq<KeyModel>, order: Seq<usize>)
    requires
        well_formed(g),
        is_schedule(g, keys, order),
    ensures
        !has_cycle(g),
{
    if has_cycle(g) {
        let c = choose|c: Seq<usize>| is_cycle(g, c);
        lemma_cycle_climbs(g, keys, order, c, c.len() - 1);
        lemma_schedule_respects(g, keys, order, c[c.len() - 1], c[0]);
    }
}


/// What is next after `k` nodes depends on those nodes alone.
proof fn lemma_next_extends(
    g: Seq<Seq<usize>>,
    keys: Seq<KeyModel>,
    a: Seq<usize>,
    b: Seq<usize>,
    k: int,
    v: usize,
)
    requires
        0 <= k <= a.len(),
        a.len() <= b.len(),
        forall|i: int| 0 <= i < k ==> a[i] == b[i],
        is_next(g, keys, a, k, v),
    ensures
        is_next(g, keys, b, k, v),
{
    assert forall|w: usize| placed(a, k, w) == placed(b, k, w) by {
        if placed(a, k, w) {
            let i = choose|i: int| 0 <= i < k && i < a.len() && a[i] == w;
            assert(b[i] == w);
        }
        if placed(b, k, w) {
            let i = choose|i: int| 0 <= i < k && i < b.len() && b[i] == w;
            assert(a[i] == w);
        }
    }
    assert forall|w: usize| ready(g, b, k, w) implies ready(g, a, k, w) by {
        assert forall|u: usize| #[trigger] edge(g, u, w) implies placed(a, k, u) by {
            assert(placed(b, k, u));
        }
    }
    assert(ready(g, b, k, v)) by {
        assert forall|u: usize| #[trigger] edge(g, u, v) implies placed(b, k, u) by {
            assert(placed(a, k, u));
        }
    }
}

/// `done` marks the nodes that `order` holds.
spec fn marks(g: Seq<Seq<usize>>, done: Seq<bool>, order: Seq<usize>) -> bool {
    &&& done.len() == g.len()
    &&& forall|v: usize| v < g.len() ==> (#[trigger] done[v as int] <==> order.contains(v))
}

/// Whether every node that must come before `v` is marked.
fn preds_done(graph: &DepGraph, done: &Vec<bool>, v: usize) -> (r: bool)
    requires
        well_formed(graph@),
        done.len() == graph@.len(),
        v < graph@.len(),
    ensures
        r == forall|u: usize| #[trigger] edge(graph@, u, v) ==> done@[u as int],
{
    let preds = &graph.preds[v];
    assert(preds@ == graph@[v as int]);
    let mut i: usize = 0;
    while i < preds.len()
        invariant
            well_formed(graph@),
            done.len() == graph@.len(),
            v < graph@.len(),
            preds@ == graph@[v as int],
            i <= preds.len(),
            forall|j: int| 0 <= j < i ==> done@[#[trigger] preds@[j] as int],
        decreases preds.len() - i,
    {
        let u = preds[i];
        assert(graph@[v as int][i as int] < graph@.len());
        if !done[u] {
            assert(edge(graph@, u, v));
            return false;
        }
        i += 1;
    }
    assert forall|u: usize| #[trigger] edge(graph@, u, v) implies done@[u as int] by {
        let j = choose|j: int| 0 <= j < preds@.len() && preds@[j] == u;
        assert(done@[preds@[j] as int]);
    }
    true
}

/// The node to place after `order`, whose nodes `done` marks, if there is
/// one.
fn pick_next(graph: &DepGraph, keys: &Vec<SortKey>, done: &Vec<bool>, Ghost(order): Ghost<
    Seq<usize>,
>) -> (r: Option<usize>)
    requires
        well_formed(graph@),
        keys.len() == graph@.len(),
        distinct_names(key_models(keys@)),
        marks(graph@, done@, order),
    ensures
        match r {
            Some(v) => is_next(graph@, key_models(keys@), order, order.len() as int, v),
            None => forall|w: usize| !ready(graph@, order, order.len() as int, w),
        },
{
    let n = done.len();
    let ghost k = order.len() as int;
    let ghost km = key_models(keys@);
    let mut best: Option<usize> = None;
    let mut v: usize = 0;
    proof {
        assert forall|w: usize| placed(order, k, w) == order.contains(w) by {
            if order.contains(w) {
                let i = choose|i: int| 0 <= i < order.len() && order[i] == w;
                assert(order[i] == w);
            }
        }
    }
    while v < n
        invariant
            n == graph@.len(),
            k == order.len(),
            km == key_models(keys@),
            well_formed(graph@),
            keys.len() == graph@.len(),
            distinct_names(km),
            marks(graph@, done@, order),
            forall|w: usize| placed(order, k, w) == order.contains(w),
            v <= n,
            match best {
                Some(b) => b < v && ready(graph@, order, k, b) && forall|w: usize|
                    w < v && #[trigger] ready(graph@, order, k, w) && w != b ==> key_less(
                        km[b as int],
                        km[w as int],
                    ),
                None => forall|w: usize| w < v ==> !ready(graph@, order, k, w),
            },
        decreases n - v,
    {
        if !done[v] && preds_done(graph, done, v) {
            assert(ready(graph@, order, k, v)) by {
                assert forall|u: usize| #[trigger] edge(graph@, u, v) implies placed(
                    order,
                    k,
                    u,
                ) by {
                    let j = choose|j: int| 0 <= j < graph@[v as int].len() && graph@[v as int][j]
                        == u;
                    assert(graph@[v as int][j] < graph@.len());
                    assert(done@[u as int]);
                }
            }
            match best {
                None => {
                    best = Some(v);
                },
                Some(b) => {
                    if key_before(&keys[v], &keys[b]) {
                        assert forall|w: usize|
                            w < v + 1 && #[trigger] ready(graph@, order, k, w) && w
                                != v implies key_less(km[v as int], km[w as int]) by {
                            if w != b {
                                lemma_key_transitive(km[v as int], km[b as int], km[w as int]);
                            }
                        }
                        best = Some(v);
                    } else {
                        proof {
                            lemma_key_total(km[b as int], km[v as int]);
                        }
                    }
                },
            }
        } else {
            assert(!ready(graph@, order, k, v)) by {
                if !done@[v as int] {
                    let u = choose|u: usize| #[trigger] edge(graph@, u, v) && !done@[u as int];
                    let j = choose|j: int| 0 <= j < graph@[v as int].len() && graph@[v as int][j]
                        == u;
                    assert(graph@[v as int][j] < graph@.len());
                    assert(!placed(order, k, u));
                }
            }
        }
        v += 1;
    }
    best
}

/// An unplaced node that cannot be placed waits for another unplaced node.
proof fn lemma_waits(g: Seq<Seq<usize>>, done: Seq<bool>, order: Seq<usize>, w: usize)
    requires
        well_formed(g),
        marks(g, done, order),
        w < g.len(),
        !done[w as int],
        !ready(g, order, order.len() as int, w),
    ensures
        has_unmarked_pred(g, done, w),
{
    let k = order.len() as int;
    if placed(order, k, w) {
        let i = choose|i: int| 0 <= i < k && i < order.len() && order[i] == w;
        assert(order.contains(w));
    }
    let u = choose|u: usize| #[trigger] edge(g, u, w) && !placed(order, k, u);
    let j = choose|j: int| 0 <= j < g[w as int].len() && g[w as int][j] == u;
    assert(g[w as int][j] < g.len());
    if done[u as int] {
        let i = choose|i: int| 0 <= i < order.len() && order[i] == u;
        assert(placed(order, k, u));
    }
}

/// Some node that must come before `w` is not marked.
spec fn has_unmarked_pred(g: Seq<Seq<usize>>, done: Seq<bool>, w: usize) -> bool {
    exists|u: usize| #[trigger] edge(g, u, w) && !done[u as int]
}

/// No unmarked node can be placed: each waits for another unmarked node.
spec fn stuck(g: Seq<Seq<usize>>, done: Seq<bool>) -> bool {
    forall|w: usize| w < g.len() && !done[w as int] ==> #[trigger] has_unmarked_pred(g, done, w)
}

/// A node that must come before `v` and is not marked.
fn unmarked_pred(graph: &DepGraph, done: &Vec<bool>, v: usize) -> (u: usize)
    requires
        well_formed(graph@),
        done.len() == graph@.len(),
        v < graph@.len(),
        has_unmarked_pred(graph@, done@, v),
    ensures
        edge(graph@, u, v),
        u < graph@.len(),
        !done@[u as int],
{
    let preds = &graph.preds[v];
    assert(preds@ == graph@[v as int]);
    let mut i: usize = 0;
    while i < preds.len()
        invariant
            well_formed(graph@),
            done.len() == graph@.len(),
            v < graph@.len(),
            preds@ == graph@[v as int],
            i <= preds.len(),
            forall|j: int| 0 <= j < i ==> done@[#[trigger] preds@[j] as int],
        decreases preds.len() - i,
    {
        let u = preds[i];
        assert(graph@[v as int][i as int] < graph@.len());
        if !done[u] {
            assert(edge(graph@, u, v));
            return u;
        }
        i += 1;
    }
    proof {
        let u = choose|u: usize| #[trigger] edge(graph@, u, v) && !done@[u as int];
        let j = choose|j: int| 0 <= j < preds@.len() && preds@[j] == u;
        assert(done@[preds@[j] as int]);
    }
    v
}

/// `path` is a walk against the constraints through unmarked nodes, each
/// of which must come before the one before it, and `seen` holds for each
/// node of the walk its place in it, counted from one, and zero for all
/// other nodes.
spec fn is_walk(g: Seq<Seq<usize>>, done: Seq<bool>, seen: Seq<usize>, path: Seq<usize>) -> bool {
    &&& done.len() == g.len()
    &&& seen.len() == g.len()
    &&& 1 <= path.len()
    &&& forall|j: int|
        0 <= j < path.len() ==> (#[trigger] path[j]) < g.len() && !done[path[j] as int]
            && seen[path[j] as int] == j + 1
    &&& forall|w: int|
        0 <= w < g.len() && #[trigger] seen[w] != 0 ==> seen[w] <= path.len() && path[seen[w] - 1]
            == w
    &&& forall|j: int| 0 <= j < path.len() - 1 ==> edge(g, path[j + 1], #[trigger] path[j])
}

/// A walk goes on to a node that it has not seen, and is then still
/// shorter than the graph is large.
proof fn lemma_walk_extends(
    g: Seq<Seq<usize>>,
    done: Seq<bool>,
    seen: Seq<usize>,
    path: Seq<usize>,
    u: usize,
)
    requires
        is_walk(g, done, seen, path),
        edge(g, u, path[path.len() - 1]),
        u < g.len(),
        !done[u as int],
        seen[u as int] == 0,
        g.len() <= usize::MAX,
    ensures
        path.len() < g.len(),
        is_walk(g, done, seen.update(u as int, (path.len() + 1) as usize), path.push(u)),
{
    let longer = path.push(u);
    assert forall|a: int, b: int|
        0 <= a < longer.len() && 0 <= b < longer.len() && a != b implies longer[a]
        != longer[b] by {
        if a < path.len() {
            assert(seen[path[a] as int] == a + 1);
        }
        if b < path.len() {
            assert(seen[path[b] as int] == b + 1);
        }
    }
    lemma_distinct_bounded(longer, g.len());
    let marked = seen.update(u as int, (path.len() + 1) as usize);
    assert forall|j: int| 0 <= j < longer.len() implies (#[trigger] longer[j]) < g.len()
        && !done[longer[j] as int] && marked[longer[j] as int] == j + 1 by {
        if j < path.len() {
            assert(seen[path[j] as int] == j + 1);
        }
    }
    assert forall|w: int| 0 <= w < g.len() && #[trigger] marked[w] != 0 implies marked[w]
        <= longer.len() && longer[marked[w] - 1] == w by {
        if w != u {
            assert(seen[w] != 0);
        }
    }
    assert forall|j: int| 0 <= j < longer.len() - 1 implies edge(
        g,
        longer[j + 1],
        #[trigger] longer[j],
    ) by {
        if j < path.len() - 1 {
            assert(edge(g, path[j + 1], path[j]));
        }
    }
}

/// A walk that comes to a node that it has seen closes a cycle: the walk
/// from that node on, read backwards.
proof fn lemma_walk_closes(
    g: Seq<Seq<usize>>,
    done: Seq<bool>,
    seen: Seq<usize>,
    path: Seq<usize>,
    u: usize,
    c: Seq<usize>,
)
    requires
        is_walk(g, done, seen, path),
        edge(g, u, path[path.len() - 1]),
        u < g.len(),
        seen[u as int] != 0,
        c.len() == path.len() - (seen[u as int] - 1),
        forall|j: int| 0 <= j < c.len() ==> c[j] == path[path.len() - 1 - j],
    ensures
        is_cycle(g, c),
{
    let from = seen[u as int] - 1;
    assert(path[from] == u);
    assert forall|j: int| 0 <= j < c.len() - 1 implies edge(g, #[trigger] c[j], c[j + 1]) by {
        assert(edge(g, path[(path.len() - 2 - j) + 1], path[path.len() - 2 - j]));
    }
}

/// Walks from `start` against the constraints, from each node to one that
/// must come before it, until it meets a node of the walk again.
fn find_cycle(graph: &DepGraph, done: &Vec<bool>, start: usize) -> (cycle: Vec<usize>)
    requires
        well_formed(graph@),
        done.len() == graph@.len(),
        start < graph@.len(),
        !done@[start as int],
        stuck(graph@, done@),
    ensures
        is_cycle(graph@, cycle@),
{
    let n = done.len();
    let mut seen: Vec<usize> = Vec::new();
    let mut i: usize = 0;
    while i < n
        invariant
            i <= n,
            seen.len() == i,
            forall|j: int| 0 <= j < i ==> seen@[j] == 0,
        decreases n - i,
    {
        seen.push(0);
        i += 1;
    }
    let mut path: Vec<usize> = Vec::new();
    path.push(start);
    seen.set(start, 1);
    loop
        invariant
            n == graph@.len(),
            well_formed(graph@),
            stuck(graph@, done@),
            is_walk(graph@, done@, seen@, path@),
            path.len() <= n,
        decreases n - path.len(),
    {
        let len = path.len();
        let v = path[len - 1];
        assert(has_unmarked_pred(graph@, done@, v));
        let u = unmarked_pred(graph, done, v);
        if seen[u] != 0 {
            let from = seen[u] - 1;
            let mut cycle: Vec<usize> = Vec::new();
            let mut t: usize = len;
            while t > from
                invariant
                    from <= t <= len,
                    len == path.len(),
                    cycle.len() == len - t,
                    forall|j: int| 0 <= j < cycle.len() ==> cycle@[j] == path@[len - 1 - j],
                decreases t,
            {
                t -= 1;
                cycle.push(path[t]);
            }
            proof {
                lemma_walk_closes(graph@, done@, seen@, path@, u, cycle@);
            }
            return cycle;
        }
        proof {
            lemma_walk_extends(graph@, done@, seen@, path@, u);
        }
        seen.set(u, len + 1);
        path.push(u);
    }
}

/// Puts the nodes of the graph into their schedule, or finds a cycle.
///
/// The schedule exists exactly if the graph has no cycle. A cycle is
/// reported in the order of its constraints: each node must come before
/// the next, and the last before the first.
pub fn schedule(graph: &DepGraph, keys: &Vec<SortKey>) -> (r: Result<Vec<usize>, Vec<usize>>)
    requires
        well_formed(graph@),
        keys.len() == graph@.len(),
        distinct_names(key_models(keys@)),
    ensures
        match r {
            Ok(order) => is_schedule(graph@, key_models(keys@), order@),
            Err(cycle) => is_cycle(graph@, cycle@),
        },
        r is Ok <==> !has_cycle(graph@),
{
    let n = graph.preds.len();
    let ghost km = key_models(keys@);
    let mut done: Vec<bool> = Vec::new();
    let mut i: usize = 0;
    while i < n
        invariant
            i <= n,
            done.len() == i,
            forall|j: int| 0 <= j < i ==> !done@[j],
        decreases n - i,
    {
        done.push(false);
        i += 1;
    }
    let mut order: Vec<usize> = Vec::new();
    while order.len() < n
        invariant
            n == graph@.len(),
            km == key_models(keys@),
            well_formed(graph@),
            keys.len() == graph@.len(),
            distinct_names(km),
            marks(graph@, done@, order@),
            is_partial_schedule(graph@, km, order@),
            order.len() <= n,
        decreases n - order.len(),
    {
        let ghost before = order@;
        match pick_next(graph, keys, &done, Ghost(order@)) {
            Some(v) => {
                order.push(v);
                done.set(v, true);
                proof {
                    assert forall|k: int| 0 <= k < order@.len() implies is_next(
                        graph@,
                        km,
                        order@,
                        k,
                        #[trigger] order@[k],
                    ) by {
                        if k < before.len() {
                            assert(is_next(graph@, km, before, k, before[k]));
                        }
                        lemma_next_extends(graph@, km, before, order@, k, order@[k]);
                    }
                    assert forall|w: usize| w < graph@.len() implies (#[trigger] done@[w as int]
                        <==> order@.contains(w)) by {
                        if w == v {
                            assert(order@[before.len() as int] == v);
                        } else {
                            if before.contains(w) {
                                let i = choose|i: int| 0 <= i < before.len() && before[i] == w;
                                assert(order@[i] == w);
                            }
                            if order@.contains(w) {
                                let i = choose|i: int| 0 <= i < order@.len() && order@[i] == w;
                                assert(before[i] == w);
                            }
                        }
                    }
                }
            },
            None => {
                let mut start: usize = 0;
                while start < n && done[start]
                    invariant
                        n == done.len(),
                        start <= n,
                        forall|j: int| 0 <= j < start ==> done@[j],
                    decreases n - start,
                {
                    start += 1;
                }
                proof {
                    if start == n {
                        assert forall|v: usize| v < n implies order@.contains(v) by {
                            assert(done@[v as int]);
                        }
                        lemma_covering_long(order@, n as nat);
                    }
                    assert forall|w: usize| w < graph@.len() && !done@[w as int] implies #[trigger]
                        has_unmarked_pred(graph@, done@, w) by {
                        lemma_waits(graph@, done@, order@, w);
                    }
                }
                let cycle = find_cycle(graph, &done, start);
                proof {
                    assert(has_cycle(graph@));
                }
                return Err(cycle);
            },
        }
    }
    proof {
        lemma_schedule_acyclic(graph@, km, order@);
    }
    Ok(order)
}

} // verus!
