use sql_entity_graph::declared::SqlDeclaredEntity;
use sql_entity_graph::entity::{ExtensionSqlEntity, Positioning, PositioningRef};
use sql_entity_graph::error::SqlGraphError;
use sql_entity_graph::registry::{Registry, RegistryHandle};
use sql_entity_graph::script::{build_sql, install_order, render};

fn descriptor(name: &'static str, line: u32) -> ExtensionSqlEntity {
    ExtensionSqlEntity {
        module: "ext",
        full_path: name,
        sql: "SELECT 1;",
        file: "src/lib.rs",
        line,
        name,
        bootstrap: false,
        finalize: false,
        requires: vec![],
        creates: vec![],
    }
}

fn needs(target: &str) -> PositioningRef {
    PositioningRef { relation: Positioning::Requires, target: target.to_string() }
}

fn goes_before(target: &str) -> PositioningRef {
    PositioningRef { relation: Positioning::Before, target: target.to_string() }
}

fn goes_after(target: &str) -> PositioningRef {
    PositioningRef { relation: Positioning::After, target: target.to_string() }
}

fn names(registry: &Registry, order: &[usize]) -> Vec<&'static str> {
    order
        .iter()
        .map(|i| registry.get(RegistryHandle { index: *i }).unwrap().name)
        .collect()
}

#[test]
fn register_returns_consecutive_handles() {
    let mut registry = Registry::new();
    assert_eq!(registry.len(), 0);
    assert_eq!(registry.register(descriptor("a", 1)), Ok(RegistryHandle { index: 0 }));
    assert_eq!(registry.register(descriptor("b", 2)), Ok(RegistryHandle { index: 1 }));
    assert_eq!(registry.len(), 2);
    assert!(registry.contains_name("a"));
    assert!(!registry.contains_name("c"));
}

#[test]
fn register_refuses_a_taken_name() {
    let mut registry = Registry::new();
    registry.register(descriptor("a", 1)).unwrap();
    let second = registry.register(descriptor("a", 7));
    assert_eq!(second, Err(SqlGraphError::DuplicateEntity("a".to_string())));
    assert_eq!(registry.len(), 1);
    assert_eq!(registry.get(RegistryHandle { index: 0 }).unwrap().line, 1);
    assert!(registry.get(RegistryHandle { index: 1 }).is_none());
}

#[test]
fn chain_from_bootstrap_to_finalize() {
    let mut registry = Registry::new();
    let mut bootstrap = descriptor("bootstrap", 40);
    bootstrap.bootstrap = true;
    let mut a = descriptor("A", 30);
    a.requires = vec![needs("bootstrap")];
    let mut b = descriptor("B", 20);
    b.requires = vec![needs("A")];
    let mut finalize = descriptor("finalize", 10);
    finalize.finalize = true;
    finalize.requires = vec![needs("B")];
    registry.register(finalize).unwrap();
    registry.register(b).unwrap();
    registry.register(a).unwrap();
    registry.register(bootstrap).unwrap();
    let order = install_order(&registry).unwrap();
    assert_eq!(names(&registry, &order), vec!["bootstrap", "A", "B", "finalize"]);
}

#[test]
fn anchors_sort_first_and_last() {
    let mut registry = Registry::new();
    let mut last = descriptor("zz_last", 1);
    last.finalize = true;
    let mut first = descriptor("zz_first", 99);
    first.bootstrap = true;
    registry.register(descriptor("m", 5)).unwrap();
    registry.register(last).unwrap();
    registry.register(descriptor("a", 3)).unwrap();
    registry.register(first).unwrap();
    let order = install_order(&registry).unwrap();
    assert_eq!(names(&registry, &order), vec!["zz_first", "a", "m", "zz_last"]);
}

#[test]
fn ties_break_by_file_then_line_then_name() {
    let mut registry = Registry::new();
    let mut x = descriptor("x", 10);
    x.file = "b.rs";
    let mut y = descriptor("y", 2);
    y.file = "b.rs";
    let mut z = descriptor("z", 50);
    z.file = "a.rs";
    let mut w = descriptor("w", 10);
    w.file = "b.rs";
    registry.register(x).unwrap();
    registry.register(y).unwrap();
    registry.register(z).unwrap();
    registry.register(w).unwrap();
    let order = install_order(&registry).unwrap();
    assert_eq!(names(&registry, &order), vec!["z", "y", "w", "x"]);
}

#[test]
fn before_and_after_give_opposite_edges() {
    let mut registry = Registry::new();
    let mut a = descriptor("a", 1);
    a.requires = vec![goes_after("c")];
    let mut c = descriptor("c", 3);
    c.requires = vec![goes_before("b")];
    registry.register(a).unwrap();
    registry.register(descriptor("b", 2)).unwrap();
    registry.register(c).unwrap();
    let order = install_order(&registry).unwrap();
    assert_eq!(names(&registry, &order), vec!["c", "a", "b"]);
}

#[test]
fn reference_through_a_declared_type() {
    let mut registry = Registry::new();
    let mut user = descriptor("a_user", 1);
    user.requires = vec![needs("core::option::Option<Widget>")];
    let mut maker = descriptor("maker", 2);
    maker.sql = "";
    maker.creates = vec![SqlDeclaredEntity::build("Type", "Widget").unwrap()];
    registry.register(user).unwrap();
    registry.register(maker).unwrap();
    let order = install_order(&registry).unwrap();
    assert_eq!(names(&registry, &order), vec!["maker", "a_user"]);
}

#[test]
fn anchor_tokens_resolve_to_the_anchors() {
    let mut registry = Registry::new();
    let mut start = descriptor("schema", 9);
    start.bootstrap = true;
    let mut end = descriptor("grants", 1);
    end.finalize = true;
    let mut a = descriptor("a", 5);
    a.requires = vec![needs("bootstrap"), goes_before("finalize")];
    registry.register(a).unwrap();
    registry.register(end).unwrap();
    registry.register(start).unwrap();
    let order = install_order(&registry).unwrap();
    assert_eq!(names(&registry, &order), vec!["schema", "a", "grants"]);
}

#[test]
fn anchor_token_without_anchor_is_unresolved() {
    let mut registry = Registry::new();
    let mut a = descriptor("a", 5);
    a.requires = vec![needs("bootstrap")];
    registry.register(a).unwrap();
    assert_eq!(
        build_sql(&registry),
        Err(SqlGraphError::UnresolvedReference("a".to_string(), "bootstrap".to_string()))
    );
}

#[test]
fn unresolved_reference_is_reported() {
    let mut registry = Registry::new();
    let mut a = descriptor("a", 1);
    a.requires = vec![needs("b"), needs("nowhere"), needs("elsewhere")];
    registry.register(a).unwrap();
    registry.register(descriptor("b", 2)).unwrap();
    let expected = SqlGraphError::UnresolvedReference("a".to_string(), "nowhere".to_string());
    assert_eq!(install_order(&registry), Err(expected.clone()));
    assert_eq!(build_sql(&registry), Err(expected));
}

#[test]
fn own_name_is_not_another_descriptor() {
    let mut registry = Registry::new();
    let mut a = descriptor("a", 1);
    a.requires = vec![needs("a")];
    registry.register(a).unwrap();
    assert_eq!(
        install_order(&registry),
        Err(SqlGraphError::UnresolvedReference("a".to_string(), "a".to_string()))
    );
}

#[test]
fn mutual_requirement_is_a_cycle() {
    let mut registry = Registry::new();
    let mut a = descriptor("A", 1);
    a.requires = vec![needs("B")];
    let mut b = descriptor("B", 2);
    b.requires = vec![needs("A")];
    registry.register(a).unwrap();
    registry.register(b).unwrap();
    match build_sql(&registry) {
        Err(SqlGraphError::CyclicDependency(cycle)) => {
            assert_eq!(cycle.len(), 2);
            assert!(cycle.contains(&"A".to_string()));
            assert!(cycle.contains(&"B".to_string()));
        }
        other => panic!("expected a cycle, got {:?}", other),
    }
    assert!(matches!(install_order(&registry), Err(SqlGraphError::CyclicDependency(_))));
}

#[test]
fn cycle_is_reported_along_its_constraints() {
    let mut registry = Registry::new();
    let mut a = descriptor("a", 1);
    a.requires = vec![needs("c")];
    let mut b = descriptor("b", 2);
    b.requires = vec![needs("a")];
    let mut c = descriptor("c", 3);
    c.requires = vec![needs("b")];
    registry.register(a).unwrap();
    registry.register(b).unwrap();
    registry.register(c).unwrap();
    registry.register(descriptor("free", 4)).unwrap();
    match install_order(&registry) {
        Err(SqlGraphError::CyclicDependency(cycle)) => {
            assert_eq!(cycle.len(), 3);
            for i in 0..3 {
                let next = &cycle[(i + 1) % 3];
                let expected = match cycle[i].as_str() {
                    "a" => "b",
                    "b" => "c",
                    "c" => "a",
                    other => panic!("{} is not on the cycle", other),
                };
                assert_eq!(next, expected);
            }
        }
        other => panic!("expected a cycle, got {:?}", other),
    }
}

#[test]
fn two_anchors_in_one_descriptor_among_others_is_a_cycle() {
    let mut registry = Registry::new();
    let mut both = descriptor("both", 1);
    both.bootstrap = true;
    both.finalize = true;
    registry.register(both).unwrap();
    registry.register(descriptor("other", 2)).unwrap();
    assert!(matches!(build_sql(&registry), Err(SqlGraphError::CyclicDependency(_))));
}

#[test]
fn empty_registry_gives_an_empty_script() {
    let registry = Registry::new();
    assert_eq!(install_order(&registry), Ok(vec![]));
    assert_eq!(build_sql(&registry), Ok(String::new()));
}

#[test]
fn script_of_a_chain() {
    let mut registry = Registry::new();
    let mut bootstrap = descriptor("bootstrap", 3);
    bootstrap.bootstrap = true;
    bootstrap.sql = "CREATE SCHEMA s;";
    let mut a = descriptor("A", 12);
    a.sql = "CREATE TYPE s.widget;";
    a.requires = vec![needs("bootstrap")];
    a.creates = vec![
        SqlDeclaredEntity::build("Type", "ext::Widget").unwrap(),
        SqlDeclaredEntity::build("Function", "make_widget").unwrap(),
    ];
    let mut finalize = descriptor("finalize", 100);
    finalize.finalize = true;
    finalize.sql = "GRANT ALL ON SCHEMA s TO public;";
    finalize.requires = vec![needs("Vec<ext::Widget>"), goes_after("A")];
    registry.register(finalize).unwrap();
    registry.register(a).unwrap();
    registry.register(bootstrap).unwrap();
    let expected = "-- src/lib.rs:3\n\
                    -- bootstrap\n\
                    CREATE SCHEMA s;\n\
                    \n\
                    -- src/lib.rs:12\n\
                    -- creates:\n\
                    --   ext::Widget\n\
                    --   make_widget\n\
                    \n\
                    -- requires:\n\
                    --   bootstrap\n\
                    \n\
                    CREATE TYPE s.widget;\n\
                    \n\
                    -- src/lib.rs:100\n\
                    -- finalize\n\
                    -- requires:\n\
                    --   A\n\
                    --   A\n\
                    \n\
                    GRANT ALL ON SCHEMA s TO public;\n\
                    \n";
    assert_eq!(build_sql(&registry), Ok(expected.to_string()));
}

#[test]
fn script_is_the_same_on_every_run() {
    let mut registry = Registry::new();
    let mut a = descriptor("a", 1);
    a.requires = vec![needs("b")];
    registry.register(a).unwrap();
    registry.register(descriptor("b", 2)).unwrap();
    registry.register(descriptor("c", 0)).unwrap();
    let first = build_sql(&registry).unwrap();
    let second = build_sql(&registry).unwrap();
    assert_eq!(first, second);
    assert_eq!(
        first,
        "-- src/lib.rs:0\nSELECT 1;\n\n-- src/lib.rs:2\nSELECT 1;\n\n\
         -- src/lib.rs:1\n-- requires:\n--   b\n\nSELECT 1;\n\n"
    );
}

#[test]
fn render_follows_the_given_order() {
    let mut registry = Registry::new();
    registry.register(descriptor("a", 1)).unwrap();
    registry.register(descriptor("b", 4294967295)).unwrap();
    assert_eq!(
        render(&registry, &vec![1, 0, 1]),
        Ok("-- src/lib.rs:4294967295\nSELECT 1;\n\n-- src/lib.rs:1\nSELECT 1;\n\n\
            -- src/lib.rs:4294967295\nSELECT 1;\n\n"
            .to_string())
    );
    assert_eq!(render(&registry, &vec![]), Ok(String::new()));
}

#[test]
fn to_sql_resolves_in_its_context() {
    let mut registry = Registry::new();
    registry.register(descriptor("a", 1)).unwrap();
    let mut b = descriptor("b", 10);
    b.requires = vec![needs("a")];
    assert_eq!(
        b.to_sql(&registry),
        Ok("-- src/lib.rs:10\n-- requires:\n--   a\n\nSELECT 1;\n\n".to_string())
    );
    b.requires = vec![needs("a"), needs("missing")];
    assert_eq!(
        b.to_sql(&registry),
        Err(SqlGraphError::UnresolvedReference("b".to_string(), "missing".to_string()))
    );
}

const NAMES: [&str; 6] = ["n0", "n1", "n2", "n3", "n4", "n5"];
const FILES: [&str; 3] = ["a.rs", "b.rs", "c.rs"];

struct Lcg(u64);

impl Lcg {
    fn next(&mut self, bound: u64) -> u64 {
        self.0 = self.0.wrapping_mul(6364136223846793005).wrapping_add(1442695040888963407);
        (self.0 >> 33) % bound
    }
}

fn order_by_hand(entities: &[ExtensionSqlEntity]) -> Option<Vec<usize>> {
    let n = entities.len();
    let index = |name: &str| entities.iter().position(|e| e.name == name).unwrap();
    let mut edges = vec![];
    for (v, e) in entities.iter().enumerate() {
        for r in &e.requires {
            let t = index(&r.target);
            match r.relation {
                Positioning::Before => edges.push((v, t)),
                _ => edges.push((t, v)),
            }
        }
        for (u, other) in entities.iter().enumerate() {
            if (other.bootstrap && !e.bootstrap) || (!other.finalize && e.finalize) {
                edges.push((u, v));
            }
        }
    }
    let mut order = vec![];
    let mut placed = vec![false; n];
    while order.len() < n {
        let next = (0..n)
            .filter(|v| !placed[*v])
            .filter(|v| edges.iter().all(|(u, w)| w != v || placed[*u]))
            .min_by_key(|v| (entities[*v].file, entities[*v].line, entities[*v].name))?;
        placed[next] = true;
        order.push(next);
    }
    Some(order)
}

#[test]
fn order_is_that_of_placing_the_smallest_ready_descriptor() {
    let mut random = Lcg(7);
    let mut orders = 0;
    let mut cycles = 0;
    for _ in 0..400 {
        let n = 1 + random.next(6) as usize;
        let mut entities = vec![];
        for v in 0..n {
            let mut e = descriptor(NAMES[v], random.next(3) as u32);
            e.file = FILES[random.next(3) as usize];
            e.bootstrap = random.next(8) == 0;
            e.finalize = random.next(8) == 0;
            for _ in 0..random.next(3) {
                let t = random.next(n as u64) as usize;
                if t != v {
                    let relation = match random.next(3) {
                        0 => Positioning::Requires,
                        1 => Positioning::Before,
                        _ => Positioning::After,
                    };
                    e.requires.push(PositioningRef { relation, target: NAMES[t].to_string() });
                }
            }
            entities.push(e);
        }
        let mut registry = Registry::new();
        for e in &entities {
            registry.register(e.clone()).unwrap();
        }
        match (install_order(&registry), order_by_hand(&entities)) {
            (Ok(order), Some(expected)) => {
                assert_eq!(order, expected);
                orders += 1;
            }
            (Err(SqlGraphError::CyclicDependency(cycle)), None) => {
                assert!(!cycle.is_empty());
                assert!(build_sql(&registry).is_err());
                cycles += 1;
            }
            (got, expected) => panic!("got {:?}, expected {:?}", got, expected),
        }
    }
    assert!(orders > 50);
    assert!(cycles > 50);
}
