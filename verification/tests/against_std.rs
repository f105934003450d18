use sql_entity_graph::aggregate::IntegerAvgState;
use sql_entity_graph::declared::SqlDeclaredEntity;

fn words(alphabet: &[&str], max_parts: usize) -> Vec<String> {
    let mut all = vec![String::new()];
    let mut last = vec![String::new()];
    for _ in 0..max_parts {
        let mut next = Vec::new();
        for word in &last {
            for part in alphabet {
                next.push(format!("{}{}", word, part));
            }
        }
        all.extend(next.iter().cloned());
        last = next;
    }
    all
}

#[test]
fn sql_is_what_splitting_at_separators_leaves_last() {
    for name in words(&["a", ":", "é"], 7) {
        if name.is_empty() {
            continue;
        }
        let entity = SqlDeclaredEntity::build("Type", &name).unwrap();
        assert_eq!(entity.sql(), name.split("::").last().unwrap(), "{:?}", name);
    }
}

#[test]
fn numbers_read_as_the_standard_library_reads_them() {
    let tokens = words(&["0", "7", "+", "-", "x", " "], 4);
    let mut tokens: Vec<String> = tokens;
    for extra in [
        "2147483647",
        "2147483648",
        "-2147483648",
        "-2147483649",
        "+2147483647",
        "00000000000000000012",
        "4294967296",
        "99999999999",
        "-0",
        "+0",
    ] {
        tokens.push(extra.to_string());
    }
    for token in &tokens {
        let expected = token.parse::<i32>().ok();
        let input = format!("{},1", token);
        let read = IntegerAvgState::input(input.as_bytes()).map(|state| state.sum());
        assert_eq!(read, expected, "{:?}", token);
        let input = format!("1,{}", token);
        let read = IntegerAvgState::input(input.as_bytes()).map(|state| state.n());
        assert_eq!(read, expected, "{:?}", token);
    }
}

#[test]
fn numbers_are_written_as_the_standard_library_writes_them() {
    for v in [0, 1, -1, 9, 10, -10, 99, 100, 12345, -98765, i32::MAX, i32::MIN, i32::MIN + 1] {
        for n in [0, 3, -4, i32::MAX, i32::MIN] {
            assert_eq!(IntegerAvgState::new(v, n).output(), format!("{},{}", v, n));
        }
    }
}

fn spellings(name: &str) -> Vec<String> {
    vec![
        name.to_string(),
        format!("Option<{}>", name),
        format!("Vec<{}>", name),
        format!("Vec<Option<{}>>", name),
        format!("Option<Vec<{}>>", name),
        format!("Option<Vec<Option<{}>>>", name),
        format!("Array<{}>", name),
        format!("Option<Array<{}>>", name),
        format!("Varlena<{}>", name),
        format!("pgx::pgbox::PgBox<{}>", name),
        format!("pgx::pgbox::PgBox<{}, pgx::pgbox::AllocatedByRust>", name),
        format!("pgx::pgbox::PgBox<{}, pgx::pgbox::AllocatedByPostgres>", name),
    ]
}

fn matches_by_search(name: &str, candidate: &str) -> bool {
    let spellings = spellings(name);
    if spellings.iter().any(|s| s == candidate) {
        return true;
    }
    let generics_start = match candidate.find('<') {
        None => return false,
        Some(index) => index,
    };
    let qualification_end = match candidate[..generics_start].rfind("::") {
        None => return false,
        Some(index) => index,
    };
    let rest = &candidate[qualification_end + 2..];
    spellings.iter().any(|s| s == rest)
}

#[test]
fn matching_is_exact_or_after_taking_the_qualification_off() {
    let foo = SqlDeclaredEntity::build("Type", "Foo").unwrap();
    let scoped = SqlDeclaredEntity::build("Enum", "m::Foo").unwrap();
    let parts = ["Foo", "m", "::", ":", "<", ">", "Option<", "Vec<", "é"];
    for candidate in words(&parts, 5) {
        assert_eq!(foo.has_match(&candidate), matches_by_search("Foo", &candidate), "{:?}", candidate);
        assert_eq!(
            scoped.has_match(&candidate),
            matches_by_search("m::Foo", &candidate),
            "{:?}",
            candidate
        );
    }
    for prefix in ["", "a::", "a::b::", "::", ":::", "é::", "a:", "a<b>::"] {
        for spelling in spellings("Foo") {
            let candidate = format!("{}{}", prefix, spelling);
            assert_eq!(
                foo.has_match(&candidate),
                matches_by_search("Foo", &candidate),
                "{:?}",
                candidate
            );
        }
    }
}
