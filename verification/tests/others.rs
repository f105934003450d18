use sql_entity_graph::aggregate::IntegerAvgState;
use sql_entity_graph::animals::{add_animal, known_animals, make_animals};
use sql_entity_graph::error::SqlGraphError;
use sql_entity_graph::run::{
    plan_run, psql_arguments, reusing_message, RunError, RunPlan, VersionChoice,
};
use sql_entity_graph::varlena::{
    varatt_is_1b, varatt_is_1b_e, varatt_is_4b, varatt_is_4b_u, varatt_is_b8_c, varlena_form,
    varsize, varsize_1b, varsize_4b, vartag_is_expanded, vartag_is_known, vartag_size,
    VarlenaForm, VartagLayout,
};

#[test]
fn test_integer_avg_state() {
    let avg_state = IntegerAvgState::default();
    let avg_state = IntegerAvgState::state(avg_state, 1);
    let avg_state = IntegerAvgState::state(avg_state, 2);
    let avg_state = IntegerAvgState::state(avg_state, 3);
    assert_eq!(2, IntegerAvgState::finalize(avg_state),);
}

#[test]
fn average_rounds_towards_zero() {
    assert_eq!(IntegerAvgState::finalize(IntegerAvgState::new(7, 2)), 3);
    assert_eq!(IntegerAvgState::finalize(IntegerAvgState::new(-7, 2)), -3);
    assert_eq!(IntegerAvgState::finalize(IntegerAvgState::new(7, -2)), -3);
    assert_eq!(IntegerAvgState::finalize(IntegerAvgState::new(-7, -2)), 3);
    assert_eq!(IntegerAvgState::finalize(IntegerAvgState::new(0, -5)), 0);
    assert_eq!(IntegerAvgState::finalize(IntegerAvgState::new(i32::MIN, 1)), i32::MIN);
    assert_eq!(IntegerAvgState::finalize(IntegerAvgState::new(i32::MIN, -2)), 1073741824);
    assert_eq!(IntegerAvgState::finalize(IntegerAvgState::new(i32::MAX, -1)), -i32::MAX);
}

#[test]
fn state_adds_and_counts() {
    let s = IntegerAvgState::state(IntegerAvgState::new(10, 4), -25);
    assert_eq!((s.sum(), s.n()), (-15, 5));
    let s = IntegerAvgState::state(IntegerAvgState::new(i32::MAX - 1, i32::MAX - 1), 1);
    assert_eq!(s, IntegerAvgState::new(i32::MAX, i32::MAX));
    assert_eq!(IntegerAvgState::default(), IntegerAvgState::new(0, 0));
}

#[test]
fn input_reads_sum_and_count() {
    assert_eq!(IntegerAvgState::input(b"0,0"), Some(IntegerAvgState::new(0, 0)));
    assert_eq!(IntegerAvgState::input(b"6,3"), Some(IntegerAvgState::new(6, 3)));
    assert_eq!(IntegerAvgState::input(b"-12,+4"), Some(IntegerAvgState::new(-12, 4)));
    assert_eq!(IntegerAvgState::input(b"007,000"), Some(IntegerAvgState::new(7, 0)));
    assert_eq!(IntegerAvgState::input(b"1,2,junk"), Some(IntegerAvgState::new(1, 2)));
    assert_eq!(
        IntegerAvgState::input(b"2147483647,-2147483648"),
        Some(IntegerAvgState::new(i32::MAX, i32::MIN))
    );
}

#[test]
fn input_refuses_what_is_not_two_numbers() {
    for bad in [
        &b""[..],
        b"1",
        b",",
        b"1,",
        b",1",
        b"1;2",
        b" 1,2",
        b"1, 2",
        b"1,2 ",
        b"+,1",
        b"-,1",
        b"1,-",
        b"--1,2",
        b"1.5,2",
        b"2147483648,1",
        b"1,-2147483649",
        b"99999999999999999999,1",
        b"1,0x10",
    ] {
        assert_eq!(IntegerAvgState::input(bad), None, "{:?}", bad);
    }
}

#[test]
fn output_writes_sum_and_count() {
    assert_eq!(IntegerAvgState::new(0, 0).output(), "0,0");
    assert_eq!(IntegerAvgState::new(6, 3).output(), "6,3");
    assert_eq!(IntegerAvgState::new(-12, 4).output(), "-12,4");
    assert_eq!(IntegerAvgState::new(i32::MAX, i32::MIN).output(), "2147483647,-2147483648");
    let state = IntegerAvgState::new(-305, 17);
    assert_eq!(IntegerAvgState::input(state.output().as_bytes()), Some(state));
}

#[test]
fn known_animals_are_three() {
    let animals = known_animals();
    assert_eq!(animals.names(), &vec!["Sally".to_string(), "Brandy".to_string(), "anchovy".to_string()]);
    assert_eq!(animals.name_of_age(5), Some(&"Sally".to_string()));
    assert_eq!(animals.name_of_age(4), Some(&"Brandy".to_string()));
    assert_eq!(animals.name_of_age(3), Some(&"anchovy".to_string()));
    assert_eq!(animals.name_of_age(2), None);
}

#[test]
fn made_animals_are_those_given() {
    let animals = make_animals(
        vec![Some("Sally".to_string()), Some("Brandy".to_string()), Some("anchovy".to_string())],
        vec![Some(5), Some(4), Some(3)],
    );
    assert_eq!(animals, known_animals());
    let none = make_animals(vec![], vec![]);
    assert!(none.names().is_empty());
    assert_eq!(none.name_of_age(0), None);
}

#[test]
fn later_animal_takes_the_age() {
    let animals = make_animals(
        vec![Some("a".to_string()), Some("b".to_string())],
        vec![Some(1), Some(1)],
    );
    assert_eq!(animals.names(), &vec!["a".to_string(), "b".to_string()]);
    assert_eq!(animals.name_of_age(1), Some(&"b".to_string()));
    let animals = add_animal(animals, "c".to_string(), 1);
    assert_eq!(animals.names().len(), 3);
    assert_eq!(animals.name_of_age(1), Some(&"c".to_string()));
    let animals = add_animal(animals, "d".to_string(), -7);
    assert_eq!(animals.name_of_age(-7), Some(&"d".to_string()));
    assert_eq!(animals.name_of_age(1), Some(&"c".to_string()));
}

#[test]
fn run_takes_a_known_version() {
    assert_eq!(
        plan_run(Some("pg13".to_string()), Some("db".to_string()), true),
        Ok(RunPlan {
            version: VersionChoice::Given("pg13".to_string()),
            dbname: Some("db".to_string())
        })
    );
    assert_eq!(
        plan_run(Some("pg13".to_string()), None, true),
        Ok(RunPlan { version: VersionChoice::Given("pg13".to_string()), dbname: None })
    );
}

#[test]
fn run_takes_an_unknown_version_for_the_database() {
    assert_eq!(
        plan_run(Some("mydb".to_string()), None, false),
        Ok(RunPlan { version: VersionChoice::Default, dbname: Some("mydb".to_string()) })
    );
    assert_eq!(
        plan_run(Some("pg9".to_string()), Some("db".to_string()), false),
        Err(RunError::UnknownVersion("pg9".to_string()))
    );
}

#[test]
fn run_defaults_without_a_version() {
    assert_eq!(
        plan_run(None, Some("db".to_string()), false),
        Ok(RunPlan { version: VersionChoice::Default, dbname: Some("db".to_string()) })
    );
    assert_eq!(plan_run(None, None, true), Ok(RunPlan { version: VersionChoice::Default, dbname: None }));
}

#[test]
fn client_arguments_name_host_port_and_database() {
    assert_eq!(psql_arguments("localhost", 28813, "db"), vec!["-h", "localhost", "-p", "28813", "db"]);
    assert_eq!(psql_arguments("", 0, ""), vec!["-h", "", "-p", "0", ""]);
    assert_eq!(psql_arguments("h", 65535, "d")[3], "65535");
}

#[test]
fn sizes_are_read_from_the_upper_bits() {
    assert_eq!(varsize_4b(0), 0);
    assert_eq!(varsize_4b(0x0000_0010), 4);
    assert_eq!(varsize_4b(0x0000_0013), 4);
    assert_eq!(varsize_4b(u32::MAX), 0x3FFF_FFFF);
    assert_eq!(varsize(0x0000_0400), 256);
    assert_eq!(varsize_1b(0x01), 0);
    assert_eq!(varsize_1b(0x0b), 5);
    assert_eq!(varsize_1b(0xff), 127);
    assert_eq!(varsize_1b(0xfe), 127);
}

#[test]
fn forms_are_read_from_the_lowest_bits() {
    for header in 0..=255u8 {
        assert_eq!(varatt_is_4b(header), header & 1 == 0);
        assert_eq!(varatt_is_4b_u(header), header & 3 == 0);
        assert_eq!(varatt_is_b8_c(header), header & 3 == 2);
        assert_eq!(varatt_is_1b(header), header & 1 == 1);
        assert_eq!(varatt_is_1b_e(header), header == 1);
    }
    assert_eq!(varlena_form(0x01), VarlenaForm::External);
    assert_eq!(varlena_form(0x03), VarlenaForm::Short);
    assert_eq!(varlena_form(0xff), VarlenaForm::Short);
    assert_eq!(varlena_form(0x00), VarlenaForm::Long);
    assert_eq!(varlena_form(0x02), VarlenaForm::Long);
}

#[test]
fn errors_have_messages() {
    assert_eq!(SqlGraphError::DuplicateEntity("a".to_string()).message(), "duplicate entity `a`");
    assert_eq!(
        SqlGraphError::UnresolvedReference("a".to_string(), "b".to_string()).message(),
        "unresolved reference `b` in `a`"
    );
    assert_eq!(
        SqlGraphError::CyclicDependency(vec!["a".to_string(), "b".to_string()]).message(),
        "cyclic dependency: a -> b -> a"
    );
    assert_eq!(SqlGraphError::CyclicDependency(vec![]).message(), "cyclic dependency: ");
    assert_eq!(
        SqlGraphError::MalformedDeclaration("Table".to_string()).message(),
        "malformed declaration `Table`: can only declare `Type(Ident)`, `Enum(Ident)` or `Function(Ident)`"
    );
    assert_eq!(SqlGraphError::EmptyIdentifier.message(), "empty identifier");
}

#[test]
fn reused_database_is_announced_in_bold_cyan() {
    assert_eq!(
        reusing_message("mydb"),
        "\u{1b}[36m\u{1b}[1m    Re-using\u{1b}[0m\u{1b}[39m existing database mydb"
    );
    assert_eq!(
        reusing_message(""),
        "\u{1b}[36m\u{1b}[1m    Re-using\u{1b}[0m\u{1b}[39m existing database "
    );
}

#[test]
fn tags_give_the_size_of_what_follows() {
    let layout = VartagLayout {
        indirect: 1,
        expanded_ro: 2,
        ondisk: 18,
        size_indirect: 8,
        size_expanded: 9,
        size_ondisk: 16,
    };
    assert!(vartag_is_expanded(2, 2));
    assert!(vartag_is_expanded(3, 2));
    assert!(!vartag_is_expanded(1, 2));
    assert!(!vartag_is_expanded(4, 2));
    assert!(!vartag_is_expanded(u32::MAX, 2));
    assert!(vartag_is_expanded(u32::MAX, u32::MAX - 1));
    for tag in [1, 2, 3, 18] {
        assert!(vartag_is_known(tag, &layout));
    }
    for tag in [0, 4, 17, 19, u32::MAX] {
        assert!(!vartag_is_known(tag, &layout));
    }
    assert_eq!(vartag_size(1, &layout), 8);
    assert_eq!(vartag_size(2, &layout), 9);
    assert_eq!(vartag_size(3, &layout), 9);
    assert_eq!(vartag_size(18, &layout), 16);
}
