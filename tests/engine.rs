use rsonpath::engine::main::{EngineOptions, MainEngine};
use rsonpath::error::{DepthError, EngineError};
use rsonpath::input::Input;
use rsonpath::query::{Automaton, AutomatonError, Label, State, StateTable};
use rsonpath::result::{CountResult, IndexResult, QueryResult};

fn table(transitions: &[(&str, u8)], fallback: u8, accepting: bool) -> StateTable {
    let transitions = transitions
        .iter()
        .map(|(label, target)| (Label::new(label.as_bytes()), State(*target)))
        .collect();
    StateTable::new(transitions, State(fallback), accepting)
}

fn engine(states: Vec<StateTable>) -> MainEngine {
    match Automaton::new(states, State(0)) {
        Ok(automaton) => MainEngine::from_compiled_query(automaton),
        Err(_) => panic!("invalid automaton"),
    }
}

fn engine_with(states: Vec<StateTable>, options: EngineOptions) -> MainEngine {
    match Automaton::new(states, State(0)) {
        Ok(automaton) => MainEngine::with_options(automaton, options),
        Err(_) => panic!("invalid automaton"),
    }
}

fn child_a_tables() -> Vec<StateTable> {
    vec![table(&[("a", 1)], 2, false), table(&[], 2, true), table(&[], 2, false)]
}

/// `$..<label>`
fn descendant(label: &str) -> MainEngine {
    engine(vec![
        table(&[(label, 1)], 0, false),
        table(&[(label, 1)], 0, true),
    ])
}

/// `$..a..b`
fn descendant_a_b() -> MainEngine {
    engine(vec![
        table(&[("a", 1)], 0, false),
        table(&[("a", 1), ("b", 2)], 1, false),
        table(&[("a", 1), ("b", 2)], 1, true),
    ])
}

/// `$..x[*]`
fn descendant_x_wildcard() -> MainEngine {
    engine(vec![
        table(&[("x", 1)], 0, false),
        table(&[("x", 3)], 2, false),
        table(&[("x", 1)], 0, true),
        table(&[("x", 3)], 2, true),
    ])
}

/// `$`
fn root() -> MainEngine {
    engine(vec![table(&[], 0, true)])
}

/// `$.a`
fn child_a() -> MainEngine {
    engine(vec![
        table(&[("a", 1)], 2, false),
        table(&[], 2, true),
        table(&[], 2, false),
    ])
}

fn indices(engine: &MainEngine, json: &str) -> Result<Vec<usize>, EngineError> {
    let input = Input::new(json.as_bytes());
    engine.run::<IndexResult>(&input).map(|r| r.get().clone())
}

#[test]
fn descendant_label_reports_colons() {
    assert_eq!(indices(&descendant("a"), r#"{"a":1,"b":{"a":2}}"#), Ok(vec![4, 15]));
}

#[test]
fn nested_descendants() {
    assert_eq!(indices(&descendant_a_b(), r#"{"a":{"b":1,"c":{"b":2}}}"#), Ok(vec![9, 20]));
}

#[test]
fn descendant_with_list_value() {
    assert_eq!(indices(&descendant("x"), r#"{"y":{"x":[1,2,3]}}"#), Ok(vec![9]));
}

#[test]
fn wildcard_over_list_elements() {
    assert_eq!(indices(&descendant_x_wildcard(), r#"{"x":[10,20,30]}"#), Ok(vec![6, 9, 12]));
}

#[test]
fn colon_inside_string_is_ignored() {
    assert_eq!(indices(&descendant("a"), r#""\"a\":1""#), Ok(vec![]));
}

#[test]
fn root_query() {
    assert_eq!(indices(&root(), "{}"), Ok(vec![0]));
    assert_eq!(indices(&root(), ""), Ok(vec![]));
}

#[test]
fn root_query_skips_leading_whitespace() {
    assert_eq!(indices(&root(), "  [1]"), Ok(vec![2]));
}

#[test]
fn count_result_counts_reports() {
    let input = Input::new(r#"{"a":1,"b":{"a":2}}"#.as_bytes());
    let result = descendant("a").run::<CountResult>(&input);
    assert_eq!(result.map(|r| r.get()).ok(), Some(2));
}

#[test]
fn single_element_list_reports_its_first_byte() {
    assert_eq!(indices(&descendant_x_wildcard(), r#"{"x":[ 7 ]}"#), Ok(vec![7]));
    assert_eq!(indices(&descendant_x_wildcard(), r#"{"x":[ ]}"#), Ok(vec![]));
}

#[test]
fn unitary_state_stops_after_match() {
    assert_eq!(indices(&child_a(), r#"{"a":1,"b":2}"#), Ok(vec![4]));
}

#[test]
fn rejecting_fallback_skips_container() {
    assert_eq!(indices(&child_a(), r#"{"b":{"a":1},"a":2}"#), Ok(vec![16]));
}

#[test]
fn escaped_quote_before_label_is_not_a_match() {
    assert_eq!(indices(&descendant("a"), r#"{"x\"a":1}"#), Ok(vec![]));
}

#[test]
fn unmatched_closing_is_an_error() {
    assert_eq!(
        indices(&descendant("a"), "}"),
        Err(EngineError::DepthBelowZero(0, DepthError::BelowZero))
    );
}

#[test]
fn truncated_input_is_an_error() {
    assert_eq!(indices(&descendant("a"), r#"{"a":1"#), Err(EngineError::MissingClosingCharacter()));
}

#[test]
fn colon_without_label_is_an_error() {
    assert_eq!(indices(&descendant("a"), "{:1}"), Err(EngineError::MalformedLabelQuotes(1)));
}

#[test]
fn depth_limit() {
    let deep_ok = format!("{}{}", "[".repeat(255), "]".repeat(255));
    assert_eq!(indices(&descendant("a"), &deep_ok), Ok(vec![]));
    let too_deep = format!("{}{}", "[".repeat(256), "]".repeat(256));
    assert_eq!(
        indices(&descendant("a"), &too_deep),
        Err(EngineError::DepthAboveLimit(255, DepthError::AboveLimit(255)))
    );
}

#[test]
fn automaton_validation() {
    let too_many: Vec<StateTable> = (0..257).map(|_| table(&[], 0, false)).collect();
    match Automaton::new(too_many, State(0)) {
        Err(AutomatonError::TooManyStates(e)) => {
            assert_eq!(e.feature(), "Large Automaton Queries");
            assert!(!e.is_planned());
        }
        _ => panic!("expected too many states"),
    }
    assert!(matches!(
        Automaton::new(vec![table(&[("a", 3)], 0, false)], State(0)),
        Err(AutomatonError::InvalidState)
    ));
    assert!(matches!(
        Automaton::new(vec![table(&[], 1, false)], State(0)),
        Err(AutomatonError::InvalidState)
    ));
    assert!(matches!(Automaton::new(vec![], State(0)), Err(AutomatonError::InvalidState)));
}

#[test]
fn automaton_state_attributes() {
    let automaton = match Automaton::new(
        vec![table(&[("a", 1)], 2, false), table(&[], 2, true), table(&[], 2, false)],
        State(0),
    ) {
        Ok(a) => a,
        Err(_) => panic!("invalid automaton"),
    };
    assert!(automaton.is_unitary(State(0)));
    assert!(automaton.is_rejecting(State(2)));
    assert!(!automaton.is_rejecting(State(0)));
    assert!(automaton.has_transition_to_accepting(State(0)));
    assert!(!automaton.has_transition_to_accepting(State(1)));
    assert!(automaton.is_accepting(State(1)));
    assert!(!automaton.is_empty_query());
}

#[test]
fn results_start_empty() {
    let index = IndexResult::new();
    assert!(index.get().is_empty());
    let mut count = CountResult::new();
    count.report(3);
    count.report(3);
    assert_eq!(count.get(), 2);
}

#[test]
fn optimisations_do_not_change_results() {
    let documents = [
        r#"{"a":1,"b":2}"#,
        r#"{"b":{"a":1},"a":2}"#,
        r#"{"b":[{"a":1}],"c":{"d":{"a":3}},"a":[1,{"a":2}]}"#,
        r#"{"a":{"a":{"a":1}},"x":"\"a\":"}"#,
    ];
    let option_sets = [
        EngineOptions::all(),
        EngineOptions::none(),
        EngineOptions { tail_skip: true, unique_labels: false },
    ];
    for json in documents {
        let expected = indices(&engine_with(child_a_tables(), EngineOptions::none()), json);
        for options in option_sets {
            assert_eq!(indices(&engine_with(child_a_tables(), options), json), expected, "{json}");
        }
    }
}

#[test]
fn unoptimised_child_query() {
    let none = engine_with(child_a_tables(), EngineOptions::none());
    assert_eq!(indices(&none, r#"{"b":{"a":1},"a":2}"#), Ok(vec![16]));
    assert_eq!(indices(&none, r#"{"a":{"a":1},"b":2}"#), Ok(vec![4]));
}

#[test]
fn descendant_person_number_count() {
    let engine = engine(vec![
        table(&[("person", 1)], 0, false),
        table(&[("person", 1), ("number", 2)], 1, false),
        table(&[("person", 1), ("number", 2)], 1, true),
    ]);
    let contents = r#"
{
  "person": {
    "name": "John",
    "surname": "Doe",
    "phoneNumbers": [
      {
        "type": "Home",
        "number": "111-222-333"
      },
      {
        "type": "Work",
        "number": "123-456-789"
      }
    ]
  }
}
"#;
    let input = Input::new(contents.as_bytes());
    let result = engine.run::<CountResult>(&input);
    assert_eq!(result.map(|r| r.get()).ok(), Some(2));
}
