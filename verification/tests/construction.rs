use fuko::amount::Amount;
use fuko::date::Date;
use fuko::error::BuildError;
use fuko::graph::Sink;
use fuko::value::FukoValue;

fn amt(n: u64) -> Amount {
    Amount::from_u64(n)
}

#[test]
fn dated_balances_later_period_wins() {
    let mut fv = FukoValue::new();
    fv.declare_balance(Date::from("2024-01"), "X", amt(10));
    fv.declare_balance(Date::from("2024-02"), "X", amt(20));
    assert!(fv.graph.sinks[0].balance.same(&amt(20)));
    assert_eq!(fv.graph.sinks[0].date, Some(Date { year: 2024, month: 2 }));
    assert_eq!(fv.graph.sinks.len(), 1);
}

#[test]
fn dated_balances_earlier_or_same_period_is_ignored() {
    let mut fv = FukoValue::new();
    fv.declare_balance(Date::from("2024-02"), "X", amt(20));
    fv.declare_balance(Date::from("2024-01"), "X", amt(10));
    fv.declare_balance(Date::from("2024-02"), "X", amt(30));
    fv.declare_balance(Date::from("2023-12"), "X", amt(40));
    assert!(fv.graph.sinks[0].balance.same(&amt(20)));
    assert_eq!(fv.graph.sinks[0].date, Some(Date { year: 2024, month: 2 }));
}

#[test]
fn sink_declared_twice_is_refused() {
    let mut fv = FukoValue::new();
    assert!(fv.declare_sink("X", amt(30), false).is_ok());
    let again = fv.declare_sink("X", amt(40), true);
    assert!(matches!(again, Err(BuildError::RecipientDeclaredTwice)));
    assert_eq!(again.unwrap_err().to_string(), "recipient declared twice");
    assert_eq!(fv.graph.sinks.len(), 1);
    assert!(fv.graph.sinks[0].capacity.same(&amt(30)));
    assert!(!fv.graph.sinks[0].ask_for_balance);
}

#[test]
fn sink_declared_after_mention_is_refused() {
    let mut fv = FukoValue::new();
    let _ = fv.add_sink_node("X", Amount::infinity());
    assert!(matches!(fv.declare_sink("X", amt(30), false), Err(BuildError::RecipientDeclaredTwice)));
    assert!(fv.graph.sinks[0].capacity.is_infinite());
}

#[test]
fn source_declared_twice_is_refused() {
    let mut fv = FukoValue::new();
    assert!(fv.declare_source("A", amt(100)).is_ok());
    let again = fv.declare_source("A", amt(5));
    assert!(matches!(again, Err(BuildError::SenderDeclaredTwice)));
    assert_eq!(again.unwrap_err().to_string(), "sender declared twice");
    assert!(fv.graph.sources[0].amount.same(&amt(100)));
    assert_eq!(fv.graph.sources.len(), 1);
}

#[test]
fn source_declared_with_nothing_is_declared_all_the_same() {
    let mut fv = FukoValue::new();
    fv.attach_route("A", vec![]);
    assert!(!fv.graph.sources[0].declared);
    assert!(fv.declare_source("A", amt(0)).is_ok());
    assert!(fv.graph.sources[0].declared);
    let again = fv.declare_source("A", amt(7));
    assert!(matches!(again, Err(BuildError::SenderDeclaredTwice)));
    assert!(fv.graph.sources[0].amount.is_zero());
    assert_eq!(fv.source_names, vec!["A".to_string()]);
}

#[test]
fn missing_balance_names_the_first_sink() {
    let mut fv = FukoValue::new();
    assert!(fv.declare_sink("rent", amt(30), true).is_ok());
    assert!(fv.declare_sink("food", amt(10), true).is_ok());
    assert!(fv.declare_sink("fun", amt(10), false).is_ok());
    fv.declare_balance(Date { year: 2024, month: 3 }, "rent", amt(1));
    let r = fv.validate();
    match r {
        Err(BuildError::MissingBalance(name)) => assert_eq!(name, "food"),
        _ => panic!("a sink without its balance must be reported"),
    }
    let text = BuildError::MissingBalance("food".to_string()).to_string();
    assert_eq!(text, "please provide a balance for food\n\ne.g.:\nYYYY-MM food had 10");
    fv.declare_balance(Date { year: 2024, month: 3 }, "food", amt(0));
    assert!(fv.validate().is_ok());
}

#[test]
fn set_sink_keeps_the_first_sink_of_a_name() {
    let mut fv = FukoValue::new();
    let first = Sink {
        capacity: amt(1),
        balance: amt(0),
        add_amount: amt(0),
        date: None,
        ask_for_balance: false,
    };
    let second = Sink {
        capacity: amt(2),
        balance: amt(0),
        add_amount: amt(0),
        date: None,
        ask_for_balance: true,
    };
    assert!(fv.set_sink("X", first));
    assert!(!fv.set_sink("X", second));
    assert_eq!(fv.sink_names, vec!["X".to_string()]);
    assert!(fv.graph.sinks[0].capacity.same(&amt(1)));
}

#[test]
fn names_get_indices_in_order_of_first_mention() {
    let mut fv = FukoValue::new();
    assert_eq!(fv.get_or_insert_sink("X"), 0);
    assert_eq!(fv.get_or_insert_sink("Y"), 1);
    assert_eq!(fv.get_or_insert_sink("X"), 0);
    assert_eq!(fv.get_or_insert_source("X"), 0);
    assert_eq!(fv.get_or_insert_source("B"), 1);
    assert_eq!(fv.graph.sinks.len(), 2);
    assert_eq!(fv.graph.sources.len(), 2);
    assert!(fv.graph.sinks[1].capacity.is_infinite());
    assert!(fv.graph.sinks[1].balance.is_zero());
    assert!(fv.graph.sources[1].amount.is_zero());
    assert!(fv.graph.sources[1].to.is_empty());
}

#[test]
fn nodes_are_numbered_as_they_are_added() {
    let mut fv = FukoValue::new();
    let x = fv.add_sink_node("X", amt(3));
    let y = fv.add_sink_node("Y", Amount::infinity());
    let e = fv.add_expr_node(vec![vec![x], vec![y]], amt(8));
    assert_eq!((x, y, e), (0, 1, 2));
    assert!(fv.knows_route(&vec![vec![0, 1], vec![2]]));
    assert!(!fv.knows_route(&vec![vec![0, 3]]));
    assert!(fv.knows_route(&vec![]));
    assert!(fv.graph.unaries[e].capacity.same(&amt(8)));
    assert!(fv.graph.unaries[e].amount.is_zero());
}

#[test]
fn ledger_rows_are_found_or_appended() {
    let mut book = fuko::book::Book::new();
    assert_eq!(book.get_transfer_or_insert(4), 0);
    assert_eq!(book.get_transfer_or_insert(2), 1);
    assert_eq!(book.get_transfer_or_insert(4), 0);
    assert_eq!(book.get_fraction_or_insert(2, 9), (1, 0));
    assert_eq!(book.get_fraction_or_insert(2, 7), (1, 1));
    assert_eq!(book.get_fraction_or_insert(2, 9), (1, 0));
    assert_eq!(book.get_fraction_or_insert(5, 9), (2, 0));
    assert_eq!(book.transfers.len(), 3);
    assert!(book.transfers[1].to[1].1.is_zero());
    assert_eq!(book.transfers[1].to[1].0, 7);
}
