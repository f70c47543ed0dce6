use fuko::amount::Amount;
use fuko::book::Book;
use fuko::error::FlowError;
use fuko::graph::Step;
use fuko::model::StopReason;
use fuko::value::FukoValue;
use fuko::value::RunEnd;

fn amt(n: u64) -> Amount {
    Amount::from_u64(n)
}

fn ratio(n: u64, d: u64) -> Amount {
    amt(n).checked_div(&amt(d)).unwrap()
}

fn inflow(fv: &FukoValue, name: &str) -> Amount {
    let i = fv.sink_names.iter().position(|n| n == name).unwrap();
    fv.graph.sinks[i].add_amount.dup()
}

fn booked(fv: &FukoValue, from: &str, to: &str) -> Option<Amount> {
    let f = fv.source_names.iter().position(|n| n == from)?;
    let t = fv.sink_names.iter().position(|n| n == to)?;
    let tr = fv.book.transfers.iter().find(|tr| tr.from == f)?;
    tr.to.iter().find(|(k, _)| *k == t).map(|(_, a)| a.dup())
}

fn sum(amounts: Vec<Amount>) -> Amount {
    let mut total = amt(0);
    for a in amounts {
        total = total.add(&a);
    }
    total
}

#[test]
fn single_source_single_sink_no_caps() {
    let mut fv = FukoValue::new();
    assert!(fv.declare_source("A", amt(100)).is_ok());
    let x = fv.add_sink_node("X", Amount::infinity());
    fv.attach_route("A", vec![vec![x]]);
    assert!(fv.validate().is_ok());

    let step = fv.advance().unwrap().unwrap();
    assert!(step.amount.same(&amt(100)));
    assert_eq!(step.stop_reason, StopReason::SourceDepleted);
    assert_eq!(step.src_to_snks, vec![(0usize, vec![0usize])]);
    assert!(step.src_to_unaries[0].1.is_empty());
    assert!(fv.advance().unwrap().is_none());

    assert!(inflow(&fv, "X").same(&amt(100)));
    assert!(fv.graph.sources[0].amount.is_zero());
    assert_eq!(fv.book.transfers.len(), 1);
    assert_eq!(fv.book.transfers[0].to.len(), 1);
    assert!(booked(&fv, "A", "X").unwrap().same(&amt(100)));
}

#[test]
fn capacity_limited_fan_out() {
    let mut fv = FukoValue::new();
    assert!(fv.declare_sink("X", amt(30), false).is_ok());
    assert!(fv.declare_source("A", amt(100)).is_ok());
    let x = fv.add_sink_node("X", Amount::infinity());
    let y = fv.add_sink_node("Y", Amount::infinity());
    fv.attach_route("A", vec![vec![x, y]]);

    let first = fv.advance().unwrap().unwrap();
    assert!(first.amount.same(&amt(60)));
    assert_eq!(first.stop_reason, StopReason::SinkFull);
    assert!(inflow(&fv, "X").same(&amt(30)));
    assert!(inflow(&fv, "Y").same(&amt(30)));

    let second = fv.advance().unwrap().unwrap();
    assert!(second.amount.same(&amt(40)));
    assert_eq!(second.src_to_snks, vec![(0usize, vec![1usize])]);
    assert!(fv.advance().unwrap().is_none());

    assert!(inflow(&fv, "X").same(&amt(30)));
    assert!(inflow(&fv, "Y").same(&amt(70)));
    assert!(sum(vec![inflow(&fv, "X"), inflow(&fv, "Y")]).same(&amt(100)));
    assert!(fv.graph.sources[0].amount.is_zero());
}

#[test]
fn or_falls_back_to_the_next_group() {
    let mut fv = FukoValue::new();
    assert!(fv.declare_source("A", amt(50)).is_ok());
    let closed = fv.add_sink_node("X", amt(0));
    let open = fv.add_sink_node("Y", Amount::infinity());
    fv.attach_route("A", vec![vec![closed], vec![open]]);

    assert_eq!(fv.run(100), Ok(RunEnd::Converged));
    assert!(inflow(&fv, "X").is_zero());
    assert!(inflow(&fv, "Y").same(&amt(50)));
    assert!(booked(&fv, "A", "X").is_none());
    assert!(booked(&fv, "A", "Y").unwrap().same(&amt(50)));
}

#[test]
fn or_stops_at_the_first_group_that_is_open() {
    let mut fv = FukoValue::new();
    assert!(fv.declare_sink("X", amt(5), false).is_ok());
    assert!(fv.declare_source("A", amt(3)).is_ok());
    let small = fv.add_sink_node("X", Amount::infinity());
    let large = fv.add_sink_node("Y", Amount::infinity());
    fv.attach_route("A", vec![vec![small], vec![large]]);

    let (sinks, nodes, limit) = fv.graph.next_sinks(&fv.graph.sources[0].to, &amt(3));
    assert_eq!(sinks, vec![0usize]);
    assert!(nodes.is_empty());
    assert!(limit.is_infinite());

    assert_eq!(fv.run(100), Ok(RunEnd::Converged));
    assert!(inflow(&fv, "X").same(&amt(3)));
    assert!(inflow(&fv, "Y").is_zero());
}

#[test]
fn node_capacity_limits_the_step() {
    let mut fv = FukoValue::new();
    assert!(fv.declare_source("A", amt(100)).is_ok());
    let x = fv.add_sink_node("X", amt(10));
    let y = fv.add_sink_node("Y", Amount::infinity());
    fv.attach_route("A", vec![vec![x, y]]);

    let (sinks, nodes, limit) = fv.graph.next_sinks(&fv.graph.sources[0].to, &amt(100));
    assert_eq!(sinks, vec![0usize, 1usize]);
    assert_eq!(nodes, vec![(x, 1usize)]);
    assert!(limit.same(&amt(10)));

    let first = fv.advance().unwrap().unwrap();
    assert!(first.amount.same(&amt(20)));
    assert_eq!(first.stop_reason, StopReason::NodeFull);
    assert!(fv.graph.unaries[x].amount.same(&amt(10)));

    assert_eq!(fv.run(100), Ok(RunEnd::Converged));
    assert!(inflow(&fv, "X").same(&amt(10)));
    assert!(inflow(&fv, "Y").same(&amt(90)));
    assert!(fv.graph.unaries[x].amount.same(&amt(10)));
}

#[test]
fn nested_expression_feeds_all_its_sinks() {
    let mut fv = FukoValue::new();
    assert!(fv.declare_source("A", amt(90)).is_ok());
    let x = fv.add_sink_node("X", Amount::infinity());
    let y = fv.add_sink_node("Y", Amount::infinity());
    let inner = fv.add_expr_node(vec![vec![x, y]], Amount::infinity());
    let z = fv.add_sink_node("Z", Amount::infinity());
    fv.attach_route("A", vec![vec![inner, z]]);

    assert_eq!(fv.run(100), Ok(RunEnd::Converged));
    assert!(inflow(&fv, "X").same(&amt(30)));
    assert!(inflow(&fv, "Y").same(&amt(30)));
    assert!(inflow(&fv, "Z").same(&amt(30)));
}

#[test]
fn capped_nested_expression_records_how_many_sinks_it_feeds() {
    let mut fv = FukoValue::new();
    assert!(fv.declare_source("A", amt(9)).is_ok());
    let x = fv.add_sink_node("X", Amount::infinity());
    let y = fv.add_sink_node("Y", Amount::infinity());
    let inner = fv.add_expr_node(vec![vec![x, y]], amt(50));
    fv.attach_route("A", vec![vec![inner]]);

    let (sinks, nodes, limit) = fv.graph.next_sinks(&fv.graph.sources[0].to, &amt(9));
    assert_eq!(sinks, vec![0usize, 1usize]);
    assert_eq!(nodes, vec![(inner, 2usize)]);
    assert!(limit.same(&amt(25)));

    assert_eq!(fv.run(100), Ok(RunEnd::Converged));
    assert!(inflow(&fv, "X").same(&ratio(9, 2)));
    assert!(inflow(&fv, "Y").same(&ratio(9, 2)));
    assert!(fv.graph.unaries[inner].amount.same(&amt(9)));
}

#[test]
fn capped_nested_node_is_filled_exactly() {
    let mut fv = FukoValue::new();
    assert!(fv.declare_source("A", amt(100)).is_ok());
    let x = fv.add_sink_node("X", Amount::infinity());
    let y = fv.add_sink_node("Y", Amount::infinity());
    let inner = fv.add_expr_node(vec![vec![x, y]], amt(10));
    let z = fv.add_sink_node("Z", Amount::infinity());
    fv.attach_route("A", vec![vec![inner, z]]);

    // The node may let through 10 and feeds two of three sinks: 5 for each
    // sink, 15 in all.
    let (sinks, nodes, limit) = fv.graph.next_sinks(&fv.graph.sources[0].to, &amt(100));
    assert_eq!(sinks, vec![0usize, 1usize, 2usize]);
    assert_eq!(nodes, vec![(inner, 2usize)]);
    assert!(limit.same(&amt(5)));

    let planned = fv.graph.next_step();
    assert!(planned.amount.same(&amt(15)));
    assert_eq!(planned.stop_reason, StopReason::NodeFull);
    assert_eq!(fv.graph.apply_step(&planned), Ok(()));
    assert!(fv.graph.sources[0].amount.same(&amt(85)));
    assert!(fv.graph.unaries[inner].amount.same(&amt(10)));
    for j in 0..3 {
        assert!(fv.graph.sinks[j].add_amount.same(&amt(5)));
    }

    // With the node saturated the rest goes to Z alone.
    assert_eq!(fv.run(100), Ok(RunEnd::Converged));
    assert!(inflow(&fv, "X").same(&amt(5)));
    assert!(inflow(&fv, "Y").same(&amt(5)));
    assert!(inflow(&fv, "Z").same(&amt(90)));
    assert!(fv.graph.unaries[inner].amount.same(&amt(10)));
}

#[test]
fn node_on_the_way_of_two_sources_is_filled_exactly() {
    let mut fv = FukoValue::new();
    assert!(fv.declare_source("A", amt(100)).is_ok());
    assert!(fv.declare_source("B", amt(100)).is_ok());
    let x = fv.add_sink_node("X", amt(10));
    fv.attach_route("A", vec![vec![x]]);
    fv.attach_route("B", vec![vec![x]]);

    // Both sources pass through the one node: each may give 5.
    let planned = fv.graph.next_step();
    assert!(planned.amount.same(&amt(5)));
    assert_eq!(planned.stop_reason, StopReason::NodeFull);
    assert_eq!(fv.run(100), Ok(RunEnd::Converged));
    assert!(fv.graph.unaries[x].amount.same(&amt(10)));
    assert!(inflow(&fv, "X").same(&amt(10)));
    assert!(fv.graph.sources[0].amount.same(&amt(95)));
    assert!(fv.graph.sources[1].amount.same(&amt(95)));
}

#[test]
fn dead_path_bounds_nothing() {
    let mut fv = FukoValue::new();
    assert!(fv.declare_sink("X", amt(5), false).is_ok());
    fv.declare_balance(fuko::date::Date { year: 2024, month: 1 }, "X", amt(5));
    let x = fv.add_sink_node("X", Amount::infinity());
    let dead = fv.add_expr_node(vec![vec![x]], amt(10));
    let y = fv.add_sink_node("Y", Amount::infinity());

    // The capped node leads only to a full sink: no sink, no record, no bound.
    let (sinks, nodes, limit) = fv.graph.next_sinks(&vec![vec![dead, y]], &amt(100));
    assert_eq!(sinks, vec![1usize]);
    assert!(nodes.is_empty());
    assert!(limit.is_infinite());

    // A group that reaches nothing leaves no trace for the next one.
    let (sinks, nodes, limit) = fv.graph.next_sinks(&vec![vec![dead], vec![y]], &amt(100));
    assert_eq!(sinks, vec![1usize]);
    assert!(nodes.is_empty());
    assert!(limit.is_infinite());

    assert!(fv.declare_source("A", amt(100)).is_ok());
    fv.attach_route("A", vec![vec![dead, y]]);
    let planned = fv.graph.next_step();
    assert!(planned.amount.same(&amt(100)));
    assert_eq!(planned.stop_reason, StopReason::SourceDepleted);
    assert_eq!(fv.run(1), Ok(RunEnd::Converged));
    assert!(inflow(&fv, "Y").same(&amt(100)));
}

#[test]
fn two_sources_share_a_sink() {
    let mut fv = FukoValue::new();
    assert!(fv.declare_sink("X", amt(30), false).is_ok());
    assert!(fv.declare_source("A", amt(40)).is_ok());
    assert!(fv.declare_source("B", amt(20)).is_ok());
    let ax = fv.add_sink_node("X", Amount::infinity());
    let ay = fv.add_sink_node("Y", Amount::infinity());
    fv.attach_route("A", vec![vec![ax, ay]]);
    let bx = fv.add_sink_node("X", Amount::infinity());
    fv.attach_route("B", vec![vec![bx]]);

    // X gets half of A's step and all of B's: 30 / (1/2 + 1) = 20.
    let first = fv.advance().unwrap().unwrap();
    assert!(first.amount.same(&amt(20)));
    assert_eq!(first.stop_reason, StopReason::SourceDepleted);
    assert!(inflow(&fv, "X").same(&amt(30)));
    assert!(inflow(&fv, "Y").same(&amt(10)));

    assert_eq!(fv.run(100), Ok(RunEnd::Converged));
    assert!(inflow(&fv, "X").same(&amt(30)));
    assert!(inflow(&fv, "Y").same(&amt(30)));

    // The ledger says who gave what, and adds up to what each sink received.
    assert!(booked(&fv, "A", "X").unwrap().same(&amt(10)));
    assert!(booked(&fv, "A", "Y").unwrap().same(&amt(30)));
    assert!(booked(&fv, "B", "X").unwrap().same(&amt(20)));
    assert!(booked(&fv, "B", "Y").is_none());
    let to_x = sum(vec![booked(&fv, "A", "X").unwrap(), booked(&fv, "B", "X").unwrap()]);
    assert!(to_x.same(&inflow(&fv, "X")));

    // Nothing is created or destroyed.
    let received = sum(vec![inflow(&fv, "X"), inflow(&fv, "Y")]);
    let left = sum(vec![fv.graph.sources[0].amount.dup(), fv.graph.sources[1].amount.dup()]);
    assert!(received.add(&left).same(&amt(60)));
}

#[test]
fn sink_shares_are_exact_thirds() {
    let mut fv = FukoValue::new();
    assert!(fv.declare_source("A", amt(100)).is_ok());
    let x = fv.add_sink_node("X", Amount::infinity());
    let y = fv.add_sink_node("Y", Amount::infinity());
    let z = fv.add_sink_node("Z", Amount::infinity());
    fv.attach_route("A", vec![vec![x, y, z]]);

    assert_eq!(fv.run(100), Ok(RunEnd::Converged));
    assert!(inflow(&fv, "X").same(&ratio(100, 3)));
    assert!(!inflow(&fv, "X").same(&amt(33)));
    let total = sum(vec![inflow(&fv, "X"), inflow(&fv, "Y"), inflow(&fv, "Z")]);
    assert!(total.same(&amt(100)));
}

#[test]
fn capacities_hold_after_every_step() {
    let mut fv = FukoValue::new();
    assert!(fv.declare_sink("X", amt(7), false).is_ok());
    assert!(fv.declare_sink("Y", amt(11), false).is_ok());
    assert!(fv.declare_source("A", amt(50)).is_ok());
    assert!(fv.declare_source("B", amt(5)).is_ok());
    let ax = fv.add_sink_node("X", amt(4));
    let ay = fv.add_sink_node("Y", Amount::infinity());
    fv.attach_route("A", vec![vec![ax, ay]]);
    let bx = fv.add_sink_node("X", Amount::infinity());
    fv.attach_route("B", vec![vec![bx]]);

    let mut steps = 0;
    while let Some(_) = fv.advance().unwrap() {
        steps += 1;
        assert!(steps <= 5);
        for s in fv.graph.sinks.iter() {
            assert!(s.amount().le(&s.capacity));
        }
        for u in fv.graph.unaries.iter() {
            assert!(u.amount.le(&u.capacity));
        }
    }
    // The first step fills X: A brings it 7/3 and B 14/3. After that B has
    // no way left and takes no part; the second step fills Y.
    assert!(inflow(&fv, "X").same(&amt(7)));
    assert!(inflow(&fv, "Y").same(&amt(11)));
    assert!(fv.graph.unaries[0].amount.same(&ratio(7, 3)));
    assert!(fv.graph.sources[1].amount.same(&ratio(1, 3)));
    assert!(fv.graph.sources[0].amount.same(&ratio(110, 3)));
    assert_eq!(steps, 2);
}

#[test]
fn source_without_a_way_bounds_nothing() {
    let mut fv = FukoValue::new();
    assert!(fv.declare_source("A", amt(5)).is_ok());
    assert!(fv.declare_source("B", amt(100)).is_ok());
    let x = fv.add_sink_node("X", Amount::infinity());
    fv.attach_route("B", vec![vec![x]]);

    // A reaches nothing: it takes no part, and what it holds is no bound.
    let first = fv.graph.next_step();
    assert!(first.amount.same(&amt(100)));
    assert_eq!(first.stop_reason, StopReason::SourceDepleted);
    assert_eq!(first.src_to_snks, vec![(1usize, vec![0usize])]);
    assert_eq!(first.src_to_unaries, vec![(1usize, vec![])]);

    assert_eq!(fv.run(0), Ok(RunEnd::StepLimit));
    assert_eq!(fv.run(1), Ok(RunEnd::Converged));
    assert!(inflow(&fv, "X").same(&amt(100)));
    assert!(fv.graph.sources[0].amount.same(&amt(5)));
    assert!(fv.graph.sources[1].amount.is_zero());
}

#[test]
fn empty_graph_has_converged() {
    let mut fv = FukoValue::new();
    let step = fv.graph.next_step();
    assert!(step.src_to_snks.is_empty());
    assert!(step.amount.is_infinite());
    assert_eq!(fv.run(0), Ok(RunEnd::Converged));
}

#[test]
fn full_sink_is_passed_over() {
    let mut fv = FukoValue::new();
    assert!(fv.declare_sink("X", amt(10), false).is_ok());
    fv.declare_balance(fuko::date::Date { year: 2024, month: 1 }, "X", amt(10));
    assert!(fv.declare_source("A", amt(5)).is_ok());
    let x = fv.add_sink_node("X", Amount::infinity());
    fv.attach_route("A", vec![vec![x]]);

    assert!(fv.graph.sinks[0].amount().same(&amt(10)));
    assert_eq!(fv.run(10), Ok(RunEnd::Converged));
    assert!(inflow(&fv, "X").is_zero());
    assert!(fv.graph.sources[0].amount.same(&amt(5)));
}

#[test]
fn opening_balance_counts_against_the_capacity() {
    let mut fv = FukoValue::new();
    assert!(fv.declare_sink("X", amt(10), false).is_ok());
    fv.declare_balance(fuko::date::Date { year: 2024, month: 1 }, "X", amt(4));
    assert!(fv.declare_source("A", amt(50)).is_ok());
    let x = fv.add_sink_node("X", Amount::infinity());
    fv.attach_route("A", vec![vec![x]]);

    assert_eq!(fv.run(10), Ok(RunEnd::Converged));
    assert!(inflow(&fv, "X").same(&amt(6)));
    assert!(fv.graph.sources[0].amount.same(&amt(44)));
}

#[test]
fn run_ends_within_one_step_for_each_source_and_capped_sink() {
    let mut fv = FukoValue::new();
    assert!(fv.declare_sink("X", amt(30), false).is_ok());
    assert!(fv.declare_source("A", amt(100)).is_ok());
    let x = fv.add_sink_node("X", Amount::infinity());
    let y = fv.add_sink_node("Y", Amount::infinity());
    fv.attach_route("A", vec![vec![x, y]]);

    // One source, no capped node, one capped sink: two steps, each of which
    // fills the sink or exhausts the source.
    assert_eq!(fv.run(0), Ok(RunEnd::StepLimit));
    assert_eq!(fv.run(1), Ok(RunEnd::StepLimit));
    assert!(fv.graph.sinks[0].capacity.le(&fv.graph.sinks[0].amount()));
    assert!(!fv.graph.sources[0].amount.is_zero());
    assert_eq!(fv.run(1), Ok(RunEnd::Converged));
    assert!(fv.graph.sources[0].amount.is_zero());
    assert_eq!(fv.run(0), Ok(RunEnd::Converged));
}

#[test]
fn step_that_takes_more_than_a_source_has_is_refused() {
    let mut fv = FukoValue::new();
    assert!(fv.declare_source("A", amt(10)).is_ok());
    let x = fv.add_sink_node("X", Amount::infinity());
    fv.attach_route("A", vec![vec![x]]);

    let step = Step {
        src_to_snks: vec![(0, vec![0])],
        src_to_unaries: vec![(0, vec![])],
        amount: amt(11),
        stop_reason: StopReason::SourceDepleted,
    };
    assert_eq!(fv.graph.apply_step(&step), Err(FlowError::ArithmeticInvariantViolation));
    assert!(fv.graph.sources[0].amount.same(&amt(10)));
    assert!(fv.graph.sinks[0].add_amount.is_zero());

    let fits = Step { amount: amt(10), ..step };
    assert_eq!(fv.graph.apply_step(&fits), Ok(()));
    assert!(fv.graph.sources[0].amount.is_zero());
    assert!(fv.graph.sinks[0].add_amount.same(&amt(10)));
}

#[test]
fn step_charges_each_node_once_for_each_sink_it_feeds() {
    let mut fv = FukoValue::new();
    assert!(fv.declare_source("A", amt(20)).is_ok());
    assert!(fv.declare_source("B", amt(20)).is_ok());
    let x = fv.add_sink_node("X", amt(100));
    let y = fv.add_sink_node("Y", amt(100));
    let both = fv.add_expr_node(vec![vec![x, y]], amt(100));
    fv.attach_route("A", vec![vec![both]]);

    // A sends 6 to two sinks, three each; the node that feeds both is
    // charged twice three, and only the first list of nodes of a source counts.
    let step = Step {
        src_to_snks: vec![(0, vec![0, 1])],
        src_to_unaries: vec![(1, vec![(x, 5)]), (0, vec![(x, 1), (y, 1), (both, 2)]), (0, vec![(x, 7)])],
        amount: amt(6),
        stop_reason: StopReason::NodeFull,
    };
    assert_eq!(fv.graph.apply_step(&step), Ok(()));
    assert!(fv.graph.sources[0].amount.same(&amt(14)));
    assert!(fv.graph.sources[1].amount.same(&amt(20)));
    assert!(fv.graph.sinks[0].add_amount.same(&amt(3)));
    assert!(fv.graph.sinks[1].add_amount.same(&amt(3)));
    assert!(fv.graph.unaries[x].amount.same(&amt(3)));
    assert!(fv.graph.unaries[y].amount.same(&amt(3)));
    assert!(fv.graph.unaries[both].amount.same(&amt(6)));
}

#[test]
fn ledger_adds_up_what_each_source_gave_each_sink() {
    let mut book = Book::new();
    let first = Step {
        src_to_snks: vec![(1, vec![0, 2]), (0, vec![2])],
        src_to_unaries: vec![],
        amount: amt(5),
        stop_reason: StopReason::SourceDepleted,
    };
    book.apply_step(&first);
    let second = Step {
        src_to_snks: vec![(0, vec![2, 2, 1])],
        src_to_unaries: vec![],
        amount: amt(9),
        stop_reason: StopReason::SourceDepleted,
    };
    book.apply_step(&second);

    assert_eq!(book.transfers.len(), 2);
    assert_eq!(book.transfers[0].from, 1);
    assert_eq!(book.transfers[1].from, 0);
    assert_eq!(book.transfers[0].to.len(), 2);
    assert!(book.transfers[0].to[0].1.same(&ratio(5, 2)));
    assert!(book.transfers[0].to[1].1.same(&ratio(5, 2)));
    assert_eq!(book.transfers[1].to.len(), 2);
    assert_eq!(book.transfers[1].to[0].0, 2);
    assert!(book.transfers[1].to[0].1.same(&amt(11)));
    assert_eq!(book.transfers[1].to[1].0, 1);
    assert!(book.transfers[1].to[1].1.same(&amt(3)));
}

#[test]
fn results_list_every_sink_and_every_transfer() {
    let mut fv = FukoValue::new();
    assert!(fv.declare_sink("X", amt(30), false).is_ok());
    fv.declare_balance(fuko::date::Date { year: 2024, month: 5 }, "X", amt(0));
    assert!(fv.declare_source("A", amt(40)).is_ok());
    assert!(fv.declare_source("B", amt(20)).is_ok());
    let ax = fv.add_sink_node("X", Amount::infinity());
    let ay = fv.add_sink_node("Y", Amount::infinity());
    fv.attach_route("A", vec![vec![ax, ay]]);
    let bx = fv.add_sink_node("X", Amount::infinity());
    fv.attach_route("B", vec![vec![bx]]);
    assert_eq!(fv.run(100), Ok(RunEnd::Converged));

    let sinks = fv.inflows();
    assert_eq!(sinks.len(), 2);
    assert_eq!(sinks[0].0, "X");
    assert!(sinks[0].1.same(&amt(30)));
    assert_eq!(sinks[0].2, Some(fuko::date::Date { year: 2024, month: 5 }));
    assert_eq!(sinks[1].0, "Y");
    assert!(sinks[1].1.same(&amt(30)));
    assert_eq!(sinks[1].2, None);

    let rows = fv.book.attribution();
    let plain: Vec<(usize, usize)> = rows.iter().map(|r| (r.0, r.1)).collect();
    assert_eq!(plain, vec![(0, 0), (0, 1), (1, 0)]);
    assert!(rows[0].2.same(&amt(10)));
    assert!(rows[1].2.same(&amt(30)));
    assert!(rows[2].2.same(&amt(20)));
    assert!(Book::new().attribution().is_empty());
}
