use aoc::error::Error;
use aoc::solutions::solution_07::{
    build_graph, orders_from_lines, parse_order, parse_orders, part1 as sequence,
    part2 as time_needed, sort_orders, step_time, steps, Order, Workshop,
};
use petgraph::graph::{EdgeIndex, NodeIndex};

const STEPS: &str = "Step C must be finished before step A can begin.\n\
Step C must be finished before step F can begin.\n\
Step A must be finished before step B can begin.\n\
Step A must be finished before step D can begin.\n\
Step B must be finished before step E can begin.\n\
Step D must be finished before step E can begin.\n\
Step F must be finished before step E can begin.\n";

fn sample() -> Vec<Order> {
    parse_orders(STEPS).unwrap()
}

#[test]
fn requirement_line_is_read() {
    assert_eq!(
        parse_order("Step C must be finished before step A can begin."),
        Ok(Order('C', 'A'))
    );
    assert_eq!(
        parse_order("Step x must be finished before step 7 can begin."),
        Ok(Order('x', '7'))
    );
}

#[test]
fn requirement_line_with_other_words_is_refused() {
    assert_eq!(
        parse_order("Step CC must be finished before step A can begin."),
        Err(Error::MalformedInput)
    );
    assert_eq!(
        parse_order("Step C must be finished before step A can begin"),
        Err(Error::MalformedInput)
    );
    assert_eq!(
        parse_order("step C must be finished before step A can begin."),
        Err(Error::MalformedInput)
    );
    assert_eq!(parse_order(""), Err(Error::MalformedInput));
}

#[test]
fn requirements_come_sorted_by_their_first_step() {
    assert_eq!(
        sample(),
        vec![
            Order('A', 'B'),
            Order('A', 'D'),
            Order('B', 'E'),
            Order('C', 'A'),
            Order('C', 'F'),
            Order('D', 'E'),
            Order('F', 'E'),
        ]
    );
}

#[test]
fn sorting_keeps_the_order_of_equal_first_steps() {
    let orders = vec![Order('B', 'Z'), Order('A', 'Y'), Order('B', 'A'), Order('A', 'X'), Order('B', 'M')];
    assert_eq!(
        sort_orders(&orders),
        vec![Order('A', 'Y'), Order('A', 'X'), Order('B', 'Z'), Order('B', 'A'), Order('B', 'M')]
    );
    assert_eq!(sort_orders(&Vec::new()), Vec::new());
}

#[test]
fn one_bad_line_spoils_the_requirements() {
    let lines = vec![
        "Step C must be finished before step A can begin.".to_string(),
        "Step C must wait.".to_string(),
    ];
    assert_eq!(orders_from_lines(&lines), Err(Error::MalformedInput));
    assert_eq!(orders_from_lines(&Vec::new()), Ok(Vec::new()));
}

#[test]
fn steps_in_the_order_of_their_first_mention() {
    assert_eq!(steps(&sample()), vec!['A', 'B', 'D', 'E', 'C', 'F']);
    assert_eq!(steps(&[]), Vec::<char>::new());
    assert_eq!(steps(&[Order('Q', 'Q')]), vec!['Q']);
}

#[test]
fn graph_of_the_requirements() {
    let orders = sample();
    let g = build_graph(&orders);
    assert_eq!(g.node_count(), 6);
    assert_eq!(g.edge_count(), 7);
    let nodes: Vec<char> = (0..6).map(|i| *g.node_weight(NodeIndex::new(i)).unwrap()).collect();
    assert_eq!(nodes, vec!['A', 'B', 'D', 'E', 'C', 'F']);
    for (i, o) in orders.iter().enumerate() {
        let (a, b) = g.edge_endpoints(EdgeIndex::new(i)).unwrap();
        assert_eq!(*g.node_weight(a).unwrap(), o.0);
        assert_eq!(*g.node_weight(b).unwrap(), o.1);
    }
    let sorted = petgraph::algo::toposort(&g, None).unwrap();
    let place = |c: char| sorted.iter().position(|&n| g[n] == c).unwrap();
    for o in orders.iter() {
        assert!(place(o.0) < place(o.1));
    }
}

#[test]
fn graph_without_requirements_is_empty() {
    let g = build_graph(&[]);
    assert_eq!(g.node_count(), 0);
    assert_eq!(g.edge_count(), 0);
}

#[test]
fn steps_one_at_a_time() {
    assert_eq!(sequence(&sample()), "CABDFE");
    assert_eq!(sequence(&[]), "");
    assert_eq!(sequence(&[Order('B', 'A')]), "BA");
    assert_eq!(sequence(&[Order('A', 'C'), Order('B', 'C')]), "ABC");
}

#[test]
fn a_requirement_written_twice_blocks_its_step() {
    assert_eq!(sequence(&[Order('C', 'A'), Order('C', 'A'), Order('C', 'B')]), "CB");
}

#[test]
fn steps_in_a_circle_never_begin() {
    assert_eq!(sequence(&[Order('A', 'B'), Order('B', 'A'), Order('C', 'A')]), "C");
}

#[test]
fn seconds_of_a_step() {
    assert_eq!(step_time('A'), Some(61));
    assert_eq!(step_time('Z'), Some(86));
    assert_eq!(step_time('a'), Some(93));
    assert_eq!(step_time('@'), None);
    assert_eq!(step_time('7'), None);
}

#[test]
fn five_workers_on_the_steps() {
    let orders = sample();
    assert_eq!(time_needed(&orders, "CABDFE", 1000), Ok(Some(253)));
    assert_eq!(time_needed(&orders, "CABDFE", 253), Ok(Some(253)));
    assert_eq!(time_needed(&orders, "CABDFE", 252), Ok(None));
    assert_eq!(time_needed(&orders, "", 10), Ok(Some(0)));
    assert_eq!(time_needed(&orders, "", 0), Ok(Some(0)));
    assert_eq!(time_needed(&orders, "C", 100), Ok(Some(63)));
}

#[test]
fn more_steps_than_workers() {
    // Six steps that wait for nothing: five begin at once, the sixth when
    // the first worker is free again.
    let orders = vec![
        Order('A', 'Z'),
        Order('B', 'Z'),
        Order('C', 'Z'),
        Order('D', 'Z'),
        Order('E', 'Z'),
        Order('F', 'Z'),
    ];
    assert_eq!(time_needed(&orders, "ABCDEF", 1000), Ok(Some(61 + 66)));
    assert_eq!(time_needed(&orders, "ABCDEFZ", 1000), Ok(Some(61 + 66 + 86)));
}

#[test]
fn steps_that_the_workers_cannot_take() {
    let orders = sample();
    assert_eq!(time_needed(&orders, "CABDFEX", 1000), Err(Error::MalformedInput));
    let digits = vec![Order('1', '2')];
    assert_eq!(time_needed(&digits, "12", 1000), Err(Error::MalformedInput));
    // A step that never begins is never asked for its time.
    let blocked = vec![Order('A', '2'), Order('A', '2')];
    assert_eq!(time_needed(&blocked, "A2", 1000), Ok(Some(61)));
}

#[test]
fn workshop_second_by_second() {
    let orders = vec![Order('A', 'B')];
    let mut shop = Workshop {
        workers: vec![(0, None), (0, None)],
        tasks: vec!['B', 'A'],
        finished: Vec::new(),
    };
    assert_eq!(shop.find_ready(&orders), Some(1));
    assert_eq!(shop.find_idle(), Some(0));
    assert!(!shop.is_busy());
    assert_eq!(shop.hand_out(&orders), Ok(()));
    assert_eq!(shop.workers, vec![(61, Some('A')), (0, None)]);
    assert_eq!(shop.tasks, vec!['B']);
    assert!(shop.is_busy());
    assert_eq!(shop.find_ready(&orders), None);
    assert_eq!(shop.find_idle(), Some(1));
    for _ in 0..60 {
        shop.work();
    }
    assert_eq!(shop.workers, vec![(1, Some('A')), (0, None)]);
    assert_eq!(shop.finished, Vec::<char>::new());
    shop.work();
    assert_eq!(shop.workers, vec![(0, None), (0, None)]);
    assert_eq!(shop.finished, vec!['A']);
    assert_eq!(shop.hand_out(&orders), Ok(()));
    assert_eq!(shop.workers, vec![(62, Some('B')), (0, None)]);
    assert_eq!(shop.tasks, Vec::<char>::new());
}
