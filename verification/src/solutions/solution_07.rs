//! Day 7: the order in which the steps of the instructions can be done.

use crate::error::Error;
use crate::util::pattern::{captures, captures_of, group, group_of};
use crate::util::text::{lines, text_lines};
use petgraph::graph::DiGraph;
use vstd::prelude::*;

verus! {

/// One requirement: the first step must be finished before the second
/// can begin.
#[derive(Debug, Clone, Copy, PartialEq, Eq)]
pub struct Order(pub char, pub char);

/// The regular expression of a line such as
/// `Step C must be finished before step A can begin.`
pub open spec fn order_pattern() -> Seq<char> {
    r"^(Step )(\w)( must be finished before step )(\w)( can begin.)$"@
}

/// The first character of a text, where there is a text and it has one.
pub open spec fn first_char(text: Option<Seq<char>>) -> Option<char> {
    match text {
        Some(t) => if t.len() > 0 {
            Some(t[0])
        } else {
            None
        },
        None => None,
    }
}

/// The requirement that the capture groups of a line write: the step to
/// finish in group two, the step that waits in group four.
pub open spec fn order_of_groups(groups: Option<Seq<Option<Seq<char>>>>) -> Result<Order, Error> {
    match groups {
        Some(g) => match (first_char(group_of(g, 2)), first_char(group_of(g, 4))) {
            (Some(before), Some(after)) => Ok(Order(before, after)),
            _ => Err(Error::MalformedInput),
        },
        None => Err(Error::MalformedInput),
    }
}

/// The requirement that a line writes.
pub open spec fn order_of_line(line: Seq<char>) -> Result<Order, Error> {
    order_of_groups(captures_of(order_pattern(), line))
}

fn leading(text: Option<&str>) -> (c: Option<char>)
    ensures
        c == first_char(text.deep_view()),
{
    match text {
        Some(t) => if t.unicode_len() > 0 {
            Some(t.get_char(0))
        } else {
            None
        },
        None => None,
    }
}

/// Reads a requirement out of the capture groups of its line.
pub fn order_from_groups(groups: &Option<Vec<Option<String>>>) -> (r: Result<Order, Error>)
    ensures
        r == order_of_groups(groups.deep_view()),
{
    match groups {
        None => Err(Error::MalformedInput),
        Some(g) => match (leading(group(g, 2)), leading(group(g, 4))) {
            (Some(before), Some(after)) => Ok(Order(before, after)),
            _ => Err(Error::MalformedInput),
        },
    }
}

/// Reads a line such as `Step C must be finished before step A can begin.`
pub fn parse_order(s: &str) -> (r: Result<Order, Error>)
    ensures
        r == order_of_line(s@),
{
    let groups = captures(r"^(Step )(\w)( must be finished before step )(\w)( can begin.)$", s);
    order_from_groups(&groups)
}

/// Where `o` goes among requirements in the order of their first steps:
/// behind those whose first step is the same or comes earlier.
pub open spec fn insert_at(sorted: Seq<Order>, o: Order) -> int
    decreases sorted.len(),
{
    if sorted.len() == 0 || sorted.last().0 as u32 <= o.0 as u32 {
        sorted.len() as int
    } else {
        insert_at(sorted.drop_last(), o)
    }
}

/// The requirements in the order of their first steps; requirements with
/// the same first step keep their order.
pub open spec fn by_first(orders: Seq<Order>) -> Seq<Order>
    decreases orders.len(),
{
    if orders.len() == 0 {
        Seq::empty()
    } else {
        let before = by_first(orders.drop_last());
        before.insert(insert_at(before, orders.last()), orders.last())
    }
}

/// Whether the first steps never fall from one requirement to the next.
pub open spec fn in_order(orders: Seq<Order>) -> bool {
    forall|i: int, j: int| 0 <= i < j < orders.len() ==> orders[i].0 as u32 <= orders[j].0 as u32
}

/// A requirement goes behind every requirement that comes no later and
/// before every one that comes later.
pub proof fn lemma_insert_at(sorted: Seq<Order>, o: Order)
    requires
        in_order(sorted),
    ensures
        0 <= insert_at(sorted, o) <= sorted.len(),
        forall|i: int| 0 <= i < insert_at(sorted, o) ==> sorted[i].0 as u32 <= o.0 as u32,
        forall|i: int| insert_at(sorted, o) <= i < sorted.len() ==> sorted[i].0 as u32 > o.0 as u32,
    decreases sorted.len(),
{
    if sorted.len() > 0 && sorted.last().0 as u32 > o.0 as u32 {
        let head = sorted.drop_last();
        assert forall|i: int, j: int| 0 <= i < j < head.len() implies head[i].0 as u32
            <= head[j].0 as u32 by {
            assert(head[i] == sorted[i] && head[j] == sorted[j]);
        }
        lemma_insert_at(head, o);
        let at = insert_at(head, o);
        assert forall|i: int| 0 <= i < at implies sorted[i].0 as u32 <= o.0 as u32 by {
            assert(head[i] == sorted[i]);
        }
        assert forall|i: int| at <= i < sorted.len() implies sorted[i].0 as u32 > o.0 as u32 by {
            if i < head.len() {
                assert(head[i] == sorted[i]);
            }
        }
    }
}

/// Sorting puts the requirements in the order of their first steps and
/// neither adds nor loses one.
pub proof fn lemma_by_first(orders: Seq<Order>)
    ensures
        in_order(by_first(orders)),
        by_first(orders).to_multiset() == orders.to_multiset(),
        by_first(orders).len() == orders.len(),
    decreases orders.len(),
{
    broadcast use vstd::seq_lib::group_to_multiset_ensures;

    if orders.len() > 0 {
        let before = by_first(orders.drop_last());
        let o = orders.last();
        lemma_by_first(orders.drop_last());
        lemma_insert_at(before, o);
        let at = insert_at(before, o);
        let after = before.insert(at, o);
        assert forall|i: int, j: int| 0 <= i < j < after.len() implies after[i].0 as u32
            <= after[j].0 as u32 by {
            if i < at && j > at {
                assert(after[i] == before[i]);
                assert(after[j] == before[j - 1]);
            }
        }
        assert(after.remove(at) =~= before);
        assert(after[at] == o);
        assert(after.contains(o));
        assert(after.to_multiset() =~= before.to_multiset().insert(o));
        assert(orders.drop_last().push(o) =~= orders);
    }
}

/// The requirements that the lines write, one each, in the order of their
/// first steps.
pub open spec fn orders_of_lines(lines: Seq<Seq<char>>) -> Result<Seq<Order>, Error> {
    if forall|i: int| 0 <= i < lines.len() ==> order_of_line(#[trigger] lines[i]) is Ok {
        Ok(by_first(Seq::new(lines.len(), |i: int| order_of_line(lines[i]).unwrap())))
    } else {
        Err(Error::MalformedInput)
    }
}

/// Sorts the requirements by their first steps.
pub fn sort_orders(orders: &Vec<Order>) -> (sorted: Vec<Order>)
    ensures
        sorted@ == by_first(orders@),
{
    let mut sorted: Vec<Order> = Vec::new();
    let mut i: usize = 0;
    assert(orders@.subrange(0, 0) =~= Seq::<Order>::empty());
    while i < orders.len()
        invariant
            i <= orders@.len(),
            sorted@ == by_first(orders@.subrange(0, i as int)),
            sorted@.len() == i,
        decreases orders@.len() - i,
    {
        let o = orders[i];
        let mut pos: usize = sorted.len();
        assert(sorted@.subrange(0, pos as int) =~= sorted@);
        while pos > 0 && sorted[pos - 1].0 as u32 > o.0 as u32
            invariant
                pos <= sorted@.len(),
                insert_at(sorted@, o) == insert_at(sorted@.subrange(0, pos as int), o),
            decreases pos,
        {
            proof {
                let head = sorted@.subrange(0, pos as int);
                assert(head.drop_last() =~= sorted@.subrange(0, pos - 1));
                assert(head.last() == sorted@[pos - 1]);
            }
            pos -= 1;
        }
        proof {
            let head = sorted@.subrange(0, pos as int);
            if pos > 0 {
                assert(head.last() == sorted@[pos - 1]);
            }
            assert(insert_at(head, o) == pos);
            let next = orders@.subrange(0, i + 1);
            assert(next.drop_last() =~= orders@.subrange(0, i as int));
            assert(next.last() == o);
        }
        sorted.insert(pos, o);
        i += 1;
    }
    assert(orders@.subrange(0, i as int) =~= orders@);
    sorted
}

/// Reads one requirement from each line and sorts them by their first
/// steps.
pub fn orders_from_lines(lines: &Vec<String>) -> (r: Result<Vec<Order>, Error>)
    ensures
        match r {
            Ok(orders) => orders_of_lines(lines.deep_view()) == Ok::<Seq<Order>, Error>(orders@),
            Err(e) => orders_of_lines(lines.deep_view()) == Err::<Seq<Order>, Error>(e),
        },
{
    let mut orders: Vec<Order> = Vec::new();
    let mut i: usize = 0;
    while i < lines.len()
        invariant
            i <= lines@.len(),
            orders@.len() == i,
            forall|j: int| 0 <= j < i ==> order_of_line(#[trigger] lines.deep_view()[j]) is Ok,
            forall|j: int|
                0 <= j < i ==> #[trigger] orders@[j] == order_of_line(lines.deep_view()[j]).unwrap(),
        decreases lines@.len() - i,
    {
        assert(lines.deep_view()[i as int] == lines@[i as int]@);
        match parse_order(lines[i].as_str()) {
            Ok(o) => {
                orders.push(o);
            },
            Err(_) => {
                return Err(Error::MalformedInput);
            },
        }
        i += 1;
    }
    assert(orders@ =~= Seq::new(
        lines.deep_view().len(),
        |i: int| order_of_line(lines.deep_view()[i]).unwrap(),
    ));
    Ok(sort_orders(&orders))
}

/// Reads the requirements of the puzzle, one on each line.
pub fn parse_orders(s: &str) -> (r: Result<Vec<Order>, Error>)
    ensures
        match r {
            Ok(orders) => orders_of_lines(text_lines(s@)) == Ok::<Seq<Order>, Error>(orders@),
            Err(e) => orders_of_lines(text_lines(s@)) == Err::<Seq<Order>, Error>(e),
        },
{
    let all = lines(s);
    orders_from_lines(&all)
}

/// The steps with `c` among them: behind the others where it is new.
pub open spec fn with_step(steps: Seq<char>, c: char) -> Seq<char> {
    if steps.contains(c) {
        steps
    } else {
        steps.push(c)
    }
}

/// The steps that the requirements speak of, each once, in the order in
/// which the requirements first name them.
pub open spec fn steps_of(orders: Seq<Order>) -> Seq<char>
    decreases orders.len(),
{
    if orders.len() == 0 {
        Seq::empty()
    } else {
        with_step(with_step(steps_of(orders.drop_last()), orders.last().0), orders.last().1)
    }
}

/// Whether the requirement speaks of step `c`.
pub open spec fn names(o: Order, c: char) -> bool {
    o.0 == c || o.1 == c
}

/// Whether `c` is a step of the requirements.
pub open spec fn is_step(orders: Seq<Order>, c: char) -> bool {
    exists|i: int| 0 <= i < orders.len() && #[trigger] names(orders[i], c)
}

/// The steps of the requirements hold each step once, and nothing else;
/// there are at most two for each requirement.
pub proof fn lemma_steps_of(orders: Seq<Order>)
    ensures
        steps_of(orders).no_duplicates(),
        forall|c: char| #[trigger] steps_of(orders).contains(c) <==> is_step(orders, c),
        steps_of(orders).len() <= 2 * orders.len(),
    decreases orders.len(),
{
    if orders.len() > 0 {
        let rest = orders.drop_last();
        let o = orders.last();
        lemma_steps_of(rest);
        let old_steps = steps_of(rest);
        let mid = with_step(old_steps, o.0);
        let all = with_step(mid, o.1);
        lemma_with_step(old_steps, o.0);
        lemma_with_step(mid, o.1);
        assert forall|c: char| #[trigger] all.contains(c) <==> is_step(orders, c) by {
            assert(all.contains(c) <==> old_steps.contains(c) || c == o.0 || c == o.1);
            if old_steps.contains(c) {
                assert(is_step(rest, c));
                let j = choose|j: int| 0 <= j < rest.len() && #[trigger] names(rest[j], c);
                assert(names(orders[j], c));
            }
            if c == o.0 || c == o.1 {
                assert(names(orders[orders.len() - 1], c));
            }
            if is_step(orders, c) && !(c == o.0 || c == o.1) {
                let j = choose|j: int| 0 <= j < orders.len() && #[trigger] names(orders[j], c);
                assert(names(rest[j], c));
                assert(is_step(rest, c));
            }
        }
    }
}

/// Adding a step keeps the steps that are there, brings no other step
/// than that one, and brings it only where it was missing.
proof fn lemma_with_step(steps: Seq<char>, c: char)
    requires
        steps.no_duplicates(),
    ensures
        with_step(steps, c).no_duplicates(),
        steps.len() <= with_step(steps, c).len() <= steps.len() + 1,
        forall|d: char| #[trigger] with_step(steps, c).contains(d) <==> steps.contains(d) || d == c,
{
    let all = with_step(steps, c);
    if !steps.contains(c) {
        assert(all[steps.len() as int] == c);
        assert forall|d: char| #[trigger] all.contains(d) <==> steps.contains(d) || d == c by {
            if steps.contains(d) {
                let i = choose|i: int| 0 <= i < steps.len() && steps[i] == d;
                assert(all[i] == d);
            }
            if all.contains(d) && d != c {
                let i = choose|i: int| 0 <= i < all.len() && all[i] == d;
                assert(steps[i] == d);
            }
        }
        assert forall|i: int, j: int| 0 <= i < all.len() && 0 <= j < all.len() && i != j implies all[i]
            != all[j] by {
            if i < steps.len() {
                assert(steps.contains(all[i]));
            }
            if j < steps.len() {
                assert(steps.contains(all[j]));
            }
        }
    }
}

/// Where `c` stands among the steps, where it is one of them.
fn find_step(steps: &Vec<char>, c: char) -> (at: Option<usize>)
    ensures
        match at {
            Some(i) => i < steps@.len() && steps@[i as int] == c,
            None => !steps@.contains(c),
        },
{
    let mut i: usize = 0;
    while i < steps.len()
        invariant
            i <= steps@.len(),
            forall|j: int| 0 <= j < i ==> steps@[j] != c,
        decreases steps@.len() - i,
    {
        if steps[i] == c {
            return Some(i);
        }
        i += 1;
    }
    None
}

/// Adds `c` to the steps where it is new.
fn add_step(steps: &mut Vec<char>, c: char)
    ensures
        final(steps)@ == with_step(old(steps)@, c),
{
    if find_step(steps, c).is_none() {
        steps.push(c);
    }
}

/// The steps that the requirements speak of, each once, in the order in
/// which the requirements first name them.
pub fn steps(orders: &[Order]) -> (all: Vec<char>)
    ensures
        all@ == steps_of(orders@),
{
    let mut all: Vec<char> = Vec::new();
    let mut i: usize = 0;
    assert(orders@.take(0) =~= Seq::<Order>::empty());
    while i < orders.len()
        invariant
            i <= orders@.len(),
            all@ == steps_of(orders@.take(i as int)),
        decreases orders@.len() - i,
    {
        proof {
            assert(orders@.take(i + 1).drop_last() =~= orders@.take(i as int));
        }
        add_step(&mut all, orders[i].0);
        add_step(&mut all, orders[i].1);
        i += 1;
    }
    assert(orders@.take(i as int) =~= orders@);
    all
}

/// The graph of petgraph, `petgraph::graph::Graph`. The verifier sees
/// nothing inside it: what a graph holds is told by `graph_nodes` and
/// `graph_edges`.
#[verifier::external_type_specification]
#[verifier::external_body]
#[verifier::reject_recursive_types(N)]
#[verifier::reject_recursive_types(E)]
#[verifier::reject_recursive_types(Ty)]
#[verifier::reject_recursive_types(Ix)]
pub struct ExGraph<N, E, Ty, Ix>(petgraph::graph::Graph<N, E, Ty, Ix>);

/// The mark of petgraph for graphs with directed edges,
/// `petgraph::Directed`.
#[verifier::external_type_specification]
#[verifier::external_body]
pub struct ExDirected(petgraph::Directed);

/// The weights of the nodes of a graph, by node index.
pub uninterp spec fn graph_nodes(g: DiGraph<char, ()>) -> Seq<char>;

/// The edges of a graph, by edge index: the node index that each comes
/// from and the one that it goes to.
pub uninterp spec fn graph_edges(g: DiGraph<char, ()>) -> Seq<(usize, usize)>;

/// Makes a graph with `Graph::new`: it has no node and no edge.
#[verifier::external_body]
pub(crate) fn new_graph() -> (g: DiGraph<char, ()>)
    ensures
        graph_nodes(g) == Seq::<char>::empty(),
        graph_edges(g) == Seq::<(usize, usize)>::empty(),
{
    DiGraph::new()
}

/// Calls `Graph::add_node`, which gives the new node the next index and
/// leaves the other nodes and the edges as they are. It panics once the
/// indices are used up, which `requires` leaves out.
#[verifier::external_body]
pub(crate) fn add_node(g: &mut DiGraph<char, ()>, weight: char) -> (ix: usize)
    requires
        graph_nodes(*old(g)).len() < u32::MAX,
    ensures
        graph_nodes(*final(g)) == graph_nodes(*old(g)).push(weight),
        graph_edges(*final(g)) == graph_edges(*old(g)),
        ix == graph_nodes(*old(g)).len(),
{
    g.add_node(weight).index()
}

/// Calls `Graph::add_edge`, which gives the new edge from node `a` to
/// node `b` the next index and leaves the nodes and the other edges as
/// they are. It panics where a node is missing or the indices are used
/// up, which `requires` leaves out.
#[verifier::external_body]
pub(crate) fn add_edge(g: &mut DiGraph<char, ()>, a: usize, b: usize) -> (ix: usize)
    requires
        a < graph_nodes(*old(g)).len(),
        b < graph_nodes(*old(g)).len(),
        graph_nodes(*old(g)).len() < u32::MAX,
        graph_edges(*old(g)).len() < u32::MAX,
    ensures
        graph_nodes(*final(g)) == graph_nodes(*old(g)),
        graph_edges(*final(g)) == graph_edges(*old(g)).push((a, b)),
        ix == graph_edges(*old(g)).len(),
{
    g.add_edge(petgraph::graph::NodeIndex::new(a), petgraph::graph::NodeIndex::new(b), ()).index()
}

/// Whether the edges join the nodes as the requirements say: edge `i`
/// leads from the node of the first step of requirement `i` to the node
/// of its second step.
pub open spec fn joins(nodes: Seq<char>, edges: Seq<(usize, usize)>, orders: Seq<Order>) -> bool {
    &&& edges.len() == orders.len()
    &&& forall|i: int|
        0 <= i < edges.len() ==> {
            &&& (#[trigger] edges[i]).0 < nodes.len()
            &&& edges[i].1 < nodes.len()
            &&& nodes[edges[i].0 as int] == orders[i].0
            &&& nodes[edges[i].1 as int] == orders[i].1
        }
}

/// The graph of the requirements: a node for each step, in the order in
/// which the requirements first name them, and for each requirement an
/// edge from the step to finish to the step that waits.
pub fn build_graph(orders: &[Order]) -> (g: DiGraph<char, ()>)
    requires
        2 * orders@.len() < u32::MAX,
    ensures
        graph_nodes(g) == steps_of(orders@),
        joins(graph_nodes(g), graph_edges(g), orders@),
{
    let keys = steps(orders);
    proof {
        lemma_steps_of(orders@);
    }
    let mut g = new_graph();
    let mut i: usize = 0;
    while i < keys.len()
        invariant
            i <= keys@.len(),
            keys@.len() < u32::MAX,
            graph_nodes(g) == keys@.take(i as int),
            graph_edges(g) == Seq::<(usize, usize)>::empty(),
        decreases keys@.len() - i,
    {
        add_node(&mut g, keys[i]);
        proof {
            assert(keys@.take(i + 1) =~= keys@.take(i as int).push(keys@[i as int]));
        }
        i += 1;
    }
    assert(keys@.take(i as int) =~= keys@);
    let mut k: usize = 0;
    while k < orders.len()
        invariant
            k <= orders@.len(),
            2 * orders@.len() < u32::MAX,
            keys@ == steps_of(orders@),
            keys@.len() < u32::MAX,
            forall|c: char| #[trigger] keys@.contains(c) <==> is_step(orders@, c),
            graph_nodes(g) == keys@,
            joins(keys@, graph_edges(g), orders@.take(k as int)),
        decreases orders@.len() - k,
    {
        let o = orders[k];
        proof {
            assert(names(orders@[k as int], o.0));
            assert(names(orders@[k as int], o.1));
            assert(keys@.contains(o.0));
            assert(keys@.contains(o.1));
        }
        let before = find_step(&keys, o.0);
        let after = find_step(&keys, o.1);
        match (before, after) {
            (Some(a), Some(b)) => {
                let ghost edges = graph_edges(g);
                add_edge(&mut g, a, b);
                proof {
                    let next = orders@.take(k + 1);
                    assert forall|i: int| 0 <= i < graph_edges(g).len() implies {
                        &&& (#[trigger] graph_edges(g)[i]).0 < keys@.len()
                        &&& graph_edges(g)[i].1 < keys@.len()
                        &&& keys@[graph_edges(g)[i].0 as int] == next[i].0
                        &&& keys@[graph_edges(g)[i].1 as int] == next[i].1
                    } by {
                        if i < k {
                            assert(graph_edges(g)[i] == edges[i]);
                            assert(next[i] == orders@.take(k as int)[i]);
                        }
                    }
                }
            },
            _ => {
                assert(false);
            },
        }
        k += 1;
    }
    assert(orders@.take(k as int) =~= orders@);
    g
}

/// How many requirements make step `c` wait.
pub open spec fn entries(orders: Seq<Order>, c: char) -> nat
    decreases orders.len(),
{
    if orders.len() == 0 {
        0
    } else {
        entries(orders.drop_last(), c) + if orders.last().1 == c {
            1nat
        } else {
            0nat
        }
    }
}

/// Whether some requirement makes step `c` wait for step `p`.
pub open spec fn waits_for(orders: Seq<Order>, p: char, c: char) -> bool {
    exists|i: int| 0 <= i < orders.len() && #[trigger] orders[i] == Order(p, c)
}

/// For how many of the finished steps step `c` was waiting.
pub open spec fn met(orders: Seq<Order>, done: Seq<char>, c: char) -> nat
    decreases done.len(),
{
    if done.len() == 0 {
        0
    } else {
        met(orders, done.drop_last(), c) + if waits_for(orders, done.last(), c) {
            1nat
        } else {
            0nat
        }
    }
}

/// Whether step `c` waits for nothing more: as many steps that it waits
/// for are finished as there are requirements that make it wait. A
/// requirement that is written twice counts twice, its step to finish
/// once: a step behind such a requirement waits for ever.
pub open spec fn ready(orders: Seq<Order>, done: Seq<char>, c: char) -> bool {
    entries(orders, c) == met(orders, done, c)
}

/// Whether step `c` can begin: it is not finished and waits for nothing
/// more.
pub open spec fn available(orders: Seq<Order>, done: Seq<char>, c: char) -> bool {
    !done.contains(c) && ready(orders, done, c)
}

/// The first in the alphabet of the candidates that can begin.
pub open spec fn least_among(orders: Seq<Order>, done: Seq<char>, candidates: Seq<char>) -> Option<
    char,
>
    decreases candidates.len(),
{
    if candidates.len() == 0 {
        None
    } else {
        let c = candidates.last();
        match least_among(orders, done, candidates.drop_last()) {
            Some(best) => if available(orders, done, c) && (c as u32) < best as u32 {
                Some(c)
            } else {
                Some(best)
            },
            None => if available(orders, done, c) {
                Some(c)
            } else {
                None
            },
        }
    }
}

/// The step to do next: the first in the alphabet of the steps that can
/// begin.
pub open spec fn next_step(orders: Seq<Order>, done: Seq<char>) -> Option<char> {
    least_among(orders, done, steps_of(orders))
}

/// The steps in the order in which they are done, after `done`, as far
/// as `fuel` steps more.
pub open spec fn plan(orders: Seq<Order>, done: Seq<char>, fuel: nat) -> Seq<char>
    decreases fuel,
{
    if fuel == 0 {
        done
    } else {
        match next_step(orders, done) {
            Some(c) => plan(orders, done.push(c), (fuel - 1) as nat),
            None => done,
        }
    }
}

/// The order in which the steps are done, one at a time.
pub open spec fn sequence(orders: Seq<Order>) -> Seq<char> {
    plan(orders, Seq::empty(), steps_of(orders).len())
}

/// The least of the candidates that can begin can begin, is a candidate,
/// and no candidate that can begin comes before it in the alphabet;
/// there is none only where no candidate can begin.
pub proof fn lemma_least_among(orders: Seq<Order>, done: Seq<char>, candidates: Seq<char>)
    ensures
        match least_among(orders, done, candidates) {
            Some(c) => candidates.contains(c) && available(orders, done, c) && forall|i: int|
                0 <= i < candidates.len() && available(orders, done, #[trigger] candidates[i]) ==> c as u32
                    <= candidates[i] as u32,
            None => forall|i: int|
                0 <= i < candidates.len() ==> !available(orders, done, #[trigger] candidates[i]),
        },
    decreases candidates.len(),
{
    if candidates.len() > 0 {
        let rest = candidates.drop_last();
        lemma_least_among(orders, done, rest);
        assert forall|i: int| 0 <= i < rest.len() implies rest[i] == candidates[i] by {}
        match least_among(orders, done, rest) {
            Some(best) => {
                let i = choose|i: int| 0 <= i < rest.len() && rest[i] == best;
                assert(candidates[i] == best);
            },
            None => {},
        }
        assert(candidates[candidates.len() - 1] == candidates.last());
    }
}

/// Whether `done` is a stretch of a plan: steps of the requirements, each
/// once.
pub open spec fn under_way(orders: Seq<Order>, done: Seq<char>) -> bool {
    done.no_duplicates() && forall|i: int|
        0 <= i < done.len() ==> steps_of(orders).contains(#[trigger] done[i])
}

/// A plan that goes on for as many steps as are left to do ends where no
/// step can begin, and holds steps of the requirements only, each once.
pub proof fn lemma_plan(orders: Seq<Order>, done: Seq<char>, fuel: nat)
    requires
        under_way(orders, done),
        done.len() + fuel == steps_of(orders).len(),
    ensures
        under_way(orders, plan(orders, done, fuel)),
        next_step(orders, plan(orders, done, fuel)) is None,
    decreases fuel,
{
    let steps = steps_of(orders);
    lemma_least_among(orders, done, steps);
    lemma_steps_of(orders);
    if fuel == 0 {
        if let Some(c) = next_step(orders, done) {
            done.unique_seq_to_set();
            steps.unique_seq_to_set();
            vstd::seq_lib::seq_to_set_is_finite(done);
            vstd::seq_lib::seq_to_set_is_finite(steps);
            assert(done.to_set().subset_of(steps.to_set())) by {
                assert forall|x: char| done.to_set().contains(x) implies steps.to_set().contains(
                    x,
                ) by {
                    let i = choose|i: int| 0 <= i < done.len() && done[i] == x;
                    assert(steps.contains(done[i]));
                }
            }
            vstd::set_lib::lemma_subset_equality(done.to_set(), steps.to_set());
            assert(steps.to_set().contains(c));
            assert(done.to_set().contains(c));
            assert(done.contains(c));
        }
    } else {
        match next_step(orders, done) {
            Some(c) => {
                let longer = done.push(c);
                assert(under_way(orders, longer)) by {
                    assert forall|i: int, j: int|
                        0 <= i < longer.len() && 0 <= j < longer.len() && i != j implies longer[i]
                        != longer[j] by {
                        if i < done.len() {
                            assert(done.contains(longer[i]));
                        }
                        if j < done.len() {
                            assert(done.contains(longer[j]));
                        }
                    }
                    assert forall|i: int| 0 <= i < longer.len() implies steps.contains(
                        #[trigger] longer[i],
                    ) by {
                        if i < done.len() {
                            assert(longer[i] == done[i]);
                        }
                    }
                }
                lemma_plan(orders, longer, (fuel - 1) as nat);
            },
            None => {},
        }
    }
}

/// The order in which the steps are done holds steps of the requirements
/// only, each once, and ends where no step can begin.
pub proof fn lemma_sequence(orders: Seq<Order>)
    ensures
        under_way(orders, sequence(orders)),
        next_step(orders, sequence(orders)) is None,
{
    lemma_plan(orders, Seq::empty(), steps_of(orders).len());
}

fn count_entries(orders: &[Order], c: char) -> (n: usize)
    ensures
        n == entries(orders@, c),
{
    let mut n: usize = 0;
    let mut i: usize = 0;
    assert(orders@.take(0) =~= Seq::<Order>::empty());
    while i < orders.len()
        invariant
            i <= orders@.len(),
            n <= i,
            n == entries(orders@.take(i as int), c),
        decreases orders@.len() - i,
    {
        proof {
            assert(orders@.take(i + 1).drop_last() =~= orders@.take(i as int));
        }
        if orders[i].1 == c {
            n += 1;
        }
        i += 1;
    }
    assert(orders@.take(i as int) =~= orders@);
    n
}

fn has_order(orders: &[Order], p: char, c: char) -> (found: bool)
    ensures
        found == waits_for(orders@, p, c),
{
    let mut i: usize = 0;
    while i < orders.len()
        invariant
            i <= orders@.len(),
            forall|j: int| 0 <= j < i ==> orders@[j] != Order(p, c),
        decreases orders@.len() - i,
    {
        if orders[i].0 == p && orders[i].1 == c {
            return true;
        }
        i += 1;
    }
    false
}

fn count_met(orders: &[Order], done: &Vec<char>, c: char) -> (n: usize)
    ensures
        n == met(orders@, done@, c),
{
    let mut n: usize = 0;
    let mut i: usize = 0;
    assert(done@.take(0) =~= Seq::<char>::empty());
    while i < done.len()
        invariant
            i <= done@.len(),
            n <= i,
            n == met(orders@, done@.take(i as int), c),
        decreases done@.len() - i,
    {
        proof {
            assert(done@.take(i + 1).drop_last() =~= done@.take(i as int));
        }
        if has_order(orders, done[i], c) {
            n += 1;
        }
        i += 1;
    }
    assert(done@.take(i as int) =~= done@);
    n
}

fn is_ready(orders: &[Order], done: &Vec<char>, c: char) -> (free: bool)
    ensures
        free == ready(orders@, done@, c),
{
    count_entries(orders, c) == count_met(orders, done, c)
}

fn can_begin(orders: &[Order], done: &Vec<char>, c: char) -> (free: bool)
    ensures
        free == available(orders@, done@, c),
{
    find_step(done, c).is_none() && is_ready(orders, done, c)
}

fn find_next(orders: &[Order], done: &Vec<char>, candidates: &Vec<char>) -> (next: Option<char>)
    ensures
        next == least_among(orders@, done@, candidates@),
{
    let mut next: Option<char> = None;
    let mut i: usize = 0;
    assert(candidates@.take(0) =~= Seq::<char>::empty());
    while i < candidates.len()
        invariant
            i <= candidates@.len(),
            next == least_among(orders@, done@, candidates@.take(i as int)),
        decreases candidates@.len() - i,
    {
        proof {
            assert(candidates@.take(i + 1).drop_last() =~= candidates@.take(i as int));
        }
        let c = candidates[i];
        let better = match next {
            Some(best) => (c as u32) < best as u32,
            None => true,
        };
        if better && can_begin(orders, done, c) {
            next = Some(c);
        }
        i += 1;
    }
    assert(candidates@.take(i as int) =~= candidates@);
    next
}

/// The order in which the steps are done, one at a time: always the
/// first in the alphabet of the steps that can begin.
pub fn part1(s: &[Order]) -> (r: String)
    ensures
        r@ == sequence(s@),
{
    let keys = steps(s);
    let mut done: Vec<char> = Vec::new();
    let mut result = String::new();
    while done.len() < keys.len()
        invariant
            keys@ == steps_of(s@),
            done@.len() <= keys@.len(),
            result@ == done@,
            sequence(s@) == plan(s@, done@, (keys@.len() - done@.len()) as nat),
        decreases keys@.len() - done@.len(),
    {
        match find_next(s, &done, &keys) {
            Some(c) => {
                done.push(c);
                result.push(c);
            },
            None => {
                return result;
            },
        }
    }
    result
}

/// The number of workers.
pub const WORKERS: usize = 5;

/// The seconds that step `A` takes; each later letter takes one more.
pub const BASE: usize = 61;

/// The seconds that a step takes, by the last byte of its code; a step
/// before `A` has no time.
pub open spec fn duration(task: char) -> Option<usize> {
    let byte = (task as u32) % 256;
    if byte < 65 {
        None
    } else {
        Some((byte - 65 + BASE) as usize)
    }
}

/// The seconds that a step takes.
pub fn step_time(task: char) -> (time: Option<usize>)
    ensures
        time == duration(task),
{
    let byte: u32 = (task as u32) % 256;
    if byte < 65 {
        None
    } else {
        Some((byte - 65) as usize + BASE)
    }
}

/// The workshop: for each worker the seconds that its step still takes
/// and the step, the steps that wait to be handed out, and the steps
/// that are finished.
pub ghost struct Shop {
    pub workers: Seq<(usize, Option<char>)>,
    pub tasks: Seq<char>,
    pub finished: Seq<char>,
}

/// The workshop after the workers below `upto` have worked for a second:
/// a worker whose step is done puts it with the finished steps.
pub open spec fn work(shop: Shop, upto: nat) -> Shop
    decreases upto,
{
    if upto == 0 {
        shop
    } else {
        let s = work(shop, (upto - 1) as nat);
        let i = upto - 1;
        let w = s.workers[i];
        if w.0 == 0 {
            s
        } else if w.0 == 1 {
            Shop {
                workers: s.workers.update(i, (0usize, None::<char>)),
                finished: match w.1 {
                    Some(task) => s.finished.push(task),
                    None => s.finished,
                },
                ..s
            }
        } else {
            Shop { workers: s.workers.update(i, ((w.0 - 1) as usize, w.1)), ..s }
        }
    }
}

/// The place of the first step from `from` on that waits for nothing
/// more.
pub open spec fn first_ready(orders: Seq<Order>, shop: Shop, from: int) -> Option<int>
    decreases shop.tasks.len() - from,
{
    if from < 0 || from >= shop.tasks.len() {
        None
    } else if ready(orders, shop.finished, shop.tasks[from]) {
        Some(from)
    } else {
        first_ready(orders, shop, from + 1)
    }
}

/// The first worker from `from` on that has nothing to do.
pub open spec fn first_idle(workers: Seq<(usize, Option<char>)>, from: int) -> Option<int>
    decreases workers.len() - from,
{
    if from < 0 || from >= workers.len() {
        None
    } else if workers[from].0 == 0 {
        Some(from)
    } else {
        first_idle(workers, from + 1)
    }
}

/// The workshop after the steps that wait for nothing more were handed
/// out, in their order, to the workers that have nothing to do, as far
/// as there are such steps and such workers. `MalformedInput` where a
/// step that is handed out has no time.
pub open spec fn hand_out(orders: Seq<Order>, shop: Shop) -> Result<Shop, Error>
    decreases shop.tasks.len(),
{
    match (first_ready(orders, shop, 0), first_idle(shop.workers, 0)) {
        (Some(i), Some(w)) => if 0 <= i < shop.tasks.len() {
            match duration(shop.tasks[i]) {
                Some(time) => hand_out(
                    orders,
                    Shop {
                        workers: shop.workers.update(w, (time, Some(shop.tasks[i]))),
                        tasks: shop.tasks.remove(i),
                        ..shop
                    },
                ),
                None => Err(Error::MalformedInput),
            }
        } else {
            Ok(shop)
        },
        _ => Ok(shop),
    }
}

/// Whether a worker has something to do.
pub open spec fn busy(workers: Seq<(usize, Option<char>)>, from: int) -> bool
    decreases workers.len() - from,
{
    if from < 0 || from >= workers.len() {
        false
    } else {
        workers[from].0 != 0 || busy(workers, from + 1)
    }
}

/// The outcome `r` of a count of seconds that began `seconds` later.
pub open spec fn later(r: Result<Option<nat>, Error>, seconds: nat) -> Result<Option<nat>, Error> {
    match r {
        Ok(Some(n)) => Ok(Some(n + seconds)),
        other => other,
    }
}

/// The seconds until every worker is idle: in each second the workers
/// work, and then the steps that wait for nothing more are handed out.
/// Nothing where that takes more than `limit` seconds.
pub open spec fn work_time(orders: Seq<Order>, shop: Shop, limit: nat) -> Result<Option<nat>, Error>
    decreases limit,
{
    match hand_out(orders, work(shop, shop.workers.len())) {
        Err(e) => Err(e),
        Ok(next) => if !busy(next.workers, 0) {
            Ok(Some(0))
        } else if limit == 0 {
            Ok(None)
        } else {
            later(work_time(orders, next, (limit - 1) as nat), 1)
        },
    }
}

/// The workshop before work begins: the workers idle, every step waiting.
pub open spec fn opening(tasks: Seq<char>) -> Shop {
    Shop {
        workers: Seq::new(WORKERS as nat, |i: int| (0usize, None::<char>)),
        tasks,
        finished: Seq::empty(),
    }
}

/// The seconds that five workers need for the steps `tasks`, which they
/// take in that order as far as the requirements allow: `MalformedInput`
/// where one of them is no step of the requirements or has no time,
/// nothing where they need more than `limit` seconds.
pub open spec fn time_needed(orders: Seq<Order>, tasks: Seq<char>, limit: nat) -> Result<
    Option<nat>,
    Error,
> {
    if exists|i: int| 0 <= i < tasks.len() && !is_step(orders, #[trigger] tasks[i]) {
        Err(Error::MalformedInput)
    } else {
        work_time(orders, opening(tasks), limit)
    }
}

/// The workshop.
pub struct Workshop {
    pub workers: Vec<(usize, Option<char>)>,
    pub tasks: Vec<char>,
    pub finished: Vec<char>,
}

impl View for Workshop {
    type V = Shop;

    open spec fn view(&self) -> Shop {
        Shop { workers: self.workers@, tasks: self.tasks@, finished: self.finished@ }
    }
}

impl Workshop {
    /// Lets every worker work for a second.
    pub fn work(&mut self)
        ensures
            final(self)@ == work(old(self)@, old(self)@.workers.len()),
    {
        let n = self.workers.len();
        let mut i: usize = 0;
        while i < n
            invariant
                i <= n,
                n == old(self)@.workers.len(),
                self@ == work(old(self)@, i as nat),
                self.workers@.len() == n,
            decreases n - i,
        {
            let w = self.workers[i];
            if w.0 == 1 {
                if let Some(task) = w.1 {
                    self.finished.push(task);
                }
                self.workers[i] = (0, None);
            } else if w.0 != 0 {
                self.workers[i] = (w.0 - 1, w.1);
            }
            i += 1;
        }
    }

    /// The place of the first step that waits for nothing more.
    pub fn find_ready(&self, orders: &[Order]) -> (at: Option<usize>)
        ensures
            match at {
                Some(i) => first_ready(orders@, self@, 0) == Some(i as int) && i < self@.tasks.len(),
                None => first_ready(orders@, self@, 0) is None,
            },
    {
        let mut i: usize = 0;
        while i < self.tasks.len()
            invariant
                i <= self.tasks@.len(),
                first_ready(orders@, self@, 0) == first_ready(orders@, self@, i as int),
            decreases self.tasks@.len() - i,
        {
            if is_ready(orders, &self.finished, self.tasks[i]) {
                return Some(i);
            }
            i += 1;
        }
        None
    }

    /// The first worker that has nothing to do.
    pub fn find_idle(&self) -> (at: Option<usize>)
        ensures
            match at {
                Some(i) => first_idle(self@.workers, 0) == Some(i as int) && i < self@.workers.len(),
                None => first_idle(self@.workers, 0) is None,
            },
    {
        let mut i: usize = 0;
        while i < self.workers.len()
            invariant
                i <= self.workers@.len(),
                first_idle(self@.workers, 0) == first_idle(self@.workers, i as int),
            decreases self.workers@.len() - i,
        {
            if self.workers[i].0 == 0 {
                return Some(i);
            }
            i += 1;
        }
        None
    }

    /// Hands the steps that wait for nothing more to the workers that
    /// have nothing to do.
    pub fn hand_out(&mut self, orders: &[Order]) -> (r: Result<(), Error>)
        ensures
            match r {
                Ok(()) => hand_out(orders@, old(self)@) == Ok::<Shop, Error>(final(self)@),
                Err(e) => hand_out(orders@, old(self)@) == Err::<Shop, Error>(e),
            },
    {
        loop
            invariant
                hand_out(orders@, old(self)@) == hand_out(orders@, self@),
            decreases self.tasks@.len(),
        {
            match (self.find_ready(orders), self.find_idle()) {
                (Some(i), Some(w)) => {
                    let task = self.tasks[i];
                    match step_time(task) {
                        Some(time) => {
                            self.workers[w] = (time, Some(task));
                            self.tasks.remove(i);
                        },
                        None => {
                            return Err(Error::MalformedInput);
                        },
                    }
                },
                _ => {
                    return Ok(());
                },
            }
        }
    }

    /// Whether a worker has something to do.
    pub fn is_busy(&self) -> (r: bool)
        ensures
            r == busy(self@.workers, 0),
    {
        let mut i: usize = 0;
        while i < self.workers.len()
            invariant
                i <= self.workers@.len(),
                busy(self@.workers, 0) == busy(self@.workers, i as int),
            decreases self.workers@.len() - i,
        {
            if self.workers[i].0 != 0 {
                return true;
            }
            i += 1;
        }
        false
    }
}

/// The characters of a text.
fn chars_of(text: &str) -> (all: Vec<char>)
    ensures
        all@ == text@,
{
    let n = text.unicode_len();
    let mut all: Vec<char> = Vec::new();
    let mut i: usize = 0;
    while i < n
        invariant
            i <= n,
            n == text@.len(),
            all@ == text@.take(i as int),
        decreases n - i,
    {
        all.push(text.get_char(i));
        proof {
            assert(text@.take(i + 1) =~= text@.take(i as int).push(text@[i as int]));
        }
        i += 1;
    }
    assert(text@.take(n as int) =~= text@);
    all
}

/// The seconds that five workers need for the steps `seq`, which they
/// take in that order as far as the requirements allow.
pub fn part2(s: &[Order], seq: &str, limit: usize) -> (r: Result<Option<usize>, Error>)
    ensures
        match r {
            Ok(Some(n)) => time_needed(s@, seq@, limit as nat) == Ok::<Option<nat>, Error>(
                Some(n as nat),
            ),
            Ok(None) => time_needed(s@, seq@, limit as nat) == Ok::<Option<nat>, Error>(None),
            Err(e) => time_needed(s@, seq@, limit as nat) == Err::<Option<nat>, Error>(e),
        },
{
    let keys = steps(s);
    let tasks = chars_of(seq);
    proof {
        lemma_steps_of(s@);
    }
    let mut i: usize = 0;
    while i < tasks.len()
        invariant
            i <= tasks@.len(),
            keys@ == steps_of(s@),
            forall|c: char| #[trigger] keys@.contains(c) <==> is_step(s@, c),
            tasks@ == seq@,
            forall|j: int| 0 <= j < i ==> is_step(s@, #[trigger] tasks@[j]),
        decreases tasks@.len() - i,
    {
        let found = find_step(&keys, tasks[i]);
        proof {
            assert(keys@.contains(tasks@[i as int]) <==> is_step(s@, tasks@[i as int]));
            if found is Some {
                assert(keys@[found.unwrap() as int] == tasks@[i as int]);
            }
        }
        if found.is_none() {
            return Err(Error::MalformedInput);
        }
        i += 1;
    }
    let mut workers: Vec<(usize, Option<char>)> = Vec::new();
    let mut k: usize = 0;
    while k < WORKERS
        invariant
            k <= WORKERS,
            workers@ == Seq::new(k as nat, |i: int| (0usize, None::<char>)),
        decreases WORKERS - k,
    {
        workers.push((0, None));
        proof {
            assert(workers@ =~= Seq::new((k + 1) as nat, |i: int| (0usize, None::<char>)));
        }
        k += 1;
    }
    let mut shop = Workshop { workers, tasks, finished: Vec::new() };
    let mut tick: usize = 0;
    proof {
        assert(shop@ == opening(seq@));
    }
    loop
        invariant
            tick <= limit,
            time_needed(s@, seq@, limit as nat) == later(
                work_time(s@, shop@, (limit - tick) as nat),
                tick as nat,
            ),
        decreases limit - tick,
    {
        shop.work();
        match shop.hand_out(s) {
            Err(e) => {
                return Err(e);
            },
            Ok(()) => {},
        }
        if !shop.is_busy() {
            return Ok(Some(tick));
        }
        if tick == limit {
            return Ok(None);
        }
        tick += 1;
    }
}

} // verus!
