use advent2018::scheduler::error::SchedulerError;
use advent2018::scheduler::graph::{Dep, Graph, Node};
use advent2018::scheduler::sequential::{part1, walk_order};
use advent2018::scheduler::timed::part2;
use advent2018::scheduler::walker::GraphWalker;
use advent2018::scheduler::workers::WorkersPool;

fn deps(edges: &[(char, char)]) -> Vec<Dep> {
    edges.iter().map(|&(dep, step)| Dep { step, dep }).collect()
}

fn example() -> Vec<Dep> {
    deps(&[('C', 'A'), ('C', 'F'), ('A', 'B'), ('A', 'D'), ('B', 'E'), ('D', 'E'), ('F', 'E')])
}

fn ordinal(c: char) -> u32 {
    (c as u32) - ('A' as u32) + 1
}

#[test]
fn graph_lists_constraints_in_order() {
    let graph = Graph::new(&example());
    assert_eq!(graph.map.len(), 6);
    let c = &graph.map[&('C' as u32)];
    assert_eq!(c.name, 'C');
    assert_eq!(c.next_nodes, vec!['A', 'F']);
    assert_eq!(c.dep_nodes, Vec::<char>::new());
    let e = &graph.map[&('E' as u32)];
    assert_eq!(e.next_nodes, Vec::<char>::new());
    assert_eq!(e.dep_nodes, vec!['B', 'D', 'F']);
    let a = &graph.map[&('A' as u32)];
    assert_eq!(a.next_nodes, vec!['B', 'D']);
    assert_eq!(a.dep_nodes, vec!['C']);
}

#[test]
fn graph_construction_is_idempotent() {
    let one = Graph::new(&example());
    let two = Graph::new(&example());
    assert_eq!(one.map.len(), two.map.len());
    for (key, node) in one.map.iter() {
        let other = &two.map[key];
        assert_eq!(node.name, other.name);
        assert_eq!(node.next_nodes, other.next_nodes);
        assert_eq!(node.dep_nodes, other.dep_nodes);
    }
}

#[test]
fn graph_keeps_repeated_constraints() {
    let graph = Graph::new(&deps(&[('A', 'B'), ('A', 'B')]));
    assert_eq!(graph.map[&('A' as u32)].next_nodes, vec!['B', 'B']);
    assert_eq!(graph.map[&('B' as u32)].dep_nodes, vec!['A', 'A']);
    assert_eq!(part1(&graph), Ok("AB".to_string()));
}

#[test]
fn get_or_add_node_adds_once() {
    let mut graph = Graph::new(&Vec::new());
    {
        let node = graph.get_or_add_node('X');
        assert_eq!(node.name, 'X');
        node.next_nodes.push('Y');
    }
    let again = graph.get_or_add_node('X');
    assert_eq!(again.next_nodes, vec!['Y']);
    assert_eq!(graph.map.len(), 1);
}

#[test]
fn processing_cost_counts_from_a() {
    let node = |name| Node { name, next_nodes: Vec::new(), dep_nodes: Vec::new() };
    assert_eq!(node('A').processing_cost(), 1);
    assert_eq!(node('B').processing_cost(), 2);
    assert_eq!(node('Z').processing_cost(), 26);
    assert_eq!(node('a').processing_cost(), 33);
}

#[test]
fn sequential_order_of_the_example() {
    let graph = Graph::new(&example());
    assert_eq!(part1(&graph), Ok("CABDFE".to_string()));
}

#[test]
fn sequential_order_does_not_depend_on_the_order_of_constraints() {
    let mut reversed = example();
    reversed.reverse();
    assert_eq!(part1(&Graph::new(&reversed)), Ok("CABDFE".to_string()));
}

#[test]
fn sequential_order_visits_each_task_once_after_its_prerequisites() {
    let edges = example();
    let order: Vec<char> = part1(&Graph::new(&edges)).unwrap().chars().collect();
    assert_eq!(order.len(), 6);
    for task in ['A', 'B', 'C', 'D', 'E', 'F'] {
        assert_eq!(order.iter().filter(|&&c| c == task).count(), 1);
    }
    for d in &edges {
        let before = order.iter().position(|&c| c == d.dep).unwrap();
        let after = order.iter().position(|&c| c == d.step).unwrap();
        assert!(before < after);
    }
}

#[test]
fn sequential_order_takes_the_smallest_ready_task() {
    // B and C are both free at the start, A only after C
    let graph = Graph::new(&deps(&[('C', 'A'), ('B', 'D')]));
    assert_eq!(part1(&graph), Ok("BCAD".to_string()));
}

#[test]
fn empty_graph_has_empty_order_and_takes_no_time() {
    let graph = Graph::new(&Vec::new());
    assert_eq!(part1(&graph), Ok(String::new()));
    assert_eq!(part2(&graph, 3, ordinal, 60), Ok(0));
}

#[test]
fn single_task_without_constraints() {
    let mut graph = Graph::new(&Vec::new());
    graph.get_or_add_node('D');
    assert_eq!(part1(&graph), Ok("D".to_string()));
    for workers in 1..6 {
        assert_eq!(part2(&graph, workers, ordinal, 60), Ok(64));
        assert_eq!(part2(&graph, workers, ordinal, 0), Ok(4));
    }
}

#[test]
fn cycle_is_reported_as_stalled() {
    // A is reached, B and C wait for each other
    let graph = Graph::new(&deps(&[('A', 'B'), ('B', 'C'), ('C', 'B')]));
    assert_eq!(part1(&graph), Err(SchedulerError::Stalled));
    assert_eq!(part2(&graph, 2, ordinal, 0), Err(SchedulerError::Stalled));
    let alone = Graph::new(&deps(&[('A', 'A')]));
    assert_eq!(part1(&alone), Err(SchedulerError::Stalled));
    assert_eq!(part2(&alone, 1, ordinal, 0), Err(SchedulerError::Stalled));
}

#[test]
fn pool_without_workers_is_rejected() {
    let graph = Graph::new(&example());
    assert_eq!(part2(&graph, 0, ordinal, 0), Err(SchedulerError::NoWorkers));
    assert_eq!(part2(&Graph::new(&Vec::new()), 0, ordinal, 0), Err(SchedulerError::NoWorkers));
}

#[test]
fn two_workers_need_fifteen_for_the_example() {
    let graph = Graph::new(&example());
    assert_eq!(part2(&graph, 2, ordinal, 0), Ok(15));
}

#[test]
fn five_workers_with_overhead_sixty() {
    let graph = Graph::new(&example());
    assert_eq!(part2(&graph, 5, ordinal, 60), Ok(253));
}

#[test]
fn one_worker_needs_the_sum_of_all_durations() {
    let graph = Graph::new(&example());
    // A..F cost 1..6
    assert_eq!(part2(&graph, 1, ordinal, 0), Ok(21));
    assert_eq!(part2(&graph, 1, ordinal, 60), Ok(21 + 6 * 60));
    assert_eq!(part2(&graph, 1, |_| 7, 3), Ok(60));
}

#[test]
fn pool_is_not_slower_than_one_worker() {
    let graph = Graph::new(&example());
    let alone = part2(&graph, 1, ordinal, 0).unwrap();
    for workers in 2..8 {
        assert!(part2(&graph, workers, ordinal, 0).unwrap() <= alone);
    }
}

#[test]
fn one_worker_time_grows_with_cost() {
    let graph = Graph::new(&example());
    let low = part2(&graph, 1, ordinal, 0).unwrap();
    let high = part2(&graph, 1, |c| ordinal(c) + if c == 'B' { 5 } else { 0 }, 0).unwrap();
    assert_eq!(low, 21);
    assert_eq!(high, 26);
}

#[test]
fn a_third_worker_can_make_the_pool_slower() {
    let graph = Graph::new(&deps(&[('C', 'F'), ('G', 'E'), ('G', 'A'), ('F', 'D')]));
    let mut lone = graph;
    lone.get_or_add_node('B');
    let cost = |c: char| match c {
        'A' => 7,
        'B' => 6,
        'C' => 3,
        'D' => 9,
        'E' => 4,
        'F' => 8,
        _ => 2,
    };
    assert_eq!(part2(&lone, 2, cost, 0), Ok(20));
    assert_eq!(part2(&lone, 3, cost, 0), Ok(23));
}

#[test]
fn a_higher_cost_can_make_the_pool_faster() {
    let mut graph = Graph::new(&deps(&[('B', 'C'), ('B', 'A')]));
    graph.get_or_add_node('D');
    graph.get_or_add_node('E');
    let low = |c: char| match c {
        'A' => 2,
        'B' => 4,
        'C' => 2,
        'D' => 4,
        _ => 6,
    };
    let high = |c: char| if c == 'B' { 5 } else { low(c) };
    assert_eq!(part2(&graph, 2, low, 0), Ok(12));
    assert_eq!(part2(&graph, 2, high, 0), Ok(10));
}

#[test]
fn overhead_and_cost_do_not_overflow() {
    let graph = Graph::new(&example());
    let each = u32::MAX as u64 + u32::MAX as u64;
    assert_eq!(part2(&graph, 1, |_| u32::MAX, u32::MAX), Ok(6 * each));
}

#[test]
fn walker_hands_out_ready_tasks_smallest_first() {
    let graph = Graph::new(&example());
    let mut walker = GraphWalker::new(&graph);
    assert_eq!(walker.take_next(), Some('C'));
    // C is taken, not finished: nothing else is ready
    assert_eq!(walker.take_next(), None);
    walker.add_next_nodes('C');
    assert_eq!(walker.take_next(), Some('A'));
    assert_eq!(walker.take_next(), Some('F'));
    assert_eq!(walker.take_next(), None);
    walker.add_next_nodes('F');
    assert_eq!(walker.take_next(), None);
    walker.add_next_nodes('A');
    assert_eq!(walker.take_next(), Some('B'));
    assert_eq!(walker.take_next(), Some('D'));
    walker.add_next_nodes('D');
    assert_eq!(walker.take_next(), None);
    walker.add_next_nodes('B');
    assert_eq!(walker.take_next(), Some('E'));
    walker.add_next_nodes('E');
    assert_eq!(walker.take_next(), None);
}

#[test]
fn workers_pool_picks_first_free_worker() {
    let mut pool = WorkersPool::new(3);
    assert_eq!(pool.workers.len(), 3);
    assert_eq!(pool.get_final_time(), 0);
    pool.get_next_available_worker().available_at = 5;
    assert_eq!(pool.workers[0].available_at, 5);
    pool.get_next_available_worker().available_at = 3;
    assert_eq!(pool.workers[1].available_at, 3);
    pool.get_next_available_worker().available_at = 9;
    assert_eq!(pool.workers[2].available_at, 9);
    // the second worker is free first now
    pool.get_next_available_worker().available_at = 4;
    assert_eq!(pool.workers[1].available_at, 4);
    assert_eq!(pool.get_final_time(), 9);
}

#[test]
fn walk_order_ends_before_a_cycle() {
    let graph = Graph::new(&deps(&[('A', 'B'), ('B', 'C'), ('C', 'B')]));
    assert_eq!(walk_order(&graph), ("A".to_string(), false));
    // D waits for the cycle, E and F do not
    let more = Graph::new(&deps(&[('F', 'E'), ('B', 'C'), ('C', 'B'), ('C', 'D'), ('F', 'A')]));
    assert_eq!(walk_order(&more), ("FAE".to_string(), false));
    let alone = Graph::new(&deps(&[('A', 'A')]));
    assert_eq!(walk_order(&alone), (String::new(), false));
}

#[test]
fn walk_order_of_a_graph_without_cycle_is_complete() {
    assert_eq!(walk_order(&Graph::new(&example())), ("CABDFE".to_string(), true));
    assert_eq!(walk_order(&Graph::new(&Vec::new())), (String::new(), true));
}

#[test]
fn walker_counts_the_prerequisites_of_blocked_tasks() {
    let graph = Graph::new(&example());
    let walker = GraphWalker::new(&graph);
    assert_eq!(walker.queue, vec!['C']);
    let mut counts: Vec<(u32, usize)> = walker.dep_map.iter().map(|(k, v)| (*k, *v)).collect();
    counts.sort();
    let code = |c: char| c as u32;
    assert_eq!(counts, vec![(code('A'), 1), (code('B'), 1), (code('D'), 1), (code('E'), 3), (code('F'), 1)]);
}

#[test]
fn finishing_a_task_touches_the_counts_of_its_successors_only() {
    let graph = Graph::new(&example());
    let mut walker = GraphWalker::new(&graph);
    assert_eq!(walker.take_next(), Some('C'));
    walker.add_next_nodes('C');
    assert_eq!(walker.dep_map.len(), 5);
    assert_eq!(walker.dep_map[&('E' as u32)], 3);
    assert_eq!(walker.dep_map[&('B' as u32)], 1);
    assert_eq!(walker.dep_map[&('D' as u32)], 1);
    assert_eq!(walker.take_next(), Some('A'));
    assert_eq!(walker.take_next(), Some('F'));
    walker.add_next_nodes('F');
    assert_eq!(walker.dep_map.len(), 5);
    assert_eq!(walker.dep_map[&('E' as u32)], 2);
    walker.add_next_nodes('A');
    assert_eq!(walker.dep_map[&('E' as u32)], 2);
    assert_eq!(walker.queue.len(), 2);
}

#[test]
fn a_worker_for_every_task_needs_the_critical_path() {
    let graph = Graph::new(&example());
    // the longest chain is C, F, E with 3 + 6 + 5
    for workers in [6, 7, 50] {
        assert_eq!(part2(&graph, workers, ordinal, 0), Ok(14));
    }
    assert_eq!(part2(&graph, 6, |_| 0, 0), Ok(0));
    assert_eq!(part2(&graph, 6, |c| if c == 'C' || c == 'E' { 3 } else { 0 }, 0), Ok(6));
}

#[test]
fn no_pool_is_done_before_the_critical_path() {
    let graph = Graph::new(&example());
    for workers in 1..8 {
        assert!(part2(&graph, workers, ordinal, 0).unwrap() >= 14);
    }
}

#[test]
fn no_pool_is_done_before_each_worker_has_done_its_share() {
    let graph = Graph::new(&example());
    for workers in 1..8u32 {
        let time = part2(&graph, workers, ordinal, 0).unwrap();
        assert!(time * workers as u64 >= 21);
    }
}

#[test]
fn with_a_worker_for_every_task_time_grows_with_cost() {
    let graph = Graph::new(&example());
    let high = |c| ordinal(c) + if c == 'B' { 5 } else { 0 };
    assert_eq!(part2(&graph, 6, ordinal, 0), Ok(14));
    assert_eq!(part2(&graph, 6, high, 0), Ok(16));
}

#[test]
fn a_worker_for_every_task_is_not_slower_than_fewer() {
    let mut graph = Graph::new(&deps(&[('C', 'F'), ('G', 'E'), ('G', 'A'), ('F', 'D')]));
    graph.get_or_add_node('B');
    let cost = |c: char| match c {
        'A' => 7,
        'B' => 6,
        'C' => 3,
        'D' => 9,
        'E' => 4,
        'F' => 8,
        _ => 2,
    };
    let all = part2(&graph, 7, cost, 0).unwrap();
    assert_eq!(all, 20);
    for workers in 1..7 {
        assert!(all <= part2(&graph, workers, cost, 0).unwrap());
    }
    assert_eq!(part2(&graph, 8, cost, 0), Ok(20));
}
