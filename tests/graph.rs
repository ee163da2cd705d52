use polygraph::audio_graph::{BufferIndex, OutputBufferIndex, ProcessTask};
use polygraph::graph::{route_to_masters, AudioGraph, InputID, Node, NodeID, OutputID, Task, UNUSED};

fn id(b: bool) -> bool {
    b
}

#[test]
fn basic_cycle() {
    let mut graph = AudioGraph::default();

    let mut node1 = Node::default();
    let node1_input_id = node1.add_input();
    let node1_output_id = node1.add_output();
    let node1_id = graph.insert_node(node1);

    let mut node2 = Node::default();
    let node2_input_id = node2.add_input();
    let node2_output_id = node2.add_output();
    let node2_id = graph.insert_node(node2);

    assert!(graph
        .try_insert_edge(
            (node2_id.clone(), node2_output_id),
            (node1_id.clone(), node1_input_id),
        )
        .is_ok_and(id));
    assert!(graph
        .try_insert_edge((node1_id, node1_output_id), (node2_id, node2_input_id))
        .is_err_and(id));
}

#[test]
fn tests_insert_redundant_edge() {
    let mut graph = AudioGraph::default();

    let mut node1 = Node::default();
    let node1_output = node1.add_output();
    let node1_id = graph.insert_node(node1);

    let mut node2 = Node::default();
    let node2_input = node2.add_input();
    let node2_id = graph.insert_node(node2);

    assert!(graph
        .try_insert_edge(
            (node1_id.clone(), node1_output.clone()),
            (node2_id.clone(), node2_input.clone()),
        )
        .is_ok_and(id));
    assert!(graph
        .try_insert_edge((node1_id, node1_output), (node2_id, node2_input))
        .is_ok_and(|b| !b));
}

#[test]
fn tests_test_basic() {
    let mut graph = AudioGraph::default();

    let mut master = Node::default();
    let master_input_id = master.add_input();
    let master_id = graph.insert_node(master);

    let mut node = Node::default();
    let node_output_id = node.add_output();
    let node_id = graph.insert_node(node);

    assert!(graph
        .try_insert_edge(
            (node_id.clone(), node_output_id.clone()),
            (master_id.clone(), master_input_id.clone()),
        )
        .is_ok_and(id));

    let (num_buffers, schedule) = graph.compile(vec![master_id.clone()]);

    assert_eq!(
        schedule,
        &[
            Task::node(node_id, vec![], vec![(node_output_id, 0)]),
            Task::node(master_id, vec![(master_input_id, 0)], vec![]),
        ]
    );

    assert_eq!(num_buffers, 1);
}

#[test]
fn test_chain() {
    let mut graph = AudioGraph::default();

    let mut master = Node::default();
    let master_input_id = master.add_input();
    let master_id = graph.insert_node(master);

    let mut node1 = Node::default();
    let node1_output_id = node1.add_output();
    let node1_id = graph.insert_node(node1);

    let mut node2 = Node::default();
    let node2_output_id = node2.add_output();
    let node2_input_id = node2.add_input();
    let node2_id = graph.insert_node(node2);

    let mut node3 = Node::default();
    let node3_output_id = node3.add_output();
    let node3_input_id = node3.add_input();
    let node3_id = graph.insert_node(node3);

    assert!(graph
        .try_insert_edge(
            (node1_id.clone(), node1_output_id.clone()),
            (node2_id.clone(), node2_input_id.clone())
        )
        .is_ok_and(id));
    assert!(graph
        .try_insert_edge(
            (node2_id.clone(), node2_output_id.clone()),
            (node3_id.clone(), node3_input_id.clone())
        )
        .is_ok_and(id));
    assert!(graph
        .try_insert_edge(
            (node3_id.clone(), node3_output_id.clone()),
            (master_id.clone(), master_input_id.clone())
        )
        .is_ok_and(id));

    let (num_buffers, schedule) = graph.compile(vec![master_id.clone()]);

    assert_eq!(
        schedule,
        &[
            Task::node(node1_id, vec![], vec![(node1_output_id, 0)]),
            Task::node(node2_id, vec![(node2_input_id, 0)], vec![(node2_output_id, 0)]),
            Task::node(node3_id, vec![(node3_input_id, 0)], vec![(node3_output_id, 0)]),
            Task::node(master_id, vec![(master_input_id, 0)], vec![]),
        ]
    );

    assert_eq!(num_buffers, 1);
}

#[test]
fn test_mutiple_outputs() {
    let mut graph = AudioGraph::default();

    let mut master: Vec<Node> = (0..4).map(|_| Node::default()).collect();
    let mut node = master.clone();

    let master_input_id: Vec<InputID> = master.iter_mut().map(Node::add_input).collect();
    let node_output_id: Vec<OutputID> = node.iter_mut().map(Node::add_output).collect();

    let master_id: Vec<NodeID> = master.into_iter().map(|n| graph.insert_node(n)).collect();
    let node_id: Vec<NodeID> = node.into_iter().map(|n| graph.insert_node(n)).collect();

    for k in 0..4 {
        assert!(graph
            .try_insert_edge(
                (node_id[k], node_output_id[k]),
                (master_id[k], master_input_id[k]),
            )
            .is_ok_and(id));
    }

    let (num_buffers, schedule) = graph.compile(master_id.clone());

    for k in 0..4 {
        let process_task = Task::node(node_id[k], vec![], vec![(node_output_id[k], 0)]);
        let proc_task_pos = schedule
            .iter()
            .position(|task| task == &process_task)
            .unwrap();

        let master_task = Task::node(master_id[k], vec![(master_input_id[k], 0)], vec![]);
        let master_task_pos = schedule
            .iter()
            .position(|task| task == &master_task)
            .unwrap();

        assert!(proc_task_pos < master_task_pos);
    }

    assert_eq!(num_buffers, 1);
}

#[test]
fn test_adder() {
    let mut graph = AudioGraph::default();

    let mut master = Node::default();
    let master_input_id = master.add_input();
    let master_id = graph.insert_node(master);

    let mut left = Node::default();
    let left_output_id = left.add_output();
    let left_id = graph.insert_node(left);
    let mut right = Node::default();
    let right_output_id = right.add_output();
    let right_id = graph.insert_node(right);

    assert!(graph
        .try_insert_edge(
            (left_id.clone(), left_output_id.clone()),
            (master_id.clone(), master_input_id.clone()),
        )
        .is_ok_and(id));
    assert!(graph
        .try_insert_edge(
            (right_id.clone(), right_output_id.clone()),
            (master_id.clone(), master_input_id.clone()),
        )
        .is_ok_and(id));

    let (num_buffers, schedule) = graph.compile(vec![master_id.clone()]);

    assert_eq!(
        schedule,
        [
            Task::node(left_id, vec![], vec![(left_output_id, 0)]),
            Task::node(right_id, vec![], vec![(right_output_id, 1)]),
            Task::sum(1, 0, 0),
            Task::node(master_id, vec![(master_input_id, 0)], vec![]),
        ]
    );

    assert_eq!(num_buffers, 2);
}

#[test]
fn mutiple_input_ports() {
    let mut graph = AudioGraph::default();

    let mut master = Node::default();
    let master_input_id = master.add_input();
    let master_id = graph.insert_node(master);

    let mut source_node = Node::default();
    let source_node_output_id = source_node.add_output();
    let source_node_id = graph.insert_node(source_node);

    let mut sink_node = Node::default();
    let sink_node_input_ids: Vec<InputID> = (0..4).map(|_i| sink_node.add_input()).collect();
    let sink_node_output_id = sink_node.add_output();
    let sink_node_id = graph.insert_node(sink_node);

    for sink_node_input_id in &sink_node_input_ids {
        assert!(graph
            .try_insert_edge(
                (source_node_id.clone(), source_node_output_id.clone()),
                (sink_node_id.clone(), sink_node_input_id.clone())
            )
            .is_ok_and(id));
    }

    assert!(graph
        .try_insert_edge(
            (sink_node_id.clone(), sink_node_output_id.clone()),
            (master_id.clone(), master_input_id.clone())
        )
        .is_ok_and(id));

    let (num_buffers, schedule) = graph.compile(vec![master_id.clone()]);

    assert_eq!(
        schedule,
        [
            Task::node(source_node_id, vec![], vec![(source_node_output_id, 0)]),
            Task::node(
                sink_node_id,
                sink_node_input_ids.iter().map(|id| (*id, 0)).collect(),
                vec![(sink_node_output_id, 0)]
            ),
            Task::node(master_id, vec![(master_input_id, 0)], vec![]),
        ]
    );

    assert_eq!(num_buffers, 1);
}

fn source_into(graph: &mut AudioGraph, sink: (NodeID, InputID)) -> (NodeID, OutputID) {
    let mut node = Node::default();
    let out = node.add_output();
    let id = graph.insert_node(node);
    assert!(graph.try_insert_edge((id, out), sink).is_ok_and(id_true));
    (id, out)
}

fn id_true(b: bool) -> bool {
    b
}

#[test]
fn m_graph_needs_two_or_three_buffers() {
    let mut graph = AudioGraph::default();
    let mut masters = vec![];
    for _ in 0..3 {
        let mut m = Node::default();
        let input = m.add_input();
        masters.push((graph.insert_node(m), input));
    }
    let mut n1 = Node::default();
    let n1_out = n1.add_output();
    let n1_id = graph.insert_node(n1);
    let mut n2 = Node::default();
    let n2_out = n2.add_output();
    let n2_id = graph.insert_node(n2);
    assert_eq!(graph.try_insert_edge((n1_id, n1_out), masters[1]), Ok(true));
    assert_eq!(graph.try_insert_edge((n1_id, n1_out), masters[0]), Ok(true));
    assert_eq!(graph.try_insert_edge((n2_id, n2_out), masters[0]), Ok(true));
    assert_eq!(graph.try_insert_edge((n2_id, n2_out), masters[2]), Ok(true));
    let (num_buffers, schedule) = graph.compile(masters.iter().map(|m| m.0).collect());
    assert!(num_buffers == 2 || num_buffers == 3);
    let processed = schedule
        .iter()
        .filter(|t| matches!(t, Task::Node { .. }))
        .count();
    assert_eq!(processed, 5);
    for task in &schedule {
        match task {
            Task::Node { inputs, outputs, .. } => {
                for (_, b) in inputs.iter() {
                    assert!(*b < num_buffers || *b == UNUSED);
                }
                for (_, b) in outputs.iter() {
                    assert!(*b < num_buffers || *b == UNUSED);
                }
            }
            Task::Sum { left, right, output } => {
                assert!(*left < num_buffers && *right < num_buffers && *output < num_buffers);
            }
        }
    }
}

#[test]
fn cycle_attempt_leaves_graph_unchanged() {
    let mut graph = AudioGraph::default();
    let mut a = Node::default();
    let a_in = a.add_input();
    let a_out = a.add_output();
    let a_id = graph.insert_node(a);
    let mut b = Node::default();
    let b_in = b.add_input();
    let b_out = b.add_output();
    let b_id = graph.insert_node(b);
    assert_eq!(graph.try_insert_edge((a_id, a_out), (b_id, b_in)), Ok(true));
    assert_eq!(graph.try_insert_edge((b_id, b_out), (a_id, a_in)), Err(true));
    assert_eq!(graph.try_insert_edge((a_id, a_out), (a_id, a_in)), Err(true));
    assert!(graph.get_node(&a_id).unwrap().get_input(&a_in).unwrap().connections().is_empty());
    assert_eq!(
        graph.get_node(&b_id).unwrap().get_input(&b_in).unwrap().connections(),
        &vec![(a_id, a_out)]
    );
}

#[test]
fn missing_ports_are_reported() {
    let mut graph = AudioGraph::default();
    let mut a = Node::default();
    let a_out = a.add_output();
    let a_id = graph.insert_node(a);
    let mut b = Node::default();
    let b_in = b.add_input();
    let b_id = graph.insert_node(b);
    assert_eq!(graph.try_insert_edge((a_id, OutputID(7)), (b_id, b_in)), Err(false));
    assert_eq!(graph.try_insert_edge((a_id, a_out), (NodeID(9), b_in)), Err(false));
    assert_eq!(graph.remove_edge((a_id, a_out), (b_id, InputID(3))), Err(false));
}

#[test]
fn remove_edge_is_idempotent() {
    let mut graph = AudioGraph::default();
    let mut a = Node::default();
    let a_out = a.add_output();
    let a_id = graph.insert_node(a);
    let mut b = Node::default();
    let b_in = b.add_input();
    let b_id = graph.insert_node(b);
    assert_eq!(graph.try_insert_edge((a_id, a_out), (b_id, b_in)), Ok(true));
    assert_eq!(graph.remove_edge((a_id, a_out), (b_id, b_in)), Ok(true));
    assert_eq!(graph.remove_edge((a_id, a_out), (b_id, b_in)), Ok(false));
    assert_eq!(graph.try_insert_edge((a_id, a_out), (b_id, b_in)), Ok(true));
}

#[test]
fn unreached_nodes_and_unused_ports() {
    let mut graph = AudioGraph::default();
    let mut master = Node::default();
    let master_in = master.add_input();
    let spare_in = master.add_input();
    let master_id = graph.insert_node(master);
    let mut src = Node::default();
    let src_out = src.add_output();
    let src_idle = src.add_output();
    let src_id = graph.insert_node(src);
    let mut other = Node::default();
    let other_in = other.add_input();
    let other_id = graph.insert_node(other);
    assert_eq!(graph.try_insert_edge((src_id, src_out), (master_id, master_in)), Ok(true));
    assert_eq!(graph.try_insert_edge((src_id, src_idle), (other_id, other_in)), Ok(true));
    let (num_buffers, schedule) = graph.compile(vec![master_id, NodeID(40)]);
    assert_eq!(num_buffers, 1);
    assert_eq!(
        schedule,
        vec![
            Task::node(src_id, vec![], vec![(src_out, 0), (src_idle, UNUSED)]),
            Task::node(master_id, vec![(master_in, 0), (spare_in, UNUSED)], vec![]),
        ]
    );
}

#[test]
fn missing_roots_give_an_empty_schedule() {
    let graph = AudioGraph::default();
    let (num_buffers, schedule) = graph.compile(vec![NodeID(0)]);
    assert_eq!(num_buffers, 0);
    assert!(schedule.is_empty());
}

#[test]
fn node_ids_are_smallest_free() {
    let mut node = Node::default();
    assert_eq!(node.add_input(), InputID(0));
    assert_eq!(node.add_input(), InputID(1));
    assert!(node.remove_input(&InputID(0)).is_some());
    assert!(node.remove_input(&InputID(0)).is_none());
    assert_eq!(node.add_input(), InputID(0));
    assert_eq!(node.add_output(), OutputID(0));
    let mut graph = AudioGraph::default();
    assert_eq!(graph.insert_node(node), NodeID(0));
    assert_eq!(graph.insert_node(Node::default()), NodeID(1));
}

/// Runs `schedule`, where output `o` of node `n` writes `1 << (8 * n + o)`, and returns what
/// each input port of each node step read.
fn run_schedule(schedule: &[Task], num_buffers: usize) -> Vec<(NodeID, InputID, u64)> {
    let mut buffers = vec![0u64; num_buffers];
    let mut reads = vec![];
    for task in schedule {
        match task {
            Task::Node { id, inputs, outputs } => {
                for (input, b) in inputs {
                    let v = if *b == UNUSED { 0 } else { buffers[*b] };
                    reads.push((*id, *input, v));
                }
                for (output, b) in outputs {
                    if *b != UNUSED {
                        buffers[*b] = 1 << (8 * id.0 + output.0);
                    }
                }
            }
            Task::Sum { left, right, output } => {
                buffers[*output] = buffers[*left] + buffers[*right];
            }
        }
    }
    reads
}

#[test]
fn schedules_deliver_the_sum_of_sources() {
    let mut graph = AudioGraph::default();
    let mut masters = vec![];
    for _ in 0..3 {
        let mut m = Node::default();
        let input = m.add_input();
        masters.push((graph.insert_node(m), input));
    }
    let mut n1 = Node::default();
    let n1_out = n1.add_output();
    let n1_id = graph.insert_node(n1);
    let mut n2 = Node::default();
    let n2_out = n2.add_output();
    let n2_extra = n2.add_output();
    let n2_id = graph.insert_node(n2);
    assert_eq!(graph.try_insert_edge((n1_id, n1_out), masters[1]), Ok(true));
    assert_eq!(graph.try_insert_edge((n1_id, n1_out), masters[0]), Ok(true));
    assert_eq!(graph.try_insert_edge((n2_id, n2_out), masters[0]), Ok(true));
    assert_eq!(graph.try_insert_edge((n2_id, n2_extra), masters[0]), Ok(true));
    assert_eq!(graph.try_insert_edge((n2_id, n2_out), masters[2]), Ok(true));
    let (num_buffers, schedule) = graph.compile(masters.iter().map(|m| m.0).collect());
    let reads = run_schedule(&schedule, num_buffers);
    let value = |n: NodeID, o: OutputID| 1u64 << (8 * n.0 + o.0);
    assert!(reads.contains(&(
        masters[0].0,
        masters[0].1,
        value(n1_id, n1_out) + value(n2_id, n2_out) + value(n2_id, n2_extra)
    )));
    assert!(reads.contains(&(masters[1].0, masters[1].1, value(n1_id, n1_out))));
    assert!(reads.contains(&(masters[2].0, masters[2].1, value(n2_id, n2_out))));
    assert_eq!(reads.len(), 3);
}

#[test]
fn ports_added_through_the_graph() {
    let mut graph = AudioGraph::default();
    let a_id = graph.insert_node(Node::default());
    let b_id = graph.insert_node(Node::default());
    let a_out = graph.add_output_port(a_id).unwrap();
    let b_in = graph.add_input_port(b_id).unwrap();
    assert_eq!(a_out, OutputID(0));
    assert_eq!(b_in, InputID(0));
    assert_eq!(graph.add_input_port(b_id), Some(InputID(1)));
    assert_eq!(graph.add_input_port(NodeID(5)), None);
    assert_eq!(graph.add_output_port(NodeID(5)), None);
    assert_eq!(graph.try_insert_edge((a_id, a_out), (b_id, b_in)), Ok(true));
}

#[test]
fn remove_node_drops_its_edges() {
    let mut graph = AudioGraph::default();
    let mut master = Node::default();
    let master_in = master.add_input();
    let master_id = graph.insert_node(master);
    let (a_id, _) = source_into(&mut graph, (master_id, master_in));
    let (b_id, b_out) = source_into(&mut graph, (master_id, master_in));
    assert!(graph.remove_node(a_id).is_some());
    assert!(graph.remove_node(a_id).is_none());
    assert!(graph.get_node(&a_id).is_none());
    assert_eq!(
        graph.get_node(&master_id).unwrap().get_input(&master_in).unwrap().connections(),
        &vec![(b_id, b_out)]
    );
    let (num_buffers, schedule) = graph.compile(vec![master_id]);
    assert_eq!(num_buffers, 1);
    assert_eq!(
        schedule,
        vec![
            Task::node(b_id, vec![], vec![(b_out, 0)]),
            Task::node(master_id, vec![(master_in, 0)], vec![]),
        ]
    );
    assert_eq!(graph.insert_node(Node::default()), a_id);
}

#[test]
fn routing_into_master_outputs_renames_and_copies() {
    let mut graph = AudioGraph::default();
    let mut master = Node::default();
    let m_in = master.add_input();
    let master_id = graph.insert_node(master);
    let (left_id, _) = source_into(&mut graph, (master_id, m_in));
    let (right_id, _) = source_into(&mut graph, (master_id, m_in));
    let (num_buffers, schedule) = graph.compile(vec![master_id]);
    assert_eq!(num_buffers, 2);
    let (routed, left_over) = route_to_masters(&schedule, num_buffers, master_id);
    assert_eq!(left_over, 1);
    assert_eq!(
        routed,
        vec![
            ProcessTask::Process {
                index: left_id.0 as usize,
                inputs: vec![],
                outputs: vec![Some(OutputBufferIndex::Master(0))],
            },
            ProcessTask::Process {
                index: right_id.0 as usize,
                inputs: vec![],
                outputs: vec![Some(OutputBufferIndex::Local(0))],
            },
            ProcessTask::Sum {
                left_input: BufferIndex::Output(OutputBufferIndex::Local(0)),
                right_input: BufferIndex::Output(OutputBufferIndex::Master(0)),
                output: OutputBufferIndex::Master(0),
            },
        ]
    );

    let mut graph = AudioGraph::default();
    let mut master = Node::default();
    let in0 = master.add_input();
    let in1 = master.add_input();
    let master_id = graph.insert_node(master);
    let mut src = Node::default();
    let out = src.add_output();
    let src_id = graph.insert_node(src);
    assert_eq!(graph.try_insert_edge((src_id, out), (master_id, in0)), Ok(true));
    assert_eq!(graph.try_insert_edge((src_id, out), (master_id, in1)), Ok(true));
    let (num_buffers, schedule) = graph.compile(vec![master_id]);
    let (routed, left_over) = route_to_masters(&schedule, num_buffers, master_id);
    assert_eq!(left_over, 0);
    assert_eq!(
        routed,
        vec![
            ProcessTask::Process {
                index: src_id.0 as usize,
                inputs: vec![],
                outputs: vec![Some(OutputBufferIndex::Master(0))],
            },
            ProcessTask::CopyToMasterOutput {
                input: BufferIndex::Output(OutputBufferIndex::Master(0)),
                outputs: vec![1],
            },
        ]
    );
}

#[test]
fn test_multiple_adders() {
    let mut graph = AudioGraph::default();

    let mut master = Node::default();
    let master_input = master.add_input();
    let master_id = graph.insert_node(master);

    let nodes: Vec<(OutputID, NodeID)> = (0..3)
        .map(|_i| {
            let mut node = Node::default();
            (node.add_output(), graph.insert_node(node))
        })
        .collect();

    for (node_output, node_id) in &nodes {
        assert!(graph
            .try_insert_edge(
                (node_id.clone(), node_output.clone()),
                (master_id.clone(), master_input.clone())
            )
            .is_ok_and(id));
    }

    let (num_buffers, schedule) = graph.compile(vec![master_id.clone()]);

    let (node_a_output_id, node_a_id) = nodes[0];
    let (node_b_output_id, node_b_id) = nodes[1];
    let (node_c_output_id, node_c_id) = nodes[2];

    // sources are visited in the order their edges were inserted
    assert_eq!(
        schedule,
        [
            Task::node(node_a_id, vec![], vec![(node_a_output_id, 0)]),
            Task::node(node_b_id, vec![], vec![(node_b_output_id, 1)]),
            Task::sum(1, 0, 0),
            Task::node(node_c_id, vec![], vec![(node_c_output_id, 1)]),
            Task::sum(1, 0, 0),
            Task::node(master_id, vec![(master_input, 0)], vec![]),
        ]
    );

    assert_eq!(num_buffers, 2);
}

#[test]
fn test_m_graph() {
    let mut graph = AudioGraph::default();

    let mut master_nodes: Vec<Node> = (0..3).map(|_i| Node::default()).collect();
    let master_input_ids: Vec<InputID> = master_nodes.iter_mut().map(|node| node.add_input()).collect();
    let master_ids: Vec<NodeID> = master_nodes.into_iter().map(|node| graph.insert_node(node)).collect();

    let mut n1 = Node::default();
    let n1_output_id = n1.add_output();
    let n1_id = graph.insert_node(n1);
    let mut n2 = Node::default();
    let n2_output_id = n2.add_output();
    let n2_id = graph.insert_node(n2);

    for (master_port, node_port) in [
        ((master_ids[1], master_input_ids[1]), (n1_id, n1_output_id)),
        ((master_ids[0], master_input_ids[0]), (n1_id, n1_output_id)),
        ((master_ids[0], master_input_ids[0]), (n2_id, n2_output_id)),
        ((master_ids[2], master_input_ids[2]), (n2_id, n2_output_id)),
    ] {
        assert!(graph.try_insert_edge(node_port, master_port).is_ok_and(id));
    }

    let (num_buffers, schedule) = graph.compile(master_ids.clone());

    // roots are visited in the order given, so the sum for the first master needs a third
    // buffer while the second master still claims the first one
    assert_eq!(
        schedule,
        [
            Task::node(n1_id, vec![], vec![(n1_output_id, 0)]),
            Task::node(n2_id, vec![], vec![(n2_output_id, 1)]),
            Task::sum(1, 0, 2),
            Task::node(master_ids[0], vec![(master_input_ids[0], 2)], vec![]),
            Task::node(master_ids[1], vec![(master_input_ids[1], 0)], vec![]),
            Task::node(master_ids[2], vec![(master_input_ids[2], 1)], vec![]),
        ],
    );

    assert_eq!(num_buffers, 3);
}
