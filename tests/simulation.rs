use rand::rngs::SmallRng;
use rand::{Rng, SeedableRng};
use rand_distr::{Distribution, Exp};

use secagg_sim::manager::Manager;
use secagg_sim::message::{Message, MessageType};
use secagg_sim::node::NodeRole;
use secagg_sim::run::{BuildingBlocks, FailureHandlingMode, TreeSettings};
use secagg_sim::seed::seed_bytes;
use secagg_sim::tree::{leaf_group_count, node_count};

struct Draws {
    counts: Vec<usize>,
    lifetimes: Vec<u64>,
    offsets: Vec<i64>,
}

fn draw(seed: &str, tree: &TreeSettings, average_failure_time: u64) -> Draws {
    let bytes = seed_bytes(seed);
    let mut key = [0u8; 32];
    key.copy_from_slice(&bytes);
    let mut rng = SmallRng::from_seed(key);
    let leaves = leaf_group_count(tree.fanout, tree.depth).unwrap();
    let low = tree.fanout as f64;
    let high = (tree.fanout * tree.fanout) as f64;
    let counts: Vec<usize> = (0..leaves).map(|_| rng.gen_range(low..high) as usize).collect();
    let n = node_count(*tree, &counts).unwrap();
    let exp = Exp::new(1.0 / average_failure_time as f64).unwrap();
    let lifetimes: Vec<u64> = (0..n).map(|_| exp.sample(&mut rng).ceil() as u64).collect();
    let offsets: Vec<i64> = (1..tree.group_size).map(|_| rng.gen_range(0..10000)).collect();
    Draws { counts, lifetimes, offsets }
}

fn tree_343() -> TreeSettings {
    TreeSettings { fanout: 4, depth: 3, group_size: 3 }
}

fn built(blocks: BuildingBlocks, seed: &str, tree: TreeSettings) -> Manager {
    let mut manager = Manager::new(blocks, seed.to_string(), tree);
    let d = draw(seed, &tree, manager.settings.average_failure_time);
    manager.setup(&d.counts, &d.lifetimes, &d.offsets);
    manager
}

fn run_to_end(manager: &mut Manager) {
    while manager.handle_next_message() {}
    manager.count_final_contributors();
}

fn trace(manager: &Manager) -> Vec<(String, usize, usize, u64, u64, u64)> {
    manager
        .recording
        .sent_messages
        .iter()
        .map(|m| {
            (
                m.message_type.name().to_string(),
                m.emitter,
                m.receiver,
                m.departure_time,
                m.arrival_time,
                m.work,
            )
        })
        .collect()
}

#[test]
fn manager_create_tree() {
    let mut manager = Manager::new(BuildingBlocks::default(), "str".to_string(), tree_343());
    let d = draw("str", &manager.settings.tree, manager.settings.average_failure_time);
    manager.setup(&d.counts, &d.lifetimes, &d.offsets);

    assert_eq!(manager.nodes.len(), 224);

    manager
        .nodes
        .iter()
        .for_each(|x| assert_ne!(x.data().death_time, 0));

    manager.generate_failures(&d.lifetimes);
}

#[test]
fn setup_create_tree() {
    let mut manager = Manager::new(BuildingBlocks::default(), "str".to_string(), tree_343());
    let d = draw("str", &manager.settings.tree, manager.settings.average_failure_time);
    manager.setup(&d.counts, &d.lifetimes, &d.offsets);

    assert_eq!(manager.nodes.len(), 224);

    manager
        .nodes
        .iter()
        .for_each(|x| assert_ne!(x.data().death_time, 0));
}

#[test]
fn handle_message() {
    let mut manager = built(BuildingBlocks::default(), "str", tree_343());
    manager.message_queue.clear();

    let arrival_time = 1000;
    let emitter = 0;
    let receiver = 0;
    manager.insert_message(Message::new(
        MessageType::ScheduleHealthCheck,
        0,
        emitter,
        arrival_time,
        receiver,
    ));

    manager.handle_next_message();

    assert_eq!(manager.current_time, arrival_time);
    assert_eq!(manager.nodes[receiver].data().local_time, arrival_time);
}

#[test]
fn test_message_insertion() {
    let mut manager = built(BuildingBlocks::default(), "str", tree_343());
    manager.message_queue.clear();

    let emitter = 0;
    let receiver = 0;
    let iterations: u64 = 10;
    let step_size: u64 = 100;

    for i in 0..iterations {
        manager.insert_message(Message::new(
            MessageType::ConfirmHealth,
            0,
            emitter,
            i * step_size,
            receiver,
        ));
    }

    for i in 0..iterations {
        assert_eq!(
            manager.message_queue.last().unwrap().arrival_time,
            i * step_size
        );
        manager.handle_next_message();
    }
}

#[test]
fn node_count_matches_the_closed_form() {
    // 1 querier + 3 * (1 + 4 + 16) aggregators + the contributors of 16 leaf groups.
    let tree = tree_343();
    let counts: Vec<usize> = (0..16).map(|k| 4 + (k % 12)).collect();
    let contributors: usize = counts.iter().sum();
    assert_eq!(node_count(tree, &counts), Some(1 + 63 + contributors));
    assert_eq!(leaf_group_count(4, 3), Some(16));
    assert_eq!(leaf_group_count(4, 0), Some(0));
    assert_eq!(node_count(tree, &counts[..15].to_vec()), None);

    let mut manager = Manager::new(BuildingBlocks::default(), "t".to_string(), tree);
    let lifetimes = vec![50_000u64; 1 + 63 + contributors];
    manager.setup(&counts, &lifetimes, &vec![1, 2]);
    assert_eq!(manager.nodes.len(), 1 + 63 + contributors);
    assert_eq!(manager.recording.initial_contributors, contributors);
}

#[test]
fn setup_wires_roles_and_groups() {
    let tree = TreeSettings { fanout: 2, depth: 2, group_size: 2 };
    let counts = vec![2, 3];
    let n = node_count(tree, &counts).unwrap();
    assert_eq!(n, 1 + 2 * 3 + 5);
    let mut manager = Manager::new(BuildingBlocks::minimal(), "w".to_string(), tree);
    manager.setup(&counts, &vec![1_000_000; n], &vec![7]);
    let roles: Vec<NodeRole> = manager.nodes.iter().map(|n| n.data().role).collect();
    assert_eq!(roles[0], NodeRole::Querier);
    assert_eq!(roles[1], NodeRole::Aggregator);
    assert_eq!(roles[3], NodeRole::LeafAggregator);
    assert_eq!(roles[5], NodeRole::Contributor);
    // The top group's parents are the querier group, made of copies of the
    // querier's address.
    assert_eq!(manager.nodes[1].data().tree_node.members, vec![1, 2]);
    assert_eq!(manager.nodes[1].data().tree_node.parents, vec![0, 0]);
    assert_eq!(manager.nodes[0].data().tree_node.children, vec![vec![1, 2]]);
    assert_eq!(manager.nodes[1].data().tree_node.children, vec![vec![3, 4], vec![7, 8]]);
    assert_eq!(manager.nodes[3].data().tree_node.children, vec![vec![5], vec![6]]);
    // Construction lasts depth * (4 crypto + 2 comm).
    assert_eq!(manager.current_time, 2 * (4 * 100 + 2 * 100));
    // Every node but the contributors schedules a health check; the leaders of
    // the two leaf groups ask their five contributors for data.
    let checks = manager
        .message_queue
        .iter()
        .filter(|m| m.message_type == MessageType::ScheduleHealthCheck)
        .count();
    let requests = manager
        .message_queue
        .iter()
        .filter(|m| m.message_type == MessageType::RequestData)
        .count();
    assert_eq!(checks, 7);
    assert_eq!(requests, 5);
    // The querier maintains a channel with each member of the top group.
    let peers: Vec<(usize, bool)> = manager.nodes[0]
        .data()
        .opened_channels
        .iter()
        .map(|c| (c.peer_address, c.maintained))
        .collect();
    assert_eq!(peers, vec![(1, true), (2, true)]);
    // The second member of an aggregator group: its parent, its leader, and
    // the members at its position in the child groups.
    let peers: Vec<(usize, bool)> = manager.nodes[2]
        .data()
        .opened_channels
        .iter()
        .map(|c| (c.peer_address, c.maintained))
        .collect();
    assert_eq!(peers, vec![(0, false), (1, false), (4, true), (8, true)]);
    assert_eq!(manager.nodes[5].data().share_offsets, vec![7]);
}

#[test]
fn a_full_run_aggregates_every_contributor() {
    let tree = TreeSettings { fanout: 2, depth: 2, group_size: 2 };
    let counts = vec![2, 3];
    let n = node_count(tree, &counts).unwrap();
    let mut manager = Manager::new(BuildingBlocks::minimal(), "w".to_string(), tree);
    manager.setup(&counts, &vec![60_000; n], &vec![9]);
    let mut last = manager.current_time;
    while manager.handle_next_message() {
        assert!(manager.current_time >= last);
        last = manager.current_time;
    }
    assert!(manager.nodes[0].data().finished_working);
    let folds: Vec<(usize, i64)> = manager
        .recording
        .sent_messages
        .iter()
        .filter(|m| m.message_type == MessageType::SendData && m.receiver == 0)
        .map(|m| {
            let s = m.content.data.as_ref().unwrap();
            (s.count, s.share)
        })
        .collect();
    // Each member of the top group sends one fold over all five contributors;
    // the two lanes together hold five secrets of 50.
    assert_eq!(folds.len(), 2);
    assert!(folds.iter().all(|(count, _)| *count == 5));
    assert_eq!(folds.iter().map(|(_, v)| v).sum::<i64>(), 5 * 50);
    for m in &manager.recording.sent_messages {
        assert!(m.arrival_time >= m.departure_time);
        if let Some(share) = &m.content.data {
            // Each share counts the contributors folded into it: one for a
            // contributor, the group's contributors for a leaf aggregator.
            let sender = manager.nodes[m.emitter].data();
            let expected = match sender.role {
                NodeRole::Contributor => 1,
                NodeRole::LeafAggregator => sender.tree_node.children.len(),
                _ => 5,
            };
            assert_eq!(share.count, expected);
        }
    }
    manager.count_final_contributors();
    assert_eq!(manager.recording.final_contributors, 0);
    assert_eq!(manager.recording.total_latency, last);
}

#[test]
fn determinism_same_seed_same_trace() {
    let mut a = built(BuildingBlocks::minimal(), "42", tree_343());
    let mut b = built(BuildingBlocks::minimal(), "42", tree_343());
    run_to_end(&mut a);
    run_to_end(&mut b);
    assert!(!trace(&a).is_empty());
    assert_eq!(trace(&a), trace(&b));
    assert_eq!(a.recording.total_work, b.recording.total_work);
    assert_eq!(a.recording.total_bandwidth, b.recording.total_bandwidth);
}

#[test]
fn replacement_extends_construction_per_failed_node() {
    let tree = TreeSettings { fanout: 2, depth: 2, group_size: 2 };
    let counts = vec![2, 2];
    let n = node_count(tree, &counts).unwrap();
    let mut lifetimes = vec![100_000u64; n];
    lifetimes[3] = 10;
    lifetimes[6] = 1199;
    let mut manager = Manager::new(BuildingBlocks::resilient(), "r".to_string(), tree);
    manager.setup(&counts, &lifetimes, &vec![0]);
    // 1200 of construction, then 10 * 100 + 8 * 100 for each of two failures.
    assert_eq!(manager.current_time, 1200 + 2 * 1800);
    assert_eq!(manager.settings.building_blocks.failure_handling, FailureHandlingMode::NodeReplacement);
}

#[test]
fn local_propagation_cuts_off_failed_subtrees() {
    let tree = TreeSettings { fanout: 2, depth: 2, group_size: 2 };
    let counts = vec![2, 2];
    let n = node_count(tree, &counts).unwrap();
    let mut lifetimes = vec![100_000u64; n];
    // Node 4 is the second member of the first leaf group (3, 4), whose
    // contributors are 5 and 6.
    lifetimes[4] = 10;
    let mut manager = Manager::new(BuildingBlocks::tolerant(), "l".to_string(), tree);
    manager.setup(&counts, &lifetimes, &vec![0]);
    let deaths: Vec<u64> = manager.nodes.iter().map(|n| n.data().death_time).collect();
    assert_eq!(deaths[3], 0);
    assert_eq!(deaths[4], 0);
    assert_eq!(deaths[5], 0);
    assert_eq!(deaths[6], 0);
    assert_eq!(deaths[0], 100_000);
    assert_eq!(deaths[1], 100_000);
    assert_eq!(deaths[7], 100_000);
    assert_eq!(manager.current_time, 1200);
}

#[test]
fn dead_receiver_swallows_and_bounce_requeues() {
    let tree = TreeSettings { fanout: 1, depth: 1, group_size: 1 };
    let counts = vec![1];
    let n = node_count(tree, &counts).unwrap();
    assert_eq!(n, 3);
    let mut manager = Manager::new(BuildingBlocks::minimal(), "d".to_string(), tree);
    manager.setup(&counts, &vec![5000, 3000, 5000], &vec![]);
    manager.message_queue.clear();
    manager.current_time = 0;

    // Node 1 is dead at 3000: the message is consumed with no effect.
    manager.insert_message(Message::new(MessageType::OpenChannel, 3000, 0, 3100, 1));
    assert!(manager.handle_next_message());
    assert!(manager.message_queue.is_empty());
    assert_eq!(manager.current_time, 3100);
    assert!(!manager.recording.sent_messages.last().unwrap().delivered);
    assert_eq!(manager.nodes[1].data().local_time, 0);

    // Node 2 at local time 0 accepts a channel: three crypto costs of work.
    manager.insert_message(Message::new(MessageType::OpenChannel, 3100, 0, 3200, 2));
    assert!(manager.handle_next_message());
    assert_eq!(manager.nodes[2].data().local_time, 3500);
    let delivered = manager.recording.sent_messages.last().unwrap();
    assert!(delivered.delivered);
    assert_eq!(delivered.work, 300);
    let reply = manager.message_queue.last().unwrap();
    assert_eq!(reply.message_type, MessageType::ConfirmChannel);
    assert_eq!((reply.departure_time, reply.arrival_time, reply.receiver), (3500, 3600, 0));
    manager.message_queue.clear();

    // A message in node 2's past bounces to its clock.
    manager.insert_message(Message::new(MessageType::ConfirmHealth, 3200, 0, 3300, 2));
    let recorded = manager.recording.sent_messages.len();
    assert!(manager.handle_next_message());
    assert_eq!(manager.message_queue.len(), 1);
    assert_eq!(manager.message_queue[0].arrival_time, 3500);
    assert_eq!(manager.recording.sent_messages.len(), recorded);
    assert_eq!(manager.current_time, 3200);

    // A health request is never bounced.
    manager.message_queue.clear();
    manager.insert_message(Message::new(MessageType::RequestHealth, 3200, 0, 3300, 2));
    assert!(manager.handle_next_message());
    let reply = manager.message_queue.last().unwrap();
    assert_eq!(reply.message_type, MessageType::ConfirmHealth);
    assert_eq!((reply.departure_time, reply.arrival_time), (3500, 3600));

    manager.message_queue.clear();
    assert!(!manager.handle_next_message());
}

#[test]
fn seed_bytes_are_the_sha256_digest() {
    let digest = seed_bytes("abc");
    let expected: Vec<u8> = vec![
        0xba, 0x78, 0x16, 0xbf, 0x8f, 0x01, 0xcf, 0xea, 0x41, 0x41, 0x40, 0xde, 0x5d, 0xae, 0x22,
        0x23, 0xb0, 0x03, 0x61, 0xa3, 0x96, 0x17, 0x7a, 0x9c, 0xb4, 0x10, 0xff, 0x61, 0xf2, 0x00,
        0x15, 0xad,
    ];
    assert_eq!(digest, expected);
}

#[test]
fn construction_latency_formula() {
    let manager = Manager::new(BuildingBlocks::default(), "c".to_string(), tree_343());
    assert_eq!(manager.settings.tree_construction_latency(), 3 * (4 * 100 + 2 * 100));
    let mut settings = manager.settings.copy();
    settings.costs.crypto = u64::MAX;
    assert_eq!(settings.tree_construction_latency(), u64::MAX);
}
