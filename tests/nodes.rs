use secagg_sim::message::{Message, MessageType};
use secagg_sim::node::{ChannelState, Node, NodeRole};
use secagg_sim::run::{BuildingBlocks, CostsSettings, RunSettings, TreeSettings};
use secagg_sim::shares::Share;

fn settings() -> RunSettings {
    RunSettings {
        building_blocks: BuildingBlocks::minimal(),
        average_failure_time: 10000,
        health_check_period: 1000,
        costs: CostsSettings { crypto: 100, comm: 100, compute: 0 },
        tree: TreeSettings { fanout: 4, depth: 3, group_size: 3 },
        seed: "n".to_string(),
    }
}

fn alive(address: usize, role: NodeRole) -> Node {
    let mut n = Node::new(settings(), address, role);
    n.data.death_time = 1_000_000;
    n
}

#[test]
fn contributor_splits_its_secret_additively() {
    let mut c = alive(20, NodeRole::Contributor);
    c.data.share_offsets = vec![1234, 9000];
    c.data.tree_node.parents = vec![4, 5, 6];
    let mut request = Message::new(MessageType::RequestData, 0, 4, 500, 20);
    let out = c.handle_message(&mut request).unwrap();
    let values: Vec<i64> = c.shares.iter().map(|s| s.share).collect();
    assert_eq!(values, vec![1234, 9000, 50 - 10234]);
    assert_eq!(values.iter().sum::<i64>(), 50);
    assert!(c.shares.iter().all(|s| s.count == 1 && s.id == "20"));
    assert_eq!(c.data.local_time, 800);
    assert_eq!(request.work, 300);
    let targets: Vec<Option<usize>> = out.iter().map(|m| m.content.target_node).collect();
    assert_eq!(targets, vec![Some(4), Some(5), Some(6)]);
    assert!(out.iter().all(|m| m.receiver == 20 && m.arrival_time == 900));

    // A second request changes nothing.
    let mut again = Message::new(MessageType::RequestData, 0, 4, 900, 20);
    assert!(c.handle_message(&mut again).unwrap().is_empty());
    assert_eq!(c.shares.len(), 3);

    // Preparing for parent 5 sends the second share to it.
    let mut prepare = out[1].copy();
    let sent = c.handle_message(&mut prepare).unwrap();
    assert_eq!(sent.len(), 1);
    assert_eq!(sent[0].message_type, MessageType::SendData);
    assert_eq!(sent[0].receiver, 5);
    assert_eq!(sent[0].content.data.as_ref().unwrap().share, 9000);
}

#[test]
fn aggregator_folds_the_shares_of_its_lane() {
    // Second member of group (10, 11); children groups (30, 31) and (40, 41).
    let mut a = alive(11, NodeRole::Aggregator);
    a.data.tree_node.members = vec![10, 11];
    a.data.tree_node.parents = vec![1, 2];
    a.data.tree_node.children = vec![vec![30, 31], vec![40, 41]];
    let mut first = Message::new(MessageType::SendData, 0, 31, 100, 11);
    first.content.data = Some(Share::new(7, 31));
    assert!(a.handle_message(&mut first).unwrap().is_empty());
    let mut second = Message::new(MessageType::SendData, 0, 41, 200, 11);
    let mut folded = Share::new(5, 41);
    folded.count = 4;
    second.content.data = Some(folded);
    let out = a.handle_message(&mut second).unwrap();
    assert_eq!(out.len(), 1);
    assert_eq!(out[0].receiver, 2);
    assert_eq!((out[0].departure_time, out[0].arrival_time), (200, 300));
    let s = out[0].content.data.as_ref().unwrap();
    assert_eq!((s.share, s.count), (12, 5));
}

#[test]
fn leaf_aggregator_waits_for_every_contributor() {
    let mut l = alive(3, NodeRole::LeafAggregator);
    l.data.tree_node.members = vec![3, 4];
    l.data.tree_node.parents = vec![1, 2];
    l.data.tree_node.children = vec![vec![5], vec![6]];
    let mut m = Message::new(MessageType::SendData, 0, 6, 100, 3);
    m.content.data = Some(Share::new(1, 6));
    assert!(l.handle_message(&mut m).unwrap().is_empty());
    let mut m = Message::new(MessageType::SendData, 0, 5, 150, 3);
    m.content.data = Some(Share::new(2, 5));
    let out = l.handle_message(&mut m).unwrap();
    assert_eq!(out.len(), 1);
    assert_eq!(out[0].receiver, 1);
    let s = out[0].content.data.as_ref().unwrap();
    assert_eq!((s.share, s.count), (3, 2));
}

#[test]
fn querier_finishes_once_the_top_lane_arrives() {
    let mut q = alive(0, NodeRole::Querier);
    q.data.tree_node.members = vec![0, 0, 0];
    q.data.tree_node.children = vec![vec![1, 2, 3]];
    let mut m = Message::new(MessageType::SendData, 0, 2, 100, 0);
    m.content.data = Some(Share::new(1, 2));
    assert!(q.handle_message(&mut m).unwrap().is_empty());
    assert!(!q.data.finished_working);
    let mut m = Message::new(MessageType::SendData, 0, 1, 100, 0);
    m.content.data = Some(Share::new(1, 1));
    assert!(q.handle_message(&mut m).unwrap().is_empty());
    assert!(q.data.finished_working);
}

#[test]
fn health_checks_go_to_maintained_channels_only() {
    let mut n = alive(8, NodeRole::Aggregator);
    n.data.opened_channels = vec![
        ChannelState::new(1, false),
        ChannelState::new(2, true),
        ChannelState::new(3, true),
    ];
    let mut m = Message::new(MessageType::ScheduleHealthCheck, 0, 8, 2000, 8);
    let out = n.handle_message(&mut m).unwrap();
    let summary: Vec<(MessageType, usize, u64)> =
        out.iter().map(|m| (m.message_type, m.receiver, m.arrival_time)).collect();
    assert_eq!(
        summary,
        vec![
            (MessageType::RequestHealth, 2, 2100),
            (MessageType::RequestHealth, 3, 2100),
            (MessageType::ScheduleHealthCheck, 8, 3000),
        ]
    );
    assert_eq!(NodeRole::LeafAggregator.name(), "LeafAggregator");
}

#[test]
fn confirm_channel_adds_a_maintained_channel() {
    let mut n = alive(8, NodeRole::LeafAggregator);
    let mut m = Message::new(MessageType::ConfirmChannel, 0, 9, 50, 8);
    assert!(n.handle_message(&mut m).unwrap().is_empty());
    assert_eq!(n.data.opened_channels.len(), 1);
    assert_eq!(n.data.opened_channels[0].peer_address, 9);
    assert!(n.data.opened_channels[0].maintained);
    assert_eq!(n.data.local_time, 350);
    let mut stop = Message::new(MessageType::Stop, 0, 9, 400, 8);
    assert!(n.handle_message(&mut stop).unwrap().is_empty());
    assert_eq!(n.data.local_time, 400);
}

#[test]
fn contributor_ignores_send_data() {
    let mut c = alive(20, NodeRole::Contributor);
    c.data.tree_node.members = vec![20];
    c.data.tree_node.parents = vec![4, 5];
    let mut m = Message::new(MessageType::SendData, 0, 4, 100, 20);
    m.content.data = Some(Share::new(3, 4));
    assert!(c.handle_message(&mut m).unwrap().is_empty());
    assert!(c.data.aggregates.is_empty());
    assert_eq!(c.data.local_time, 100);
}
