use pub_sub::relay::ChannelIdentify;
use pub_sub::relay::feedback::{Feedback, FeedbackConsumerId, FeedbackType};
use pub_sub::relay::local::{LocalRelay, RecvOutcome};
use pub_sub::relay::logic::PubsubRelayLogic;
use pub_sub::relay::source_binding::SourceBinding;
use pub_sub::sdk::consumer::Consumer;

const CHANNEL_X: u64 = 10;
const SOURCE_S1: u64 = 100;

fn tables() -> (PubsubRelayLogic, LocalRelay, SourceBinding) {
    (PubsubRelayLogic::new(), LocalRelay::new(), SourceBinding::new())
}

/// Wires a newly announced source into the relay logic, as the control-plane
/// layer does.
fn announce_source(
    logic: &mut PubsubRelayLogic,
    binding: &mut SourceBinding,
    channel: u64,
    source: u64,
) -> bool {
    match binding.on_source_added(channel, source) {
        Some(subs) => {
            let ci = ChannelIdentify::new(channel, source);
            for sub in subs {
                logic.on_local_sub(ci, sub);
            }
            true
        }
        None => false,
    }
}

#[test]
fn scenario_a_no_sources_yet() {
    let (mut logic, mut local, mut binding) = tables();
    let c1 = Consumer::new(1, CHANNEL_X, &mut logic, &mut local, &mut binding, 8);
    assert!(binding.sources_for(CHANNEL_X).is_empty());
    // feedback with no source bound is a silent no-op
    c1.feedback(0, FeedbackType::Number(5), &mut logic, &mut local, &binding);
    let ci = ChannelIdentify::new(CHANNEL_X, SOURCE_S1);
    assert!(logic.subscribers(ci).is_empty());
}

#[test]
fn scenario_b_source_announced_after_subscribe() {
    let (mut logic, mut local, mut binding) = tables();
    let _c1 = Consumer::new(1, CHANNEL_X, &mut logic, &mut local, &mut binding, 8);
    assert!(announce_source(&mut logic, &mut binding, CHANNEL_X, SOURCE_S1));
    let ci = ChannelIdentify::new(CHANNEL_X, SOURCE_S1);
    let subs = logic.subscribers(ci);
    assert_eq!(subs.len(), 1);
    assert!(subs.contains(&FeedbackConsumerId::Local(1)));
}

#[test]
fn scenario_c_second_consumer_shares_source() {
    let (mut logic, mut local, mut binding) = tables();
    let c1 = Consumer::new(1, CHANNEL_X, &mut logic, &mut local, &mut binding, 8);
    announce_source(&mut logic, &mut binding, CHANNEL_X, SOURCE_S1);
    let _c2 = Consumer::new(2, CHANNEL_X, &mut logic, &mut local, &mut binding, 8);
    let ci = ChannelIdentify::new(CHANNEL_X, SOURCE_S1);
    let subs = logic.subscribers(ci);
    assert_eq!(subs.len(), 2);
    assert!(subs.contains(&FeedbackConsumerId::Local(1)));
    assert!(subs.contains(&FeedbackConsumerId::Local(2)));
    // destroying C1 leaves the pairing bound, with C2 still registered
    c1.close(&mut logic, &mut local, &mut binding);
    let subs = logic.subscribers(ci);
    assert_eq!(subs, vec![FeedbackConsumerId::Local(2)]);
    assert_eq!(binding.sources_for(CHANNEL_X), vec![SOURCE_S1]);
}

#[test]
fn scenario_d_last_interest_tears_down() {
    let (mut logic, mut local, mut binding) = tables();
    let c1 = Consumer::new(1, CHANNEL_X, &mut logic, &mut local, &mut binding, 8);
    announce_source(&mut logic, &mut binding, CHANNEL_X, SOURCE_S1);
    let c2 = Consumer::new(2, CHANNEL_X, &mut logic, &mut local, &mut binding, 8);
    c1.close(&mut logic, &mut local, &mut binding);
    c2.close(&mut logic, &mut local, &mut binding);
    assert!(binding.sources_for(CHANNEL_X).is_empty());
    let ci = ChannelIdentify::new(CHANNEL_X, SOURCE_S1);
    assert!(logic.subscribers(ci).is_empty());
}

#[test]
fn scenario_e_depth_one_drops_second_publish() {
    let (mut logic, mut local, mut binding) = tables();
    let c1 = Consumer::new(1, CHANNEL_X, &mut logic, &mut local, &mut binding, 1);
    let first = local.publish(CHANNEL_X, &vec![1u8, 2, 3]);
    assert!(first.is_empty());
    // the queue is full: the configured drop policy reports the consumer
    let second = local.publish(CHANNEL_X, &vec![4u8, 5]);
    assert_eq!(second, vec![1u64]);
    match c1.recv(&mut local) {
        RecvOutcome::Payload(p) => assert_eq!(p, vec![1u8, 2, 3]),
        _ => panic!("buffered payload expected"),
    }
    match c1.recv(&mut local) {
        RecvOutcome::Empty => {}
        _ => panic!("the dropped payload must not arrive"),
    }
}

#[test]
fn registration_symmetry_round_trip() {
    let (mut logic, mut local, mut binding) = tables();
    let c0 = Consumer::new(7, CHANNEL_X, &mut logic, &mut local, &mut binding, 4);
    announce_source(&mut logic, &mut binding, CHANNEL_X, SOURCE_S1);
    let before_logic = logic.subscribers(ChannelIdentify::new(CHANNEL_X, SOURCE_S1));
    let before_sources = binding.sources_for(CHANNEL_X);
    // subscribe then unsubscribe a fresh consumer: both registries return
    let c = Consumer::new(8, CHANNEL_X, &mut logic, &mut local, &mut binding, 4);
    c.close(&mut logic, &mut local, &mut binding);
    assert_eq!(
        logic.subscribers(ChannelIdentify::new(CHANNEL_X, SOURCE_S1)),
        before_logic
    );
    assert_eq!(binding.sources_for(CHANNEL_X), before_sources);
    c0.close(&mut logic, &mut local, &mut binding);
}

#[test]
fn at_most_once_source_announcement() {
    let (mut logic, mut local, mut binding) = tables();
    let _c1 = Consumer::new(1, CHANNEL_X, &mut logic, &mut local, &mut binding, 4);
    assert!(announce_source(&mut logic, &mut binding, CHANNEL_X, SOURCE_S1));
    // a second announcement of the same source is answered with nothing
    assert!(!announce_source(&mut logic, &mut binding, CHANNEL_X, SOURCE_S1));
    let subs = logic.subscribers(ChannelIdentify::new(CHANNEL_X, SOURCE_S1));
    assert_eq!(subs.len(), 1);
}

#[test]
fn announcement_without_interest_is_dropped() {
    let (_logic, _local, mut binding) = tables();
    assert!(binding.on_source_added(CHANNEL_X, SOURCE_S1).is_none());
    assert!(binding.sources_for(CHANNEL_X).is_empty());
}

#[test]
fn subscriber_set_grows_to_n() {
    let (mut logic, mut local, mut binding) = tables();
    let _c1 = Consumer::new(1, CHANNEL_X, &mut logic, &mut local, &mut binding, 4);
    announce_source(&mut logic, &mut binding, CHANNEL_X, SOURCE_S1);
    let _c2 = Consumer::new(2, CHANNEL_X, &mut logic, &mut local, &mut binding, 4);
    let _c3 = Consumer::new(3, CHANNEL_X, &mut logic, &mut local, &mut binding, 4);
    let subs = logic.subscribers(ChannelIdentify::new(CHANNEL_X, SOURCE_S1));
    assert_eq!(subs.len(), 3);
}

#[test]
fn feedback_aggregates_to_maximum() {
    let (mut logic, _local, _binding) = tables();
    let ci = ChannelIdentify::new(CHANNEL_X, SOURCE_S1);
    logic.on_local_sub(ci, 1);
    logic.on_local_sub(ci, 2);
    let fb1 = Feedback { channel: ci, id: 0, feedback_type: FeedbackType::Number(3) };
    let out1 = logic.on_feedback(ci, FeedbackConsumerId::Local(1), fb1).unwrap();
    assert_eq!(out1.feedback_type, FeedbackType::Number(3));
    let fb2 = Feedback { channel: ci, id: 0, feedback_type: FeedbackType::Number(7) };
    let out2 = logic.on_feedback(ci, FeedbackConsumerId::Local(2), fb2).unwrap();
    assert_eq!(out2.feedback_type, FeedbackType::Number(7));
    assert_eq!(out2.channel, ci);
    assert_eq!(out2.id, 0);
}

#[test]
fn feedback_aggregation_order_does_not_matter() {
    // the same two samples, submitted in both orders, consolidate alike
    let consolidated = |first: u64, second: u64| {
        let (mut logic, _local, _binding) = tables();
        let ci = ChannelIdentify::new(CHANNEL_X, SOURCE_S1);
        logic.on_local_sub(ci, 1);
        logic.on_local_sub(ci, 2);
        let fb1 = Feedback { channel: ci, id: 0, feedback_type: FeedbackType::Number(first) };
        logic.on_feedback(ci, FeedbackConsumerId::Local(1), fb1);
        let fb2 = Feedback { channel: ci, id: 0, feedback_type: FeedbackType::Number(second) };
        logic
            .on_feedback(ci, FeedbackConsumerId::Local(2), fb2)
            .unwrap()
            .feedback_type
    };
    assert_eq!(consolidated(3, 7), consolidated(7, 3));
}

#[test]
fn feedback_kinds_do_not_mix() {
    let (mut logic, _local, _binding) = tables();
    let ci = ChannelIdentify::new(CHANNEL_X, SOURCE_S1);
    logic.on_local_sub(ci, 1);
    let fb1 = Feedback { channel: ci, id: 0, feedback_type: FeedbackType::Number(9) };
    logic.on_feedback(ci, FeedbackConsumerId::Local(1), fb1);
    let fb2 = Feedback { channel: ci, id: 1, feedback_type: FeedbackType::Number(2) };
    let out = logic.on_feedback(ci, FeedbackConsumerId::Local(1), fb2).unwrap();
    assert_eq!(out.feedback_type, FeedbackType::Number(2));
}

#[test]
fn feedback_from_unknown_pairing_is_discarded() {
    let (mut logic, _local, _binding) = tables();
    let ci = ChannelIdentify::new(CHANNEL_X, SOURCE_S1);
    let fb = Feedback { channel: ci, id: 0, feedback_type: FeedbackType::Number(1) };
    assert!(logic.on_feedback(ci, FeedbackConsumerId::Local(1), fb).is_none());
}

#[test]
fn feedback_reaches_local_publisher() {
    let (mut logic, mut local, mut binding) = tables();
    local.on_local_pub(CHANNEL_X);
    let c1 = Consumer::new(1, CHANNEL_X, &mut logic, &mut local, &mut binding, 4);
    announce_source(&mut logic, &mut binding, CHANNEL_X, SOURCE_S1);
    c1.feedback(0, FeedbackType::Number(42), &mut logic, &mut local, &binding);
    let fb = local.pop_feedback(CHANNEL_X).expect("one consolidated sample");
    assert_eq!(fb.channel, ChannelIdentify::new(CHANNEL_X, SOURCE_S1));
    assert_eq!(fb.id, 0);
    assert_eq!(fb.feedback_type, FeedbackType::Number(42));
    assert!(local.pop_feedback(CHANNEL_X).is_none());
}

#[test]
fn remote_subscribers_share_the_registry() {
    let (mut logic, _local, _binding) = tables();
    let ci = ChannelIdentify::new(CHANNEL_X, SOURCE_S1);
    logic.on_remote_sub(ci, 900);
    logic.on_local_sub(ci, 1);
    let subs = logic.subscribers(ci);
    assert_eq!(subs.len(), 2);
    assert!(subs.contains(&FeedbackConsumerId::Remote(900)));
    logic.on_remote_unsub(ci, 900);
    assert_eq!(logic.subscribers(ci), vec![FeedbackConsumerId::Local(1)]);
}

#[test]
fn recv_drains_then_signals_end_of_stream() {
    let (mut logic, mut local, mut binding) = tables();
    let c1 = Consumer::new(1, CHANNEL_X, &mut logic, &mut local, &mut binding, 4);
    local.publish(CHANNEL_X, &vec![9u8]);
    let sub_uuid = c1.sub_uuid;
    let channel = c1.channel;
    c1.close(&mut logic, &mut local, &mut binding);
    // a pending receiver is not left waiting: the buffered payload still
    // arrives, then the closed queue reports end of stream, never "wait"
    let reopened = Consumer { sub_uuid, channel };
    match reopened.recv(&mut local) {
        RecvOutcome::Payload(p) => assert_eq!(p, vec![9u8]),
        _ => panic!("buffered payload survives the close"),
    }
    match reopened.recv(&mut local) {
        RecvOutcome::Closed => {}
        _ => panic!("a closed, drained queue ends the stream"),
    }
    match reopened.recv(&mut local) {
        RecvOutcome::Closed => {}
        _ => panic!("end of stream is stable"),
    }
}

#[test]
fn no_delivery_to_removed_consumer() {
    let (mut logic, mut local, mut binding) = tables();
    let c1 = Consumer::new(1, CHANNEL_X, &mut logic, &mut local, &mut binding, 4);
    let c2 = Consumer::new(2, CHANNEL_X, &mut logic, &mut local, &mut binding, 4);
    c1.close(&mut logic, &mut local, &mut binding);
    // publishing after C1's destruction neither fails nor reaches C1
    let dropped = local.publish(CHANNEL_X, &vec![5u8]);
    assert!(dropped.is_empty());
    let h1 = Consumer { sub_uuid: 1, channel: CHANNEL_X };
    match h1.recv(&mut local) {
        RecvOutcome::Closed => {}
        _ => panic!("nothing may reach a removed consumer"),
    }
    match c2.recv(&mut local) {
        RecvOutcome::Payload(p) => assert_eq!(p, vec![5u8]),
        _ => panic!("the live consumer still receives"),
    }
}

#[test]
fn duplicate_registration_changes_nothing() {
    let (_logic, _local, mut binding) = tables();
    assert!(binding.on_local_sub(CHANNEL_X, 1).is_some());
    assert!(binding.on_local_sub(CHANNEL_X, 1).is_none());
    assert!(binding.on_local_unsub(CHANNEL_X, 1).is_some());
    assert!(binding.on_local_unsub(CHANNEL_X, 1).is_none());
}

#[test]
fn publisher_without_listeners_keeps_working() {
    let (_logic, mut local, _binding) = tables();
    // no consumer at all: publish succeeds and reports no drop
    assert!(local.publish(CHANNEL_X, &vec![1u8]).is_empty());
    // feedback with no registered publisher is a silent no-op
    let fb = Feedback {
        channel: ChannelIdentify::new(CHANNEL_X, SOURCE_S1),
        id: 0,
        feedback_type: FeedbackType::Number(1),
    };
    local.feedback(CHANNEL_X, fb);
    assert!(local.pop_feedback(CHANNEL_X).is_none());
}
