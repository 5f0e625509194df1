use serf_rpc::codec::{ResponseHeader, SerializedCommand};
use serf_rpc::dispatch::{DispatchMap, Dispatched, SeqHandler};
use serf_rpc::protocol;
use serf_rpc::reader::{route, Delivery};
use serf_rpc::stream::{start_stream, stop};

fn single(target: &'static str) -> Option<SeqHandler<&'static str>> {
    Some(SeqHandler { target, streaming: false })
}

fn persistent(target: &'static str) -> Option<SeqHandler<&'static str>> {
    Some(SeqHandler { target, streaming: true })
}

#[test]
fn sequence_numbers_start_at_zero_and_rise() {
    let mut table: DispatchMap<&'static str> = DispatchMap::new();
    assert_eq!(table.next_seq(), 0);
    assert_eq!(table.register(single("a")), 0);
    assert_eq!(table.register(None), 1);
    assert_eq!(table.register(persistent("b")), 2);
    assert_eq!(table.next_seq(), 3);
    assert!(table.is_registered(0));
    assert!(!table.is_registered(1));
    assert!(table.is_registered(2));
    assert!(!table.is_registered(3));
}

#[test]
fn send_command_frames_under_the_allocated_number() {
    let mut table: DispatchMap<&'static str> = DispatchMap::new();
    table.register(None);
    let (seq, frame) = table.send_command(protocol::members(), single("m"));
    assert_eq!(seq, 1);
    let expected: Vec<u8> = vec![
        0x82, 0xa3, b'S', b'e', b'q', 0x01, 0xa7, b'C', b'o', b'm', b'm', b'a', b'n', b'd', 0xa7,
        b'm', b'e', b'm', b'b', b'e', b'r', b's',
    ];
    assert_eq!(frame, expected);
    assert!(table.is_registered(1));
    let (seq, _) = table.send_command(protocol::leave(), None);
    assert_eq!(seq, 2);
    assert!(!table.is_registered(2));
}

#[test]
fn single_shot_leaves_on_lookup() {
    let mut table: DispatchMap<&'static str> = DispatchMap::new();
    let seq = table.register(single("once"));
    assert_eq!(table.lookup(seq), Dispatched::Once("once"));
    assert!(!table.is_registered(seq));
    assert_eq!(table.lookup(seq), Dispatched::Absent);
}

#[test]
fn persistent_stays_on_lookup() {
    let mut table: DispatchMap<&'static str> = DispatchMap::new();
    let seq = table.register(persistent("events"));
    assert_eq!(table.lookup(seq), Dispatched::Stream(&"events"));
    assert_eq!(table.lookup(seq), Dispatched::Stream(&"events"));
    assert!(table.is_registered(seq));
}

#[test]
fn unknown_sequence_is_absent() {
    let mut table: DispatchMap<&'static str> = DispatchMap::new();
    assert_eq!(table.lookup(0), Dispatched::Absent);
    table.register(single("a"));
    assert_eq!(table.lookup(5), Dispatched::Absent);
    assert!(table.is_registered(0));
}

#[test]
fn deregister_is_idempotent() {
    let mut table: DispatchMap<&'static str> = DispatchMap::new();
    let seq = table.register(persistent("events"));
    assert_eq!(table.deregister_seq_handler(seq), Some(SeqHandler { target: "events", streaming: true }));
    assert_eq!(table.deregister_seq_handler(seq), None);
    assert_eq!(table.deregister_seq_handler(99), None);
    assert_eq!(table.next_seq(), 1);
}

#[test]
fn responses_find_their_own_handler_in_any_order() {
    let names: [&'static str; 5] = ["r0", "r1", "r2", "r3", "r4"];
    let orders: Vec<Vec<u64>> = vec![vec![0, 1, 2, 3, 4], vec![4, 3, 2, 1, 0], vec![2, 0, 4, 1, 3]];
    for order in orders {
        let mut table: DispatchMap<&'static str> = DispatchMap::new();
        for name in names {
            table.register(single(name));
        }
        for seq in order {
            assert_eq!(table.lookup(seq), Dispatched::Once(names[seq as usize]));
        }
        for seq in 0..5u64 {
            assert!(!table.is_registered(seq));
        }
    }
}

#[test]
fn fail_all_hands_out_every_handler_and_clears() {
    let mut table: DispatchMap<&'static str> = DispatchMap::new();
    table.register(single("a"));
    table.register(None);
    table.register(persistent("s"));
    table.register(single("b"));
    table.register(single("c"));
    assert_eq!(table.lookup(3), Dispatched::Once("b"));
    let mut failed = table.fail_all();
    failed.sort_by_key(|(seq, _)| *seq);
    assert_eq!(
        failed,
        vec![
            (0, SeqHandler { target: "a", streaming: false }),
            (2, SeqHandler { target: "s", streaming: true }),
            (4, SeqHandler { target: "c", streaming: false }),
        ]
    );
    for seq in 0..6u64 {
        assert!(!table.is_registered(seq));
    }
    assert_eq!(table.next_seq(), 5);
    assert!(table.fail_all().is_empty());
}

#[test]
fn fail_all_on_empty_table() {
    let mut table: DispatchMap<&'static str> = DispatchMap::new();
    assert!(table.fail_all().is_empty());
    assert_eq!(table.next_seq(), 0);
}

#[test]
fn start_stream_registers_a_persistent_handler() {
    let mut table: DispatchMap<&'static str> = DispatchMap::new();
    table.register(None);
    let cmd = protocol::stream("user").unwrap();
    let (seq, frame) = start_stream(&mut table, cmd.clone(), "events");
    assert_eq!(seq, 1);
    assert!(table.is_registered(1));
    assert_eq!(table.lookup(1), Dispatched::Stream(&"events"));
    let mut expected: Vec<u8> = Vec::new();
    rmp::encode::write_map_len(&mut expected, 2).unwrap();
    rmp::encode::write_str(&mut expected, "Seq").unwrap();
    rmp::encode::write_uint(&mut expected, 1).unwrap();
    rmp::encode::write_str(&mut expected, "Command").unwrap();
    rmp::encode::write_str(&mut expected, "stream").unwrap();
    expected.extend_from_slice(&cmd.body);
    assert_eq!(frame, expected);
}

#[test]
fn stop_deregisters_and_frames_the_notification() {
    let mut table: DispatchMap<&'static str> = DispatchMap::new();
    let (seq, _) = start_stream(&mut table, protocol::stream("*").unwrap(), "events");
    let frame = stop(&mut table, seq).unwrap();
    assert!(!table.is_registered(seq));
    assert!(!table.is_registered(1));
    assert_eq!(table.next_seq(), 2);
    let mut expected: Vec<u8> = Vec::new();
    rmp::encode::write_map_len(&mut expected, 2).unwrap();
    rmp::encode::write_str(&mut expected, "Seq").unwrap();
    rmp::encode::write_uint(&mut expected, 1).unwrap();
    rmp::encode::write_str(&mut expected, "Command").unwrap();
    rmp::encode::write_str(&mut expected, "stop").unwrap();
    rmp::encode::write_map_len(&mut expected, 1).unwrap();
    rmp::encode::write_str(&mut expected, "Stop").unwrap();
    rmp::encode::write_uint(&mut expected, 0).unwrap();
    assert_eq!(frame, expected);
}

#[test]
fn late_item_after_stop_finds_nobody() {
    let mut table: DispatchMap<&'static str> = DispatchMap::new();
    let (seq, _) = start_stream(&mut table, protocol::stream("*").unwrap(), "events");
    assert_eq!(table.lookup(seq), Dispatched::Stream(&"events"));
    stop(&mut table, seq);
    table.register(single("later"));
    table.register(persistent("other"));
    for _ in 0..3 {
        let header = ResponseHeader { seq, error: String::new() };
        assert_eq!(route(&mut table, header, 1u8), Delivery::Discarded);
    }
    assert!(table.is_registered(2));
    assert!(table.is_registered(3));
}

#[test]
fn stop_twice_is_harmless() {
    let mut table: DispatchMap<&'static str> = DispatchMap::new();
    let (seq, _) = start_stream(&mut table, protocol::stream("*").unwrap(), "events");
    assert!(stop(&mut table, seq).is_some());
    assert!(stop(&mut table, seq).is_some());
    assert!(!table.is_registered(seq));
    assert_eq!(table.next_seq(), 3);
}

#[test]
fn route_hands_body_or_error() {
    let mut table: DispatchMap<&'static str> = DispatchMap::new();
    table.register(single("a"));
    table.register(single("b"));
    table.register(persistent("s"));
    let to = route(&mut table, ResponseHeader { seq: 1, error: "no such node".to_string() }, 7u8);
    assert_eq!(to, Delivery::Once("b", Err("no such node".to_string())));
    let to = route(&mut table, ResponseHeader { seq: 2, error: String::new() }, 8u8);
    assert_eq!(to, Delivery::Stream(&"s", Ok(8u8)));
    let to = route(&mut table, ResponseHeader { seq: 0, error: String::new() }, 9u8);
    assert_eq!(to, Delivery::Once("a", Ok(9u8)));
    let to = route(&mut table, ResponseHeader { seq: 0, error: String::new() }, 9u8);
    assert_eq!(to, Delivery::Discarded);
    assert!(table.is_registered(2));
}

#[test]
fn command_names_survive_framing() {
    let mut table: DispatchMap<u8> = DispatchMap::new();
    let cmd = SerializedCommand::new("tags", vec![0x80]).unwrap();
    let (seq, frame) = table.send_command(cmd, None);
    assert_eq!(seq, 0);
    assert_eq!(*frame.last().unwrap(), 0x80);
    assert_eq!(&frame[frame.len() - 5..frame.len() - 1], b"tags");
}
