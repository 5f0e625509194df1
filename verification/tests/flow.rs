use serf_rpc::codec::{connection_closed, RPCResult, ResponseHeader};
use serf_rpc::dispatch::DispatchMap;
use serf_rpc::protocol::{after_auth, after_handshake, auth, handshake, members, ConnectStep, MAX_IPC_VERSION};
use serf_rpc::reader::{route, Delivery};
use serf_rpc::request::{request, Poll, RequestState};
use serf_rpc::stream::{start_stream, stop, RPCStreamHandler};

type Waker = u32;
type Request = RequestState<Waker, Vec<&'static str>>;

fn reply(seq: u64, error: &str) -> ResponseHeader {
    ResponseHeader { seq, error: error.to_string() }
}

fn deliver(
    table: &mut DispatchMap<usize>,
    slots: &mut Vec<Request>,
    header: ResponseHeader,
    body: Vec<&'static str>,
) -> Option<Waker> {
    match route(table, header, body) {
        Delivery::Once(slot, res) => Some(slots[slot].handle(res)),
        Delivery::Stream(_, _) => panic!("no stream here"),
        Delivery::Discarded => None,
    }
}

#[test]
fn request_walks_through_its_states() {
    let mut table: DispatchMap<usize> = DispatchMap::new();
    let mut state: Request = request(members());
    assert!(matches!(state, RequestState::Unsent(_)));
    let (polled, frame) = state.poll(10, 0, &mut table);
    assert_eq!(polled, Poll::Pending);
    assert!(frame.is_some());
    assert_eq!(state, RequestState::Pending(10));
    assert!(table.is_registered(0));
    let (polled, frame) = state.poll(11, 0, &mut table);
    assert_eq!(polled, Poll::Pending);
    assert_eq!(frame, None);
    assert_eq!(state, RequestState::Pending(11));
    assert_eq!(table.next_seq(), 1);
    let woken = state.handle(Ok(vec!["a"]));
    assert_eq!(woken, 11);
    assert_eq!(state, RequestState::Ready(Ok(vec!["a"])));
    let (polled, frame) = state.poll(12, 0, &mut table);
    assert_eq!(polled, Poll::Ready(Ok(vec!["a"])));
    assert_eq!(frame, None);
    assert_eq!(state, RequestState::Invalid);
}

#[test]
fn send_ignored_registers_nothing() {
    let mut table: DispatchMap<usize> = DispatchMap::new();
    let state: Request = request(members());
    let frame = state.send_ignored(&mut table);
    assert_eq!(table.next_seq(), 1);
    assert!(!table.is_registered(0));
    let (_, same) = DispatchMap::<usize>::new().send_command(members(), None);
    assert_eq!(frame, same);
    assert_eq!(route(&mut table, reply(0, ""), 1u8), Delivery::Discarded);
}

#[test]
fn concurrent_requests_get_their_own_responses() {
    let orders: Vec<Vec<u64>> = vec![vec![0, 1, 2, 3], vec![3, 2, 1, 0], vec![1, 3, 0, 2]];
    let bodies: [&'static str; 4] = ["zero", "one", "two", "three"];
    for order in orders {
        let mut table: DispatchMap<usize> = DispatchMap::new();
        let mut slots: Vec<Request> = Vec::new();
        for slot in 0..4usize {
            let mut state: Request = request(members());
            let (polled, frame) = state.poll(100 + slot as u32, slot, &mut table);
            assert_eq!(polled, Poll::Pending);
            assert!(frame.is_some());
            slots.push(state);
        }
        for seq in order {
            let woken = deliver(&mut table, &mut slots, reply(seq, ""), vec![bodies[seq as usize]]);
            assert_eq!(woken, Some(100 + seq as u32));
        }
        for slot in 0..4usize {
            let (polled, _) = slots[slot].poll(0, slot, &mut table);
            assert_eq!(polled, Poll::Ready(Ok(vec![bodies[slot]])));
        }
    }
}

#[test]
fn response_for_an_abandoned_request_is_absorbed() {
    let mut table: DispatchMap<usize> = DispatchMap::new();
    let mut slots: Vec<Request> = Vec::new();
    let mut abandoned: Request = request(members());
    abandoned.poll(1, 0, &mut table);
    slots.push(abandoned);
    let mut kept: Request = request(members());
    kept.poll(2, 1, &mut table);
    slots.push(kept);
    assert_eq!(deliver(&mut table, &mut slots, reply(0, ""), vec!["late"]), Some(1));
    assert!(!table.is_registered(0));
    assert!(table.is_registered(1));
    assert_eq!(deliver(&mut table, &mut slots, reply(0, ""), vec!["again"]), None);
    assert_eq!(deliver(&mut table, &mut slots, reply(1, ""), vec!["mine"]), Some(2));
    let (polled, _) = slots[1].poll(3, 1, &mut table);
    assert_eq!(polled, Poll::Ready(Ok(vec!["mine"])));
}

#[test]
fn subscription_is_first_in_first_out() {
    let mut handler: RPCStreamHandler<Waker, u32> = RPCStreamHandler::new();
    assert_eq!(handler.poll_next(1), Poll::Pending);
    assert_eq!(handler.handle(Ok(10)), Some(1));
    assert_eq!(handler.handle(Ok(11)), None);
    assert_eq!(handler.handle(Err("bad".to_string())), None);
    assert_eq!(handler.poll_next(2), Poll::Ready(Ok(10)));
    assert_eq!(handler.handle(Ok(12)), None);
    assert_eq!(handler.poll_next(3), Poll::Ready(Ok(11)));
    assert_eq!(handler.poll_next(4), Poll::Ready(Err("bad".to_string())));
    assert_eq!(handler.poll_next(5), Poll::Ready(Ok(12)));
    assert_eq!(handler.poll_next(6), Poll::Pending);
    assert_eq!(handler.poll_next(7), Poll::Pending);
    assert_eq!(handler.handle(Ok(13)), Some(7));
    assert_eq!(handler.poll_next(8), Poll::Ready(Ok(13)));
}

#[test]
fn subscription_keeps_order_under_any_interleaving() {
    for gap in 1..6usize {
        let mut handler: RPCStreamHandler<Waker, usize> = RPCStreamHandler::new();
        let mut out: Vec<usize> = Vec::new();
        for item in 0..40usize {
            handler.handle(Ok(item));
            if item % gap == 0 {
                if let Poll::Ready(Ok(v)) = handler.poll_next(0) {
                    out.push(v);
                }
            }
        }
        while let Poll::Ready(Ok(v)) = handler.poll_next(0) {
            out.push(v);
        }
        assert_eq!(out, (0..40usize).collect::<Vec<usize>>());
    }
}

#[test]
fn start_acknowledgment_is_seen_once() {
    let mut handler: RPCStreamHandler<Waker, u32> = RPCStreamHandler::new();
    assert!(!handler.stream_acked());
    assert!(handler.stream_acked());
    assert!(handler.stream_acked());
    handler.handle(Ok(1));
    assert_eq!(handler.poll_next(0), Poll::Ready(Ok(1)));
}

#[test]
fn stopped_subscription_gets_nothing_more() {
    let mut table: DispatchMap<usize> = DispatchMap::new();
    let mut handler: RPCStreamHandler<Waker, u32> = RPCStreamHandler::new();
    let (seq, _) = start_stream(&mut table, serf_rpc::protocol::stream("*").unwrap(), 0);
    match route(&mut table, reply(seq, ""), 1u32) {
        Delivery::Stream(_, res) => {
            handler.handle(res);
        }
        other => panic!("unexpected {:?}", other),
    }
    assert!(stop(&mut table, seq).is_some());
    for late in 2..5u32 {
        assert_eq!(route(&mut table, reply(seq, ""), late), Delivery::Discarded);
    }
    assert_eq!(handler.poll_next(0), Poll::Ready(Ok(1)));
    assert_eq!(handler.poll_next(0), Poll::Pending);
}

#[test]
fn connection_failure_resolves_every_handler() {
    let closed = connection_closed();
    assert_eq!(closed, "connection closed");
    let mut table: DispatchMap<usize> = DispatchMap::new();
    let mut requests: Vec<Request> = Vec::new();
    let mut streams: Vec<RPCStreamHandler<Waker, Vec<&'static str>>> = Vec::new();
    for slot in 0..3usize {
        let mut state: Request = request(members());
        state.poll(slot as u32, slot, &mut table);
        requests.push(state);
    }
    for slot in 0..2usize {
        start_stream(&mut table, serf_rpc::protocol::stream("*").unwrap(), slot);
        let mut handler: RPCStreamHandler<Waker, Vec<&'static str>> = RPCStreamHandler::new();
        assert_eq!(handler.poll_next(50 + slot as u32), Poll::Pending);
        streams.push(handler);
    }
    let failed = table.fail_all();
    assert_eq!(failed.len(), 5);
    let mut woken: Vec<Waker> = Vec::new();
    for (_, handler) in failed {
        if handler.streaming {
            woken.extend(streams[handler.target].handle(Err(closed.clone())));
        } else {
            woken.push(requests[handler.target].handle(Err(closed.clone())));
        }
    }
    woken.sort();
    assert_eq!(woken, vec![0, 1, 2, 50, 51]);
    for slot in 0..3usize {
        let (polled, _) = requests[slot].poll(9, slot, &mut table);
        assert_eq!(polled, Poll::Ready(Err(closed.clone())));
    }
    for handler in streams.iter_mut() {
        assert_eq!(handler.poll_next(9), Poll::Ready(Err(closed.clone())));
    }
    for seq in 0..5u64 {
        assert!(!table.is_registered(seq));
    }
}

#[test]
fn connect_then_members_scenario() {
    let mut table: DispatchMap<usize> = DispatchMap::new();
    let mut slots: Vec<RequestState<Waker, Vec<&'static str>>> = Vec::new();
    let mut shake: Request = request(handshake(MAX_IPC_VERSION));
    let (polled, frame) = shake.poll(1, 0, &mut table);
    assert_eq!(polled, Poll::Pending);
    let frame = frame.unwrap();
    let expected: Vec<u8> = vec![
        0x82, 0xa3, b'S', b'e', b'q', 0x00, 0xa7, b'C', b'o', b'm', b'm', b'a', b'n', b'd', 0xa9,
        b'h', b'a', b'n', b'd', b's', b'h', b'a', b'k', b'e', 0x81, 0xa7, b'V', b'e', b'r', b's',
        b'i', b'o', b'n', 0x01,
    ];
    assert_eq!(frame, expected);
    slots.push(shake);
    assert_eq!(deliver(&mut table, &mut slots, reply(0, ""), vec![]), Some(1));
    let (polled, _) = slots[0].poll(1, 0, &mut table);
    let shaken: RPCResult<()> = match polled {
        Poll::Ready(res) => res.map(|_| ()),
        Poll::Pending => panic!("handshake still pending"),
    };
    assert_eq!(after_handshake(shaken, None), ConnectStep::Done);

    let mut call: Request = request(members());
    let (polled, frame) = call.poll(2, 1, &mut table);
    assert_eq!(polled, Poll::Pending);
    assert_eq!(frame.unwrap()[5], 0x01);
    slots.push(call);
    assert_eq!(deliver(&mut table, &mut slots, reply(1, ""), vec!["node-a", "node-b"]), Some(2));
    let (polled, _) = slots[1].poll(2, 1, &mut table);
    assert_eq!(polled, Poll::Ready(Ok(vec!["node-a", "node-b"])));
}

#[test]
fn rejected_call_scenario() {
    let mut table: DispatchMap<usize> = DispatchMap::new();
    let mut slots: Vec<Request> = Vec::new();
    for slot in 0..3usize {
        let mut state: Request = request(members());
        state.poll(slot as u32, slot, &mut table);
        slots.push(state);
    }
    assert_eq!(deliver(&mut table, &mut slots, reply(1, "no such node"), vec!["ignored"]), Some(1));
    let (polled, _) = slots[1].poll(1, 1, &mut table);
    assert_eq!(polled, Poll::Ready(Err("no such node".to_string())));
    assert_eq!(slots[0], RequestState::Pending(0));
    assert_eq!(slots[2], RequestState::Pending(2));
    assert!(table.is_registered(0));
    assert!(table.is_registered(2));
    let mut next: Request = request(members());
    let (polled, frame) = next.poll(3, 3, &mut table);
    assert_eq!(polled, Poll::Pending);
    assert!(frame.is_some());
    slots.push(next);
    assert_eq!(deliver(&mut table, &mut slots, reply(3, ""), vec!["ok"]), Some(3));
    let (polled, _) = slots[3].poll(3, 3, &mut table);
    assert_eq!(polled, Poll::Ready(Ok(vec!["ok"])));
}

#[test]
fn connect_steps() {
    assert_eq!(after_handshake(Ok(()), None), ConnectStep::Done);
    assert_eq!(after_handshake(Ok(()), Some("key")), ConnectStep::Send(auth("key").unwrap()));
    assert_eq!(
        after_handshake(Err("unsupported version".to_string()), Some("key")),
        ConnectStep::Fail("unsupported version".to_string())
    );
    assert_eq!(
        after_handshake(Err("unsupported version".to_string()), None),
        ConnectStep::Fail("unsupported version".to_string())
    );
    assert_eq!(after_auth(Ok(())), ConnectStep::Done);
    assert_eq!(
        after_auth(Err("invalid auth token".to_string())),
        ConnectStep::Fail("invalid auth token".to_string())
    );
}
