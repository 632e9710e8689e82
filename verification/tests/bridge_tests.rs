use service_bridge::bridge::{
    bridge_step, translate_request, translate_result, BridgeAction, BridgeEvent, BridgeState,
    InboundRequest, InboundResponse, OutboundResult, TimeStamp,
};

fn now() -> TimeStamp {
    TimeStamp { seconds: 1_700_000_000, nanos: 500 }
}

#[test]
fn request_fields_map_into_the_outbound_message() {
    let m = translate_request(InboundRequest { a: 3, b: 4 }, now());
    assert_eq!(m.x, 3);
    assert_eq!(m.y, 4);
    assert_eq!(m.header.stamp, now());
    assert_eq!(m.header.reference_id, 0);
    assert_eq!(m.header.entity_path, "/");
}

#[test]
fn result_field_maps_into_the_inbound_response() {
    let r = translate_result(OutboundResult { x: 7 });
    assert_eq!(r.sum, 7);
}

#[test]
fn accepted_request_triggers_the_outbound_call() {
    let req = InboundRequest { a: 3, b: 4 };
    let (state, action) = bridge_step(
        BridgeState::Idle,
        BridgeEvent::Accepted { token: 11, request: req },
    );
    assert_eq!(state, BridgeState::AwaitingRemote { token: 11 });
    assert_eq!(action, BridgeAction::IssueCall { token: 11, request: req });
}

#[test]
fn remote_result_triggers_the_reply() {
    let (state, action) = bridge_step(
        BridgeState::AwaitingRemote { token: 11 },
        BridgeEvent::RemoteOk { result: OutboundResult { x: 7 } },
    );
    assert_eq!(state, BridgeState::Replying { token: 11 });
    assert_eq!(
        action,
        BridgeAction::SendReply { token: 11, response: InboundResponse { sum: 7 } }
    );
}

#[test]
fn sent_reply_returns_the_loop_to_idle() {
    let (state, action) = bridge_step(BridgeState::Replying { token: 11 }, BridgeEvent::ReplySent);
    assert_eq!(state, BridgeState::Idle);
    assert_eq!(action, BridgeAction::AwaitRequest);
}

#[test]
fn accept_failure_terminates_the_loop() {
    let (state, action) = bridge_step(BridgeState::Idle, BridgeEvent::AcceptFailed);
    assert_eq!(state, BridgeState::Terminated);
    assert_eq!(action, BridgeAction::Stop);
}

#[test]
fn remote_failure_terminates_without_a_reply() {
    let req = InboundRequest { a: 1, b: 2 };
    let (state, _) =
        bridge_step(BridgeState::Idle, BridgeEvent::Accepted { token: 5, request: req });
    let (state, action) = bridge_step(state, BridgeEvent::RemoteFailed);
    assert_eq!(state, BridgeState::Terminated);
    assert_eq!(action, BridgeAction::Stop);
    // a terminated loop accepts nothing further
    let (state, action) = bridge_step(
        state,
        BridgeEvent::Accepted { token: 6, request: req },
    );
    assert_eq!(state, BridgeState::Terminated);
    assert_eq!(action, BridgeAction::Stop);
}

#[test]
fn send_failure_terminates_the_loop() {
    let req = InboundRequest { a: 1, b: 2 };
    let (state, _) =
        bridge_step(BridgeState::Idle, BridgeEvent::Accepted { token: 5, request: req });
    let (state, _) =
        bridge_step(state, BridgeEvent::RemoteOk { result: OutboundResult { x: 3 } });
    let (state, action) = bridge_step(state, BridgeEvent::ReplySendFailed);
    assert_eq!(state, BridgeState::Terminated);
    assert_eq!(action, BridgeAction::Stop);
}

#[test]
fn replies_come_back_in_request_order() {
    let mut state = BridgeState::Idle;
    let mut replied: Vec<(u64, i64)> = Vec::new();
    for k in 0..3u64 {
        let req = InboundRequest { a: k as i64, b: 1 };
        let (s, action) = bridge_step(state, BridgeEvent::Accepted { token: k, request: req });
        assert!(matches!(action, BridgeAction::IssueCall { token, .. } if token == k));
        let (s, action) =
            bridge_step(s, BridgeEvent::RemoteOk { result: OutboundResult { x: k as i64 + 1 } });
        match action {
            BridgeAction::SendReply { token, response } => replied.push((token, response.sum)),
            _ => panic!("expected a reply action"),
        }
        let (s, action) = bridge_step(s, BridgeEvent::ReplySent);
        assert_eq!(action, BridgeAction::AwaitRequest);
        state = s;
    }
    assert_eq!(state, BridgeState::Idle);
    assert_eq!(replied, vec![(0, 1), (1, 2), (2, 3)]);
}
