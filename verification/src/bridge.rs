//! The decision core of the request-serve loop.
//!
//! The loop owns one inbound service endpoint and one outbound requester
//! endpoint.  It accepts one request at a time, translates it into the
//! outbound schema, performs a synchronous remote call, translates the
//! result back and replies to the original caller.  The first failure from
//! either side terminates the loop; no request is retried or requeued.
//!
//! The transports themselves live outside this crate.  The surrounding
//! program performs each [`BridgeAction`], feeds the outcome back as a
//! [`BridgeEvent`], and steps the machine with [`bridge_step`]; everything
//! the loop decides is decided here.

use vstd::prelude::*;
use vstd::string::StringExecFns;

verus! {

/// A point in time, as stamped into outbound headers: whole seconds and
/// a nanosecond remainder.
#[derive(Clone, Copy, Debug, PartialEq, Eq, Structural)]
pub struct TimeStamp {
    pub seconds: i64,
    pub nanos: i32,
}

/// A request accepted on the inbound service: two integer operands.
#[derive(Clone, Copy, Debug, PartialEq, Eq, Structural)]
pub struct InboundRequest {
    pub a: i64,
    pub b: i64,
}

/// The response returned to the inbound caller: one integer sum.
#[derive(Clone, Copy, Debug, PartialEq, Eq, Structural)]
pub struct InboundResponse {
    pub sum: i64,
}

/// The result of the outbound remote call: one numeric payload field.
/// The outbound fabric carries it as a floating-point value; the boundary
/// rounds it to an integer before handing it to the core.
#[derive(Clone, Copy, Debug, PartialEq, Eq, Structural)]
pub struct OutboundResult {
    pub x: i64,
}

/// The timestamped header of an outbound message.
#[derive(Clone, Debug)]
pub struct OutboundHeader {
    pub stamp: TimeStamp,
    pub reference_id: u64,
    pub entity_path: String,
}

/// The outbound message: a header plus the two numeric payload fields.
/// The outbound fabric carries the payload as floating-point values; the
/// core carries the integer operands and the boundary converts.
#[derive(Clone, Debug)]
pub struct OutboundMessage {
    pub header: OutboundHeader,
    pub x: i64,
    pub y: i64,
}

/// The entity path stamped into every outbound header.
pub open spec fn default_entity_path() -> Seq<char> {
    seq!['/']
}

/// Build the outbound message for an accepted request: the operands move
/// into the two payload fields, the header carries the given timestamp, a
/// zero reference identifier and the default entity path.
pub fn translate_request(request: InboundRequest, now: TimeStamp) -> (m: OutboundMessage)
    ensures
        m.x == request.a,
        m.y == request.b,
        m.header.stamp == now,
        m.header.reference_id == 0,
        m.header.entity_path@ == default_entity_path(),
{
    let path = String::from_str("/");
    proof {
        reveal_strlit("/");
        assert(path@ =~= default_entity_path());
    }
    OutboundMessage { header: OutboundHeader { stamp: now, reference_id: 0, entity_path: path }, x: request.a, y: request.b }
}

/// Build the inbound response from a remote result: the result's numeric
/// field becomes the sum.
pub fn translate_result(result: OutboundResult) -> (r: InboundResponse)
    ensures
        r.sum == result.x,
{
    InboundResponse { sum: result.x }
}

/// The loop's control state.
#[derive(Clone, Copy, Debug, PartialEq, Eq, Structural)]
pub enum BridgeState {
    /// No request in flight; the loop awaits the next inbound request.
    Idle,
    /// A request was accepted and its outbound call was issued.
    AwaitingRemote { token: u64 },
    /// The remote call succeeded and the reply is being sent.
    Replying { token: u64 },
    /// A failure occurred; no further requests are accepted.
    Terminated,
}

/// What the transports report back to the loop.
#[derive(Clone, Copy, Debug, PartialEq, Eq, Structural)]
pub enum BridgeEvent {
    /// The inbound endpoint delivered a request under a correlation token.
    Accepted { token: u64, request: InboundRequest },
    /// The inbound endpoint failed to deliver a request.
    AcceptFailed,
    /// The outbound call returned a result.
    RemoteOk { result: OutboundResult },
    /// The outbound call failed.
    RemoteFailed,
    /// The reply reached the inbound caller.
    ReplySent,
    /// The reply could not be sent.
    ReplySendFailed,
}

/// What the loop asks the transports to do next.
#[derive(Clone, Copy, Debug, PartialEq, Eq, Structural)]
pub enum BridgeAction {
    /// Block on the inbound endpoint for the next request.
    AwaitRequest,
    /// Issue the outbound call for the given request, translated by
    /// [`translate_request`], and keep the token for the reply.
    IssueCall { token: u64, request: InboundRequest },
    /// Send the given response to the inbound caller identified by the
    /// token, translated by [`translate_result`].
    SendReply { token: u64, response: InboundResponse },
    /// Exit the loop.
    Stop,
}

/// Which events can arise in which states.  Nothing fits a terminated
/// loop: it accepts no further events.
pub open spec fn event_fits(state: BridgeState, event: BridgeEvent) -> bool {
    match (state, event) {
        (BridgeState::Idle, BridgeEvent::Accepted { .. }) => true,
        (BridgeState::Idle, BridgeEvent::AcceptFailed) => true,
        (BridgeState::AwaitingRemote { .. }, BridgeEvent::RemoteOk { .. }) => true,
        (BridgeState::AwaitingRemote { .. }, BridgeEvent::RemoteFailed) => true,
        (BridgeState::Replying { .. }, BridgeEvent::ReplySent) => true,
        (BridgeState::Replying { .. }, BridgeEvent::ReplySendFailed) => true,
        _ => false,
    }
}

/// One transition of the loop: from a state and the event that arrived in
/// it, to the next state and the next action.  A mismatched event, like any
/// failure, terminates the loop.
pub open spec fn spec_step(state: BridgeState, event: BridgeEvent) -> (BridgeState, BridgeAction) {
    match (state, event) {
        (BridgeState::Idle, BridgeEvent::Accepted { token, request }) => (
            BridgeState::AwaitingRemote { token },
            BridgeAction::IssueCall { token, request },
        ),
        (BridgeState::AwaitingRemote { token }, BridgeEvent::RemoteOk { result }) => (
            BridgeState::Replying { token },
            BridgeAction::SendReply { token, response: InboundResponse { sum: result.x } },
        ),
        (BridgeState::Replying { .. }, BridgeEvent::ReplySent) => (
            BridgeState::Idle,
            BridgeAction::AwaitRequest,
        ),
        _ => (BridgeState::Terminated, BridgeAction::Stop),
    }
}

/// Step the loop once.
pub fn bridge_step(state: BridgeState, event: BridgeEvent) -> (r: (BridgeState, BridgeAction))
    ensures
        r == spec_step(state, event),
{
    match (state, event) {
        (BridgeState::Idle, BridgeEvent::Accepted { token, request }) => (
            BridgeState::AwaitingRemote { token },
            BridgeAction::IssueCall { token, request },
        ),
        (BridgeState::AwaitingRemote { token }, BridgeEvent::RemoteOk { result }) => (
            BridgeState::Replying { token },
            BridgeAction::SendReply { token, response: translate_result(result) },
        ),
        (BridgeState::Replying { token: _ }, BridgeEvent::ReplySent) => (
            BridgeState::Idle,
            BridgeAction::AwaitRequest,
        ),
        _ => (BridgeState::Terminated, BridgeAction::Stop),
    }
}

/// The state the loop reaches after a sequence of events, starting idle.
pub open spec fn state_after(events: Seq<BridgeEvent>) -> BridgeState
    decreases events.len(),
{
    if events.len() == 0 {
        BridgeState::Idle
    } else {
        spec_step(state_after(events.drop_last()), events.last()).0
    }
}

/// A run of the loop: every event arose in the state the loop was in.
pub open spec fn valid_trace(events: Seq<BridgeEvent>) -> bool
    decreases events.len(),
{
    if events.len() == 0 {
        true
    } else {
        valid_trace(events.drop_last()) && event_fits(state_after(events.drop_last()), events.last())
    }
}

/// The correlation tokens of the requests accepted during a run, in
/// arrival order.
pub open spec fn accepted_tokens(events: Seq<BridgeEvent>) -> Seq<u64>
    decreases events.len(),
{
    if events.len() == 0 {
        Seq::empty()
    } else {
        let rest = accepted_tokens(events.drop_last());
        match events.last() {
            BridgeEvent::Accepted { token, .. } => rest.push(token),
            _ => rest,
        }
    }
}

/// The correlation tokens of the responses that reached their callers
/// during a run, in sending order.
pub open spec fn replied_tokens(events: Seq<BridgeEvent>) -> Seq<u64>
    decreases events.len(),
{
    if events.len() == 0 {
        Seq::empty()
    } else {
        let rest = replied_tokens(events.drop_last());
        match (state_after(events.drop_last()), events.last()) {
            (BridgeState::Replying { token }, BridgeEvent::ReplySent) => rest.push(token),
            _ => rest,
        }
    }
}

/// How the replies of a run relate to its accepted requests, by the
/// loop's state: a reply is owed exactly to the one request in flight.
pub open spec fn replies_match_state(events: Seq<BridgeEvent>) -> bool {
    match state_after(events) {
        BridgeState::Idle => accepted_tokens(events) == replied_tokens(events),
        BridgeState::AwaitingRemote { token } => accepted_tokens(events) == replied_tokens(
            events,
        ).push(token),
        BridgeState::Replying { token } => accepted_tokens(events) == replied_tokens(
            events,
        ).push(token),
        BridgeState::Terminated => replied_tokens(events) == accepted_tokens(events).take(
            replied_tokens(events).len() as int,
        ),
    }
}

/// In every run, responses go out in the order their requests arrived:
/// the replied tokens are a prefix of the accepted tokens, so the i-th
/// response answers the i-th accepted request.
pub proof fn lemma_fifo(events: Seq<BridgeEvent>)
    requires
        valid_trace(events),
    ensures
        replied_tokens(events).len() <= accepted_tokens(events).len(),
        replied_tokens(events) == accepted_tokens(events).take(replied_tokens(events).len() as int),
        replies_match_state(events),
    decreases events.len(),
{
    if events.len() > 0 {
        let d = events.drop_last();
        lemma_fifo(d);
        let a = accepted_tokens(events);
        let r = replied_tokens(events);
        let ad = accepted_tokens(d);
        let rd = replied_tokens(d);
        match (state_after(d), events.last()) {
            (BridgeState::Idle, BridgeEvent::Accepted { token, .. }) => {
                assert(a == ad.push(token) && r == rd);
                assert(r == a.take(r.len() as int)) by {
                    assert(ad == rd);
                    assert(ad.push(token).take(rd.len() as int) =~= rd);
                }
            },
            (BridgeState::Replying { token }, BridgeEvent::ReplySent) => {
                assert(a == ad && r == rd.push(token));
                assert(ad == rd.push(token));
                assert(r == a.take(r.len() as int)) by {
                    assert(a.take(a.len() as int) =~= a);
                }
            },
            _ => {
                assert(a == ad && r == rd);
                assert(r == a.take(r.len() as int)) by {
                    match state_after(d) {
                        BridgeState::Idle => {
                            assert(ad.take(rd.len() as int) =~= rd);
                        },
                        BridgeState::AwaitingRemote { token } => {
                            assert(ad == rd.push(token));
                            assert(rd.push(token).take(rd.len() as int) =~= rd);
                        },
                        BridgeState::Replying { token } => {
                            assert(ad == rd.push(token));
                            assert(rd.push(token).take(rd.len() as int) =~= rd);
                        },
                        BridgeState::Terminated => {},
                    }
                }
            },
        }
    }
}

/// A prefix of a run is a run.
pub proof fn lemma_valid_prefix(events: Seq<BridgeEvent>, i: int)
    requires
        valid_trace(events),
        0 <= i <= events.len(),
    ensures
        valid_trace(events.take(i)),
    decreases events.len(),
{
    if i < events.len() {
        lemma_valid_prefix(events.drop_last(), i);
        assert(events.drop_last().take(i) =~= events.take(i));
    } else {
        assert(events.take(i) =~= events);
    }
}

/// A run never continues past termination: while further events arrive,
/// the loop has not terminated.
pub proof fn lemma_terminated_is_final(events: Seq<BridgeEvent>, i: int)
    requires
        valid_trace(events),
        0 <= i < events.len(),
    ensures
        !(state_after(events.take(i)) is Terminated),
{
    lemma_valid_prefix(events, i + 1);
    let t = events.take(i + 1);
    assert(t.drop_last() =~= events.take(i));
    assert(event_fits(state_after(events.take(i)), t.last()));
}

/// When the outbound call for a request fails, that request gets no
/// response, the loop terminates, and no further event is processed: the
/// failing event is the last of the run, every earlier request was answered
/// in order, and the failed one was not.
pub proof fn lemma_fatal_on_call_failure(events: Seq<BridgeEvent>, i: int, token: u64)
    requires
        valid_trace(events),
        0 <= i < events.len(),
        events[i] == BridgeEvent::RemoteFailed,
        state_after(events.take(i)) == (BridgeState::AwaitingRemote { token }),
    ensures
        i == events.len() - 1,
        state_after(events) is Terminated,
        accepted_tokens(events) == replied_tokens(events).push(token),
        replied_tokens(events) == accepted_tokens(events).take(accepted_tokens(events).len() - 1),
{
    let t = events.take(i + 1);
    assert(t.drop_last() =~= events.take(i));
    assert(t.last() == events[i]);
    assert(state_after(t) is Terminated);
    if i + 1 < events.len() {
        assert(events.take(i + 1) == t);
        lemma_terminated_is_final(events, i + 1);
    }
    assert(t =~= events);
    lemma_valid_prefix(events, i);
    lemma_fifo(events.take(i));
    assert(accepted_tokens(events) == accepted_tokens(events.take(i)));
    assert(replied_tokens(events) == replied_tokens(events.take(i)));
    assert(accepted_tokens(events) == replied_tokens(events).push(token));
    assert(replied_tokens(events) == accepted_tokens(events).take(
        accepted_tokens(events).len() - 1,
    )) by {
        assert(replied_tokens(events).push(token).take(replied_tokens(events).len() as int)
            =~= replied_tokens(events));
    }
}

/// When the remote call for a request succeeds but its reply cannot be
/// sent, the loop terminates at once: the failing event is the last of the
/// run, every earlier request was answered in order, and no later request
/// is processed.
pub proof fn lemma_fatal_on_send_failure(events: Seq<BridgeEvent>, i: int, token: u64)
    requires
        valid_trace(events),
        0 <= i < events.len(),
        events[i] == BridgeEvent::ReplySendFailed,
        state_after(events.take(i)) == (BridgeState::Replying { token }),
    ensures
        i == events.len() - 1,
        state_after(events) is Terminated,
        accepted_tokens(events) == replied_tokens(events).push(token),
        replied_tokens(events) == accepted_tokens(events).take(accepted_tokens(events).len() - 1),
{
    let t = events.take(i + 1);
    assert(t.drop_last() =~= events.take(i));
    assert(t.last() == events[i]);
    assert(state_after(t) is Terminated);
    if i + 1 < events.len() {
        assert(events.take(i + 1) == t);
        lemma_terminated_is_final(events, i + 1);
    }
    assert(t =~= events);
    lemma_valid_prefix(events, i);
    lemma_fifo(events.take(i));
    assert(accepted_tokens(events) == accepted_tokens(events.take(i)));
    assert(replied_tokens(events) == replied_tokens(events.take(i)));
    assert(accepted_tokens(events) == replied_tokens(events).push(token));
    assert(replied_tokens(events) == accepted_tokens(events).take(
        accepted_tokens(events).len() - 1,
    )) by {
        assert(replied_tokens(events).push(token).take(replied_tokens(events).len() as int)
            =~= replied_tokens(events));
    }
}

} // verus!
