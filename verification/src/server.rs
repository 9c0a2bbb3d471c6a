//! What the book server does with each update that it relays to a client.
use vstd::prelude::*;
use crate::orderbook::Summary;

verus! {

/// What the relay to one client receives from the broadcast of combined
/// books.
pub enum RelayEvent {
    /// A combined book, or `None` when the broadcast is ended.
    Received(Option<Summary>),
    /// The relay fell behind and missed updates.
    Lagged,
    /// The broadcast is gone.
    Closed,
}

/// What the relay does next.
#[derive(Debug)]
pub enum RelayAction {
    /// Send this summary to the client and go on.
    Forward(Summary),
    /// Stop relaying.
    Finish,
    /// Report the missed updates and go on.
    ReportLag,
    /// The relay cannot go on.
    Fail,
}

/// What the relay does on `event`: it forwards a combined book, finishes
/// when the broadcast ends, reports a lag, and fails when the broadcast is
/// gone.
pub open spec fn relay_action(event: RelayEvent) -> RelayAction {
    match event {
        RelayEvent::Received(Some(s)) => RelayAction::Forward(s),
        RelayEvent::Received(None) => RelayAction::Finish,
        RelayEvent::Lagged => RelayAction::ReportLag,
        RelayEvent::Closed => RelayAction::Fail,
    }
}

/// The summaries that a relay that acts on `events` in turn sends to its
/// client, in order, up to where it stops.
pub open spec fn relay_stream(events: Seq<RelayEvent>) -> Seq<Summary>
    decreases events.len(),
{
    if events.len() == 0 {
        Seq::empty()
    } else {
        match relay_action(events[0]) {
            RelayAction::Forward(s) => seq![s] + relay_stream(events.drop_first()),
            RelayAction::ReportLag => relay_stream(events.drop_first()),
            _ => Seq::empty(),
        }
    }
}

/// The relay's decision on one event.
pub fn relay_step(event: RelayEvent) -> (r: RelayAction)
    ensures
        r == relay_action(event),
{
    match event {
        RelayEvent::Received(Some(s)) => RelayAction::Forward(s),
        RelayEvent::Received(None) => RelayAction::Finish,
        RelayEvent::Lagged => RelayAction::ReportLag,
        RelayEvent::Closed => RelayAction::Fail,
    }
}

/// Where the first `k` events are combined books and, if any event follows
/// them, the next one ends the broadcast, the relay sends exactly those `k`
/// books, in the order they came, and nothing after the end.
pub proof fn law_relay_forwards_in_order(events: Seq<RelayEvent>, k: int)
    requires
        0 <= k <= events.len(),
        forall|i: int| 0 <= i < k ==> (#[trigger] events[i] matches RelayEvent::Received(Some(_))),
        k < events.len() ==> events[k] matches RelayEvent::Received(None),
    ensures
        relay_stream(events) == Seq::new(
            k as nat,
            |i: int|
                match events[i] {
                    RelayEvent::Received(Some(s)) => s,
                    _ => arbitrary(),
                },
        ),
    decreases k,
{
    let expected = Seq::new(
        k as nat,
        |i: int|
            match events[i] {
                RelayEvent::Received(Some(s)) => s,
                _ => arbitrary(),
            },
    );
    if k == 0 {
        if events.len() > 0 {
            assert(events[0] matches RelayEvent::Received(None));
        }
        assert(relay_stream(events) =~= expected);
    } else {
        let rest = events.drop_first();
        assert forall|i: int| 0 <= i < k - 1 implies (#[trigger] rest[i] matches RelayEvent::Received(
            Some(_),
        )) by {
            assert(rest[i] == events[i + 1]);
            assert(events[i + 1] matches RelayEvent::Received(Some(_)));
        }
        if k - 1 < rest.len() {
            assert(rest[k - 1] == events[k]);
        }
        law_relay_forwards_in_order(rest, k - 1);
        assert(events[0] matches RelayEvent::Received(Some(_)));
        assert(relay_stream(events) =~= expected);
    }
}

} // verus!
