//! Responses to input events, and how the responses of several handlers
//! combine.
use vstd::prelude::*;

verus! {

/// Every event receiver has to return a response for each event received.
#[derive(Clone, Copy, PartialEq, Eq, Debug, Structural)]
pub enum EventResponse {
    /// The event was not handled at all.
    NotHandled,
    /// The event was handled but should be forwarded to other receivers, too.
    Continue,
    /// The event was handled and should *not* be forwarded to other receivers.
    Break,
    /// In response to the event, the program should terminate.
    Quit,
}

/// What the handlers of an event need to know about it to decide whether it
/// asks the program to quit.
#[derive(Clone, Copy, PartialEq, Eq, Debug, Structural)]
pub enum InputEvent {
    /// The window was asked to close.
    CloseRequested,
    /// The window was destroyed.
    Destroyed,
    /// A key changed its state; `escape` tells whether it is the escape key.
    KeyboardInput { escape: bool },
    /// Any other event.
    Other,
}

/// Handler that handles events intended to quit the program.
pub struct QuitHandler;

impl QuitHandler {
    /// Answers `Quit` to a close request, to the destruction of the window
    /// and to any input of the escape key; `NotHandled` to everything else.
    pub fn handle_event(&mut self, e: &InputEvent) -> (r: EventResponse)
        ensures
            r == (match *e {
                InputEvent::CloseRequested => EventResponse::Quit,
                InputEvent::Destroyed => EventResponse::Quit,
                InputEvent::KeyboardInput { escape } => if escape {
                    EventResponse::Quit
                } else {
                    EventResponse::NotHandled
                },
                InputEvent::Other => EventResponse::NotHandled,
            }),
    {
        let should_quit = match e {
            InputEvent::CloseRequested => true,
            InputEvent::Destroyed => true,
            InputEvent::KeyboardInput { escape } => *escape,
            InputEvent::Other => false,
        };
        if should_quit {
            EventResponse::Quit
        } else {
            EventResponse::NotHandled
        }
    }
}

/// The combined response of handlers that answered `rs` (in order), when
/// `handled` tells whether an earlier handler already handled the event.
///
/// Handlers are asked in order. `Quit` ends the asking and is the answer.
/// `Break` ends the asking; the answer is then `Continue`. Otherwise the
/// answer is `Continue` if at least one handler handled the event and
/// `NotHandled` if none did.
pub open spec fn combined_from(rs: Seq<EventResponse>, handled: bool) -> EventResponse
    decreases rs.len(),
{
    if rs.len() == 0 {
        if handled {
            EventResponse::Continue
        } else {
            EventResponse::NotHandled
        }
    } else {
        match rs[0] {
            EventResponse::Quit => EventResponse::Quit,
            EventResponse::Break => EventResponse::Continue,
            EventResponse::Continue => combined_from(rs.drop_first(), true),
            EventResponse::NotHandled => combined_from(rs.drop_first(), handled),
        }
    }
}

/// The combined response of handlers that answered `rs`.
pub open spec fn combined_response(rs: Seq<EventResponse>) -> EventResponse {
    combined_from(rs, false)
}

/// Number of handlers that are asked when the handlers would answer `rs`:
/// all up to and including the first that answers `Break` or `Quit`.
pub open spec fn handlers_asked(rs: Seq<EventResponse>) -> int
    decreases rs.len(),
{
    if rs.len() == 0 {
        0
    } else {
        match rs[0] {
            EventResponse::Quit => 1,
            EventResponse::Break => 1,
            _ => 1 + handlers_asked(rs.drop_first()),
        }
    }
}

/// Collects the responses of a list of event handlers to one event, and
/// decides when to stop asking further handlers.
pub struct ResponseCombiner {
    /// At least one handler handled the event.
    handled_at_least_one: bool,
}

impl View for ResponseCombiner {
    type V = bool;

    closed spec fn view(&self) -> bool {
        self.handled_at_least_one
    }
}

impl ResponseCombiner {
    /// Starts with no handler asked.
    pub fn new() -> (r: Self)
        ensures
            r@ == false,
    {
        ResponseCombiner { handled_at_least_one: false }
    }

    /// Takes the response of the next handler. Returns the combined response
    /// if no further handler is to be asked, `None` otherwise.
    pub fn feed(&mut self, response: EventResponse) -> (r: Option<EventResponse>)
        ensures
            final(self)@ == (old(self)@ || response != EventResponse::NotHandled),
            r == match response {
                EventResponse::Quit => Some(EventResponse::Quit),
                EventResponse::Break => Some(EventResponse::Continue),
                _ => None::<EventResponse>,
            },
    {
        if response != EventResponse::NotHandled {
            self.handled_at_least_one = true;
        }
        match response {
            EventResponse::NotHandled | EventResponse::Continue => None,
            EventResponse::Break => Some(EventResponse::Continue),
            EventResponse::Quit => Some(EventResponse::Quit),
        }
    }

    /// The combined response once all handlers were asked.
    pub fn finish(&self) -> (r: EventResponse)
        ensures
            r == if self@ {
                EventResponse::Continue
            } else {
                EventResponse::NotHandled
            },
    {
        if self.handled_at_least_one {
            EventResponse::Continue
        } else {
            EventResponse::NotHandled
        }
    }
}

/// Combines the responses that a list of handlers gives to one event, as if
/// they were asked in order; returns the combined response and the number of
/// handlers that would be asked.
pub fn handle_with(responses: &[EventResponse]) -> (r: (EventResponse, usize))
    ensures
        r.0 == combined_response(responses@),
        r.1 == handlers_asked(responses@),
{
    let mut combiner = ResponseCombiner::new();
    let mut i: usize = 0;
    assert(responses@.skip(0) =~= responses@);
    while i < responses.len()
        invariant
            i <= responses@.len(),
            combined_from(responses@.skip(i as int), combiner@) == combined_response(responses@),
            handlers_asked(responses@) == i + handlers_asked(responses@.skip(i as int)),
            forall|k: int| 0 <= k < i ==> #[trigger] responses@[k] != EventResponse::Quit
                && responses@[k] != EventResponse::Break,
        decreases responses@.len() - i,
    {
        let ghost rest = responses@.skip(i as int);
        assert(rest.drop_first() =~= responses@.skip(i + 1));
        if let Some(resp) = combiner.feed(responses[i]) {
            return (resp, i + 1);
        }
        i = i + 1;
    }
    assert(responses@.skip(i as int) =~= Seq::<EventResponse>::empty());
    (combiner.finish(), i)
}

/// How the combined response of a list of handler responses comes about:
/// the handlers are asked up to the first `Break` or `Quit` (or all of
/// them); the result is `Quit` iff the last handler asked answered `Quit`,
/// and `NotHandled` iff every handler answered `NotHandled`.
pub proof fn lemma_combined_response_cases(rs: Seq<EventResponse>)
    ensures
        0 <= handlers_asked(rs) <= rs.len(),
        forall|m: int|
            0 <= m < handlers_asked(rs) - 1 ==> #[trigger] rs[m] == EventResponse::NotHandled
                || rs[m] == EventResponse::Continue,
        combined_response(rs) == EventResponse::Quit <==> (handlers_asked(rs) > 0
            && rs[handlers_asked(rs) - 1] == EventResponse::Quit),
        combined_response(rs) == EventResponse::NotHandled <==> forall|k: int|
            0 <= k < rs.len() ==> #[trigger] rs[k] == EventResponse::NotHandled,
{
    lemma_combined_from_cases(rs, false);
}

proof fn lemma_combined_from_cases(rs: Seq<EventResponse>, handled: bool)
    ensures
        0 <= handlers_asked(rs) <= rs.len(),
        forall|m: int|
            0 <= m < handlers_asked(rs) - 1 ==> #[trigger] rs[m] == EventResponse::NotHandled
                || rs[m] == EventResponse::Continue,
        combined_from(rs, handled) == EventResponse::Quit <==> (handlers_asked(rs) > 0
            && rs[handlers_asked(rs) - 1] == EventResponse::Quit),
        combined_from(rs, handled) == EventResponse::NotHandled <==> (!handled && forall|k: int|
            0 <= k < rs.len() ==> #[trigger] rs[k] == EventResponse::NotHandled),
    decreases rs.len(),
{
    if rs.len() > 0 {
        let tail = rs.drop_first();
        if rs[0] == EventResponse::Continue || rs[0] == EventResponse::NotHandled {
            let h2 = handled || rs[0] == EventResponse::Continue;
            lemma_combined_from_cases(tail, h2);
            assert forall|m: int|
                0 <= m < handlers_asked(rs) - 1 implies #[trigger] rs[m]
                == EventResponse::NotHandled || rs[m] == EventResponse::Continue by {
                if m > 0 {
                    assert(rs[m] == tail[m - 1]);
                }
            }
            assert(rs[handlers_asked(rs) - 1] == tail[handlers_asked(tail) - 1]
                || handlers_asked(tail) == 0);
            if forall|k: int| 0 <= k < rs.len() ==> #[trigger] rs[k] == EventResponse::NotHandled {
                assert forall|k: int| 0 <= k < tail.len() implies #[trigger] tail[k]
                    == EventResponse::NotHandled by {
                    assert(tail[k] == rs[k + 1]);
                }
            }
            if forall|k: int| 0 <= k < tail.len() ==> #[trigger] tail[k]
                == EventResponse::NotHandled {
                if rs[0] == EventResponse::NotHandled {
                    assert forall|k: int| 0 <= k < rs.len() implies #[trigger] rs[k]
                        == EventResponse::NotHandled by {
                        if k > 0 {
                            assert(rs[k] == tail[k - 1]);
                        }
                    }
                }
            }
        }
    }
}

/// What a key switcher does with an event.
#[derive(Clone, Copy, PartialEq, Eq, Debug, Structural)]
pub enum SwitchStep {
    /// The switch key was pressed: the other control takes over (the first
    /// one iff `to_first`), and the event is not handed on (`Break`).
    Switched { to_first: bool },
    /// The event goes to the first control.
    ForwardToFirst,
    /// The event goes to the second control.
    ForwardToSecond,
}

/// Holds two camera controls of which one is active at a time; pressing
/// the switch key hands over to the other one.
pub struct KeySwitcher<A, B> {
    pub first: A,
    pub second: B,
    /// Whether the first control is the active one.
    pub first_active: bool,
}

impl<A, B> KeySwitcher<A, B> {
    /// Starts with the first control active.
    pub fn new(first: A, second: B) -> (r: Self)
        ensures
            r.first_active,
            r.first == first,
            r.second == second,
    {
        KeySwitcher { first, second, first_active: true }
    }

    /// Decides what happens with an event: a press of the switch key makes
    /// the other control active; any other event goes to the active control.
    pub fn handle_event(&mut self, switch_key_pressed: bool) -> (r: SwitchStep)
        ensures
            final(self).first == old(self).first,
            final(self).second == old(self).second,
            switch_key_pressed ==> final(self).first_active == !old(self).first_active
                && r == (SwitchStep::Switched { to_first: final(self).first_active }),
            !switch_key_pressed ==> final(self).first_active == old(self).first_active
                && r == if old(self).first_active {
                SwitchStep::ForwardToFirst
            } else {
                SwitchStep::ForwardToSecond
            },
    {
        if switch_key_pressed {
            self.first_active = !self.first_active;
            SwitchStep::Switched { to_first: self.first_active }
        } else if self.first_active {
            SwitchStep::ForwardToFirst
        } else {
            SwitchStep::ForwardToSecond
        }
    }
}

/// Pressing the switch key twice makes the same control active again.
pub proof fn lemma_switch_twice<A, B>(k0: KeySwitcher<A, B>, k1: KeySwitcher<A, B>, k2: KeySwitcher<A, B>)
    requires
        k1.first_active == !k0.first_active,
        k2.first_active == !k1.first_active,
    ensures
        k2.first_active == k0.first_active,
{
}

} // verus!
