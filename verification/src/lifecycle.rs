//! How stream events change what an overlay element does.

use vstd::prelude::*;

verus! {

/// The stream events that an overlay element reacts to.
#[derive(Debug, Clone, Copy, PartialEq, Eq, Structural)]
pub enum LifecycleEventKind {
    Eos,
    FlushStart,
    FlushStop,
}

/// Whether the stream has ended or is being flushed.
#[derive(Debug, Clone, Copy, PartialEq, Eq, Structural)]
pub struct StreamState {
    pub eos: bool,
    pub flushing: bool,
}

impl Default for StreamState {
    fn default() -> (r: Self)
        ensures
            !r.eos,
            !r.flushing,
    {
        StreamState { eos: false, flushing: false }
    }
}

impl StreamState {
    /// The state after an event; other events than the three change nothing.
    pub open spec fn after(self, event: Option<LifecycleEventKind>) -> StreamState {
        match event {
            Some(LifecycleEventKind::Eos) => StreamState { eos: true, ..self },
            Some(LifecycleEventKind::FlushStart) => StreamState { flushing: true, ..self },
            Some(LifecycleEventKind::FlushStop) => StreamState { eos: false, flushing: false },
            None => self,
        }
    }

    /// Take note of an event.
    pub fn handle(&mut self, event: Option<LifecycleEventKind>)
        ensures
            *final(self) == old(self).after(event),
    {
        match event {
            Some(LifecycleEventKind::Eos) => {
                self.eos = true;
            },
            Some(LifecycleEventKind::FlushStart) => {
                self.flushing = true;
            },
            Some(LifecycleEventKind::FlushStop) => {
                self.eos = false;
                self.flushing = false;
            },
            None => {},
        }
    }

    /// Forget everything, as at the start and at the stop of the element.
    pub fn reset(&mut self)
        ensures
            *final(self) == (StreamState { eos: false, flushing: false }),
    {
        *self = StreamState { eos: false, flushing: false };
    }

    /// Whether frames are refused, because the stream has ended or is being flushed.
    pub fn refuses_frames(&self) -> (r: bool)
        ensures
            r == (self.eos || self.flushing),
    {
        self.eos || self.flushing
    }
}

/// The state after a list of events.
pub open spec fn state_after(
    state: StreamState,
    events: Seq<Option<LifecycleEventKind>>,
) -> StreamState
    decreases events.len(),
{
    if events.len() == 0 {
        state
    } else {
        state_after(state, events.drop_last()).after(events.last())
    }
}

/// After the end of a flush frames are taken again, whatever came before; after the end of
/// the stream or the start of a flush they are refused until then.
pub proof fn law_flush_stop_reopens_the_stream(
    state: StreamState,
    events: Seq<Option<LifecycleEventKind>>,
)
    requires
        events.len() > 0,
    ensures
        events.last() == Some(LifecycleEventKind::FlushStop) ==> state_after(state, events)
            == (StreamState { eos: false, flushing: false }),
        (forall|i: int|
            0 <= i < events.len() ==> #[trigger] events[i] != Some(LifecycleEventKind::FlushStop))
            && (state.eos || state.flushing || events[0] == Some(LifecycleEventKind::Eos)
            || events[0] == Some(LifecycleEventKind::FlushStart)) ==> state_after(
            state,
            events,
        ).eos || state_after(state, events).flushing,
    decreases events.len(),
{
    reveal_with_fuel(state_after, 2);
    if events.len() > 1 {
        let rest = events.drop_last();
        assert(forall|i: int| 0 <= i < rest.len() ==> rest[i] == events[i]);
        law_flush_stop_reopens_the_stream(state, rest);
        assert(events.last() == events[events.len() - 1]);
    } else {
        assert(events.drop_last() =~= Seq::empty());
        assert(events.last() == events[0]);
    }
}

/// The end of the stream is noted, whether or not a flush is going on, and so is the start of
/// a flush; only the end of a flush takes either back. Other events change nothing.
pub proof fn law_events_set_their_own_mark(state: StreamState)
    ensures
        state.after(Some(LifecycleEventKind::Eos)).eos,
        state.after(Some(LifecycleEventKind::Eos)).flushing == state.flushing,
        state.after(Some(LifecycleEventKind::FlushStart)).flushing,
        state.after(Some(LifecycleEventKind::FlushStart)).eos == state.eos,
        !state.after(Some(LifecycleEventKind::FlushStop)).eos,
        !state.after(Some(LifecycleEventKind::FlushStop)).flushing,
        state.after(None).eos == state.eos,
        state.after(None).flushing == state.flushing,
{
}

} // verus!
