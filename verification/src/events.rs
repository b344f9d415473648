use vstd::prelude::*;

verus! {

/// A normalized markup event: one element was opened or closed.
pub enum Event {
    Open(String),
    Close(String),
}

/// The spec-level form of an event: the tag name as a sequence of characters.
pub enum Ev {
    Open(Seq<char>),
    Close(Seq<char>),
}

impl View for Event {
    type V = Ev;

    open spec fn view(&self) -> Ev {
        match self {
            Event::Open(name) => Ev::Open(name@),
            Event::Close(name) => Ev::Close(name@),
        }
    }
}

impl Clone for Event {
    fn clone(&self) -> (r: Event)
        ensures
            r@ == self@,
    {
        match self {
            Event::Open(name) => Event::Open(name.clone()),
            Event::Close(name) => Event::Close(name.clone()),
        }
    }
}

/// The spec view of a whole sequence of events.
pub open spec fn events_view(s: Seq<Event>) -> Seq<Ev> {
    s.map_values(|e: Event| e@)
}

} // verus!
