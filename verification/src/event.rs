//! The decoding-context abstraction: a cursor over a stream of primitive
//! decoding events.
//!
//! A collaborator wire format drives the decoders by presenting its input as a
//! flat stream of [`Event`]s. Length-prefixed formats announce the size of a
//! sequence or map region up front (`Some` hint, no closing marker);
//! self-describing formats leave the size unknown (`None` hint) and close the
//! region with an explicit end marker, which forces the decoders to probe one
//! step past the data to discover the boundary.

use vstd::prelude::*;

verus! {

/// An identifier naming a record field or a union variant, as a wire format
/// may present it: by ordinal position, by name, or as raw identifier bytes.
#[derive(Clone, PartialEq, Eq, Debug)]
pub enum Ident {
    Ordinal(u64),
    Name(String),
    Raw(Vec<u8>),
}

/// The mathematical model of an [`Ident`].
pub enum IdentV {
    Ordinal(u64),
    Name(Seq<char>),
    Raw(Seq<u8>),
}

impl DeepView for Ident {
    type V = IdentV;

    open spec fn deep_view(&self) -> IdentV {
        match self {
            Ident::Ordinal(o) => IdentV::Ordinal(*o),
            Ident::Name(s) => IdentV::Name(s@),
            Ident::Raw(b) => IdentV::Raw(b@),
        }
    }
}

/// One primitive decoding event of the context.
///
/// `SeqStart(Some(n))` opens a sequence region of exactly `n` elements with no
/// closing marker; `SeqStart(None)` opens one that runs until `SeqEnd`. Map
/// regions behave the same way, with the hint counting key/value entries. A
/// `Key` event carries the identifier of a record field or of a union variant.
#[derive(Clone, PartialEq, Eq, Debug)]
pub enum Event {
    Unsigned(u64),
    Signed(i64),
    Text(String),
    SeqStart(Option<usize>),
    SeqEnd,
    MapStart(Option<usize>),
    MapEnd,
    Key(Ident),
}

/// The mathematical model of an [`Event`].
pub enum EventV {
    Unsigned(u64),
    Signed(i64),
    Text(Seq<char>),
    SeqStart(Option<usize>),
    SeqEnd,
    MapStart(Option<usize>),
    MapEnd,
    Key(IdentV),
}

impl DeepView for Event {
    type V = EventV;

    open spec fn deep_view(&self) -> EventV {
        match self {
            Event::Unsigned(u) => EventV::Unsigned(*u),
            Event::Signed(i) => EventV::Signed(*i),
            Event::Text(s) => EventV::Text(s@),
            Event::SeqStart(h) => EventV::SeqStart(*h),
            Event::SeqEnd => EventV::SeqEnd,
            Event::MapStart(h) => EventV::MapStart(*h),
            Event::MapEnd => EventV::MapEnd,
            Event::Key(id) => EventV::Key(id.deep_view()),
        }
    }
}

/// A decoding context: the event stream of one input together with the cursor
/// of the current decode. The cursor only ever advances; a decode borrows the
/// context exclusively for its duration.
pub struct Context {
    pub events: Vec<Event>,
    pub pos: usize,
}

impl Context {
    /// The modelled event stream.
    pub open spec fn stream(&self) -> Seq<EventV> {
        self.events.deep_view()
    }

    /// The modelled cursor position.
    pub open spec fn cursor(&self) -> nat {
        self.pos as nat
    }

    /// The cursor lies within the stream (one past the last event at most).
    pub open spec fn wf(&self) -> bool {
        self.pos <= self.events.len()
    }

    /// A fresh context over the given events, with the cursor at the start.
    pub fn new(events: Vec<Event>) -> (c: Context)
        ensures
            c.stream() == events.deep_view(),
            c.cursor() == 0,
            c.wf(),
    {
        Context { events, pos: 0 }
    }

    /// Whether the whole input has been consumed.
    pub fn at_end(&self) -> (r: bool)
        requires
            self.wf(),
        ensures
            r == (self.cursor() == self.stream().len()),
    {
        self.pos == self.events.len()
    }
}

} // verus!
