//! Transcription events and the names under which they are delivered.

use vstd::prelude::*;

verus! {

/// Mathematical model of a transcription event: the kind of boundary that
/// produced it and the cleaned text it carries.
pub enum EventModel {
    /// Text likely to be superseded by a later rewrite of the same line.
    Interim(Seq<char>),
    /// Text considered settled for its segment.
    Final(Seq<char>),
}

/// A transcription event as handed to the application: a tagged, non-empty
/// text payload.
#[derive(Debug, Clone, PartialEq, Eq)]
pub enum TranscriptionEvent {
    /// Produced at a carriage-return boundary; likely to be superseded.
    Interim(String),
    /// Produced at a newline boundary or at end of stream; settled.
    Final(String),
}

impl View for TranscriptionEvent {
    type V = EventModel;

    open spec fn view(&self) -> EventModel {
        match self {
            TranscriptionEvent::Interim(s) => EventModel::Interim(s@),
            TranscriptionEvent::Final(s) => EventModel::Final(s@),
        }
    }
}

impl TranscriptionEvent {
    /// The text payload.
    pub fn text(&self) -> (t: &String)
        ensures
            self@ matches EventModel::Interim(cs) ==> t@ == cs,
            self@ matches EventModel::Final(cs) ==> t@ == cs,
    {
        match self {
            TranscriptionEvent::Interim(s) => s,
            TranscriptionEvent::Final(s) => s,
        }
    }

    /// True for a `Final` event.
    pub fn is_settled(&self) -> (r: bool)
        ensures
            r == (self@ matches EventModel::Final(_)),
    {
        match self {
            TranscriptionEvent::Interim(_) => false,
            TranscriptionEvent::Final(_) => true,
        }
    }

    /// The name under which the event is delivered to the application shell.
    pub fn channel_name(&self) -> (r: &'static str)
        ensures
            self@ matches EventModel::Interim(_) ==> r@ == "interim_transcription"@,
            self@ matches EventModel::Final(_) ==> r@ == "final_transcription"@,
    {
        match self {
            TranscriptionEvent::Interim(_) => "interim_transcription",
            TranscriptionEvent::Final(_) => "final_transcription",
        }
    }
}

/// The model of an optional event.
pub open spec fn model_of(ev: Option<TranscriptionEvent>) -> Option<EventModel> {
    match ev {
        Some(e) => Some(e@),
        None => None,
    }
}

/// The models of a batch of events, in order.
pub open spec fn models_of(evs: Seq<TranscriptionEvent>) -> Seq<EventModel> {
    evs.map_values(|e: TranscriptionEvent| e@)
}

} // verus!
