//! The schedule model: typed representations of an event and of its
//! identifying attributes, plus the error that extraction reports.

use vstd::prelude::*;

verus! {

/// Title of an event. A distinct type, so that a title cannot be passed
/// where a room or a track is expected.
#[derive(Debug)]
pub struct Title(pub String);

/// Name of the room an event takes place in.
#[derive(Debug)]
pub struct Room(pub String);

/// Name of the track an event belongs to.
#[derive(Debug)]
pub struct Track(pub String);

/// The schedule day an event is listed under.
#[derive(Clone, Copy, Debug, PartialEq, Eq, Structural)]
pub struct Day(pub i8);

impl View for Title {
    type V = Seq<char>;

    open spec fn view(&self) -> Seq<char> {
        self.0@
    }
}

impl View for Room {
    type V = Seq<char>;

    open spec fn view(&self) -> Seq<char> {
        self.0@
    }
}

impl View for Track {
    type V = Seq<char>;

    open spec fn view(&self) -> Seq<char> {
        self.0@
    }
}

impl PartialEq for Title {
    fn eq(&self, other: &Title) -> (r: bool) {
        self.0 == other.0
    }
}

impl vstd::std_specs::cmp::PartialEqSpecImpl for Title {
    open spec fn obeys_eq_spec() -> bool {
        true
    }

    open spec fn eq_spec(&self, other: &Title) -> bool {
        self.0@ == other.0@
    }
}

impl PartialEq for Room {
    fn eq(&self, other: &Room) -> (r: bool) {
        self.0 == other.0
    }
}

impl vstd::std_specs::cmp::PartialEqSpecImpl for Room {
    open spec fn obeys_eq_spec() -> bool {
        true
    }

    open spec fn eq_spec(&self, other: &Room) -> bool {
        self.0@ == other.0@
    }
}

impl PartialEq for Track {
    fn eq(&self, other: &Track) -> (r: bool) {
        self.0 == other.0
    }
}

impl vstd::std_specs::cmp::PartialEqSpecImpl for Track {
    open spec fn obeys_eq_spec() -> bool {
        true
    }

    open spec fn eq_spec(&self, other: &Track) -> bool {
        self.0@ == other.0@
    }
}

/// A point in time with the fixed UTC offset it was written with in the
/// source document. The offset is preserved, never normalized away, and
/// the field values are the local values under that offset.
#[derive(Clone, Copy, Debug, PartialEq, Eq, Structural)]
pub struct Timestamp {
    pub year: i32,
    pub month: u8,
    pub day: u8,
    pub hour: u8,
    pub minute: u8,
    pub second: u8,
    /// Offset from UTC in seconds, east positive.
    pub offset_seconds: i32,
}

impl Timestamp {
    /// Field ranges of a timestamp read from an RFC 3339 string: a
    /// four-digit year, a calendar month and day, a time of day, and an
    /// offset strictly between -24:00 and +24:00.
    pub open spec fn wf(self) -> bool {
        &&& 0 <= self.year <= 9999
        &&& 1 <= self.month <= 12
        &&& 1 <= self.day <= 31
        &&& self.hour <= 23
        &&& self.minute <= 59
        &&& self.second <= 59
        &&& -86340 <= self.offset_seconds <= 86340
    }
}

/// The mathematical content of an event: every field as a plain value.
pub ghost struct EventView {
    pub title: Seq<char>,
    pub room: Seq<char>,
    pub track: Seq<char>,
    pub day: i8,
    pub start: Timestamp,
    pub duration_seconds: u32,
    pub brief: Seq<char>,
    pub description: Seq<char>,
    pub people: Seq<Seq<char>>,
    pub event_type: Seq<char>,
    pub url: Seq<char>,
    pub unique_id: Seq<char>,
}

/// One scheduled activity, immutable once extracted.
#[derive(Debug)]
pub struct Event {
    /// Title of the event.
    pub title: Title,
    /// Where the event takes place.
    pub room: Room,
    /// What track the event is part of.
    pub track: Track,
    /// The day the event is listed under in the source document.
    pub day: Day,
    /// When the event starts, with the source's own UTC offset.
    pub start: Timestamp,
    /// How long the event is scheduled for, in whole seconds.
    pub duration_seconds: u32,
    /// The abstract; may be empty.
    pub brief: String,
    /// The full description; may be empty.
    pub description: String,
    /// Display names of the people involved, in source order.
    pub people: Vec<String>,
    /// The kind of event (talk, workshop, ...).
    pub event_type: String,
    /// A link to the event page on the website, or empty.
    pub url: String,
    /// A stable token used to link between sections of the rendered
    /// document; unique within one extracted schedule.
    pub unique_id: String,
}

impl View for Event {
    type V = EventView;

    open spec fn view(&self) -> EventView {
        EventView {
            title: self.title@,
            room: self.room@,
            track: self.track@,
            day: self.day.0,
            start: self.start,
            duration_seconds: self.duration_seconds,
            brief: self.brief@,
            description: self.description@,
            people: self.people.deep_view(),
            event_type: self.event_type@,
            url: self.url@,
            unique_id: self.unique_id@,
        }
    }
}

/// The views of a sequence of extracted events.
pub open spec fn views_of_events(events: Seq<Event>) -> Seq<EventView> {
    events.map_values(|e: Event| e@)
}

/// Why a conversion failed.
#[derive(Clone, Copy, Debug, PartialEq, Eq, Structural)]
pub enum ScheduleError {
    /// The raw document's shape does not match the expected
    /// conference/days/rooms/events nesting, or a required temporal
    /// field does not parse. Extraction aborts entirely: no partial
    /// event list is produced.
    MalformedSchedule,
}

} // verus!
