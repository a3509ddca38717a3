//! Converts a conference's machine-readable schedule into a human-readable
//! markdown document: a flat, typed event list is extracted from the raw
//! nested export, grouped by room and by day, and rendered as three
//! cross-linked sections.

pub mod extract;
pub mod raw;
pub mod render;
pub mod schedule;
pub mod strutil;
pub mod views;

use vstd::prelude::*;

use crate::extract::spec_extract;
use crate::raw::json_tree_of;
use crate::render::spec_render;
use crate::schedule::ScheduleError;

verus! {

/// What one conversion run yields for the given schedule export text:
/// the rendered document, or `None` when the text is not valid JSON or
/// the document is malformed. A function of the text alone.
pub open spec fn spec_convert(text: Seq<char>) -> Option<Seq<char>> {
    match json_tree_of(text) {
        None => None,
        Some(doc) => match spec_extract(doc) {
            None => None,
            Some(evs) => Some(spec_render(evs)),
        },
    }
}

/// One conversion run: parses the schedule export's text, extracts the
/// flat event sequence, derives the two grouping indices, and renders
/// the three-section document. Fails with `MalformedSchedule`, and
/// produces no partial output, exactly when the text is not valid JSON
/// or the document's shape or a temporal field is broken.
pub fn convert(text: &str) -> (r: Result<String, ScheduleError>)
    ensures
        match r {
            Ok(s) => spec_convert(text@) == Some(s@),
            Err(e) => spec_convert(text@) is None && e == ScheduleError::MalformedSchedule,
        },
{
    let doc = match crate::raw::parse_document(text) {
        Ok(doc) => doc,
        Err(e) => {
            return Err(e);
        },
    };
    let events = match crate::extract::events(&doc) {
        Ok(events) => events,
        Err(e) => {
            return Err(e);
        },
    };
    let by_room = crate::views::make_room_day_event(&events);
    let by_day = crate::views::make_day_room_event(&events);
    Ok(crate::render::render(&events, &by_room, &by_day))
}

/// Idempotence of the pipeline: the rendered document is a function of
/// the input text alone, so converting byte-identical input twice
/// yields byte-identical output.
pub proof fn lemma_convert_deterministic(first: Seq<char>, second: Seq<char>)
    requires
        first == second,
    ensures
        spec_convert(first) == spec_convert(second),
{
}

} // verus!
