use scheddoc::extract::events;
use scheddoc::raw::parse_document;
use scheddoc::schedule::ScheduleError;
use scheddoc::views::{make_day_room_event, make_room_day_event};

const SINGLE_EVENT_DOC: &str = r#"{ "schedule": { "conference": { "days": [
    { "index": 1, "rooms": { "Main": [
        { "guid": "abc123", "title": "Opening", "room": "Main", "date": "2022-07-22T17:00:00+02:00",
          "duration": "00:50", "persons": [ { "public_name": "Jane Doe" } ] }
    ] } }
] } } }"#;

#[test]
fn convert() {
    scheddoc::convert(SINGLE_EVENT_DOC).unwrap();
}

#[test]
fn end_to_end_single_event() {
    let doc = scheddoc::convert(SINGLE_EVENT_DOC).unwrap();
    assert!(doc.contains("## Opening {#abc123}"));
    assert!(doc.contains("Duration    00:50"));
    assert!(doc.contains("People      Jane Doe"));
    assert!(doc.contains("Time        17:00"));
    assert!(doc.contains("Date        Friday, July 22"));
    // The by-room and the by-day section each link the event exactly
    // once, so the anchor is referenced twice outside its own block.
    assert_eq!(doc.matches("](#abc123)").count(), 2);
    assert!(doc.contains("# Events {#events}"));
    assert!(doc.contains("# Rooms {#rooms}"));
    assert!(doc.contains("# Days {#days}"));
    assert!(doc.contains("## Main {#room-Main}"));
    assert!(doc.contains("## Day 1 {#day-1}"));
}

#[test]
fn converting_twice_is_byte_identical() {
    let first = scheddoc::convert(SINGLE_EVENT_DOC).unwrap();
    let second = scheddoc::convert(SINGLE_EVENT_DOC).unwrap();
    assert_eq!(first, second);
}

#[test]
fn convert_rejects_invalid_json() {
    assert_eq!(
        scheddoc::convert("no json here").unwrap_err(),
        ScheduleError::MalformedSchedule
    );
}

const TWO_DAY_DOC: &str = r#"{ "schedule": { "conference": { "days": [
    { "index": 1, "rooms": {
        "A": [ { "guid": "e1", "title": "one", "room": "A", "date": "2022-07-22T10:00:00+02:00", "duration": "00:30" },
               { "guid": "e2", "title": "two", "room": "A", "date": "2022-07-22T11:00:00+02:00", "duration": "00:30" } ],
        "B": [ { "guid": "e3", "title": "three", "room": "B", "date": "2022-07-22T12:00:00+02:00", "duration": "00:30" } ]
    } },
    { "index": 2, "rooms": {
        "A": [ { "guid": "e4", "title": "four", "room": "A", "date": "2022-07-23T10:00:00+02:00", "duration": "00:30" } ]
    } }
] } } }"#;

#[test]
fn grouping_covers_every_event_once() {
    let doc = parse_document(TWO_DAY_DOC).unwrap();
    let all = events(&doc).unwrap();
    assert_eq!(all.len(), 4);

    let by_room = make_room_day_event(&all);
    let mut room_total: usize = 0;
    for room in &by_room.rooms {
        for day in &room.days {
            assert!(!day.ids.is_empty());
            let mut last: Option<usize> = None;
            for &idx in &day.ids {
                assert!(idx < all.len());
                assert_eq!(all[idx].room.0, room.room.0);
                assert_eq!(all[idx].day.0, day.day.0);
                if let Some(prev) = last {
                    assert!(prev < idx);
                }
                last = Some(idx);
            }
            room_total += day.ids.len();
        }
    }
    assert_eq!(room_total, all.len());

    let by_day = make_day_room_event(&all);
    let mut day_total: usize = 0;
    for day in &by_day.days {
        for room in &day.rooms {
            assert!(!room.ids.is_empty());
            let mut last: Option<usize> = None;
            for &idx in &room.ids {
                assert!(idx < all.len());
                assert_eq!(all[idx].room.0, room.room.0);
                assert_eq!(all[idx].day.0, day.day.0);
                if let Some(prev) = last {
                    assert!(prev < idx);
                }
                last = Some(idx);
            }
            day_total += room.ids.len();
        }
    }
    assert_eq!(day_total, all.len());

    // Rooms in first-occurrence order; days in document order.
    assert_eq!(by_room.rooms[0].room.0, "A");
    assert_eq!(by_room.rooms[1].room.0, "B");
    assert_eq!(by_day.days[0].day.0, 1);
    assert_eq!(by_day.days[1].day.0, 2);
}

#[test]
fn empty_schedule_still_renders_all_sections() {
    let text =
        scheddoc::convert(r#"{ "schedule": { "conference": { "days": [] } } }"#).unwrap();
    assert_eq!(text, "# Events {#events}\n\n# Rooms {#rooms}\n\n# Days {#days}\n\n");
}

#[test]
fn day_index_field_takes_priority_over_position() {
    let doc = parse_document(
        r#"{ "schedule": { "conference": { "days": [
            { "index": 7, "rooms": { "A": [
                { "guid": "x", "title": "t", "room": "A",
                  "date": "2022-07-22T10:00:00+02:00", "duration": "00:30" }
            ] } }
        ] } } }"#,
    )
    .unwrap();
    let all = events(&doc).unwrap();
    assert_eq!(all[0].day.0, 7);
}

#[test]
fn rendered_sections_reference_each_event_twice() {
    let text = scheddoc::convert(TWO_DAY_DOC).unwrap();
    for anchor in ["e1", "e2", "e3", "e4"] {
        let link = format!("](#{})", anchor);
        assert_eq!(text.matches(&link).count(), 2);
        let block = format!(" {{#{}}}", anchor);
        assert_eq!(text.matches(&block).count(), 1);
    }
}
