use chrono::{Datelike, Timelike};

use scheddoc::extract::{events, parse_event};
use scheddoc::raw::parse_document;
use scheddoc::schedule::{Room, ScheduleError, Title, Track};

const RAW_EVENT: &str = r#"
        {
            "id": 109,
            "guid": "8021acd3-9860-5c31-bdcc-b1bdd25e4c87",
            "logo": "",
            "date": "2022-07-22T17:00:00+02:00",
            "start": "17:00",
            "duration": "00:50",
            "room": "Abacus  🧮",
            "slug": "mch2021-2020-109--may-contain-hackers-2022-opening",
            "url": "https://program.mch2022.org/mch2021-2020/talk/JBNXAX/",
            "title": "⚠️ May Contain Hackers 2022 Opening",
            "subtitle": "",
            "track": "MCH2022 Curated content",
            "type": "Talk",
            "language": "en",
            "abstract": "⚠️ Warning! This talk may contain hackers. There may be hackers in the room. There may be hackers surrounding the room. There may be hackers recording this. There may be hackers listening in. There may be hackers that exfiltrate data. There may be hackers wearing shirts. There may be hackers carrying spying devices. OH NO! There are hackers EVERYWHERE! What can we do now, except having a party?",
            "description": "This talk serves as an introduction to the camp. It tells how the camp works, what new features are being released, how to participate and what to be aware of.\r\n\r\nDuring this talk there will be some audio-trickery in the Abacus stage which can not be relayed to the recording or via the stream. As we cannot film audience reactions, know that it will be more epic than the final battle scene of LOTR.\r\n\r\nIn all seriousness: there are absolutely stunning new additions to the camp.\r\n\r\nI'm have to write at least 5",
            "recording_license": "",
            "do_not_record": false,
            "persons": [
                {
                    "id": 112,
                    "code": "SQMXG7",
                    "public_name": "Elger \"Stitch\" Jonker",
                    "biography": "Stitch is co-organizer for the MCH2022 hacker camp. Has also helped set up SHA2017 and does all kinds of things, for example helped build the design generator, work on the permit and spend office days organizing all kinds of stuff. In the past Stitch helped set up hackerspaces Hack42 and Awesome Space in the Netherlands.",
                    "answers": []
                }
            ],
            "links": [],
            "attachments": [],
            "answers": []
        }
"#;

#[test]
fn lib_extract_event() {
    let event_json = parse_document(RAW_EVENT).unwrap();
    let event = parse_event(1, &event_json).unwrap();
    assert_eq!(
        event.title,
        Title("\u{26a0}\u{fe0f} May Contain Hackers 2022 Opening".to_string())
    );
    assert_eq!(
        event.duration_seconds as i64,
        chrono::Duration::minutes(50).num_seconds()
    );
    let expected_start =
        chrono::NaiveDateTime::parse_from_str("2022-07-22T17:00:00", "%Y-%m-%dT%H:%M:%S")
            .unwrap();
    assert_eq!(event.start.year, expected_start.year());
    assert_eq!(event.start.month as u32, expected_start.month());
    assert_eq!(event.start.day as u32, expected_start.day());
    assert_eq!(event.start.hour as u32, expected_start.hour());
    assert_eq!(event.start.minute as u32, expected_start.minute());
    assert_eq!(event.start.second as u32, expected_start.second());
}

#[test]
fn parse_extract_event() {
    let event_json = parse_document(RAW_EVENT).unwrap();
    let event = parse_event(1, &event_json).unwrap();
    assert_eq!(
        event.title,
        Title(String::from("\u{26a0}\u{fe0f} May Contain Hackers 2022 Opening"))
    );
    assert_eq!(event.room, Room(String::from("Abacus  \u{1f9ee}")));
    assert_eq!(event.track, Track(String::from("MCH2022 Curated content")));
    assert_eq!(
        event.duration_seconds as i64,
        chrono::Duration::minutes(50).num_seconds()
    );
    let expected_start =
        chrono::NaiveDateTime::parse_from_str("2022-07-22T17:00:00", "%Y-%m-%dT%H:%M:%S")
            .unwrap();
    assert_eq!(event.start.year, expected_start.year());
    assert_eq!(event.start.month as u32, expected_start.month());
    assert_eq!(event.start.day as u32, expected_start.day());
    assert_eq!(event.start.hour as u32, expected_start.hour());
    assert_eq!(event.start.minute as u32, expected_start.minute());
    assert_eq!(event.start.second as u32, expected_start.second());
    assert!(event
        .brief
        .starts_with("\u{26a0}\u{fe0f} Warning! This talk may contain hackers."));
    assert!(event
        .description
        .starts_with("This talk serves as an introduction to the camp."));
    assert_eq!(event.people, vec![String::from("Elger \"Stitch\" Jonker")]);
    assert_eq!(event.event_type, String::from("Talk"));
    assert_eq!(
        event.url,
        String::from("https://program.mch2022.org/mch2021-2020/talk/JBNXAX/")
    );
}

#[test]
fn offset_is_preserved() {
    let event_json = parse_document(RAW_EVENT).unwrap();
    let event = parse_event(1, &event_json).unwrap();
    assert_eq!(event.start.offset_seconds, 2 * 3600);
    assert_eq!(event.unique_id, "8021acd3-9860-5c31-bdcc-b1bdd25e4c87");
}

fn doc_with(days: &str) -> String {
    format!(
        r#"{{ "schedule": {{ "conference": {{ "days": [ {} ] }} }} }}"#,
        days
    )
}

fn one_event(title: &str, room: &str, date: &str) -> String {
    format!(
        r#"{{ "title": "{}", "room": "{}", "date": "{}", "duration": "00:30" }}"#,
        title, room, date
    )
}

#[test]
fn extract_counts_all_events() {
    let days = format!(
        r#"{{ "index": 1, "rooms": {{ "A": [ {}, {} ], "B": [ {} ] }} }},
           {{ "index": 2, "rooms": {{ "A": [ {} ] }} }}"#,
        one_event("a", "A", "2022-07-22T10:00:00+02:00"),
        one_event("b", "A", "2022-07-22T11:00:00+02:00"),
        one_event("c", "B", "2022-07-22T12:00:00+02:00"),
        one_event("d", "A", "2022-07-23T10:00:00+02:00"),
    );
    let doc = parse_document(&doc_with(&days)).unwrap();
    let all = events(&doc).unwrap();
    assert_eq!(all.len(), 4);
    assert_eq!(all[0].title.0, "a");
    assert_eq!(all[1].title.0, "b");
    assert_eq!(all[2].title.0, "c");
    assert_eq!(all[3].title.0, "d");
    assert_eq!(all[0].day.0, 1);
    assert_eq!(all[3].day.0, 2);
}

#[test]
fn day_falls_back_to_position() {
    let days = format!(
        r#"{{ "rooms": {{ "A": [ {} ] }} }}, {{ "rooms": {{ "A": [ {} ] }} }}"#,
        one_event("a", "A", "2022-07-22T10:00:00+02:00"),
        one_event("b", "A", "2022-07-23T10:00:00+02:00"),
    );
    let doc = parse_document(&doc_with(&days)).unwrap();
    let all = events(&doc).unwrap();
    assert_eq!(all[0].day.0, 1);
    assert_eq!(all[1].day.0, 2);
}

#[test]
fn malformed_date_fails_extraction() {
    let days = format!(
        r#"{{ "index": 1, "rooms": {{ "A": [ {}, {} ] }} }}"#,
        one_event("good", "A", "2022-07-22T10:00:00+02:00"),
        one_event("bad", "A", "yesterday at noon"),
    );
    let doc = parse_document(&doc_with(&days)).unwrap();
    assert_eq!(events(&doc).unwrap_err(), ScheduleError::MalformedSchedule);
}

#[test]
fn malformed_duration_fails_extraction() {
    let days = r#"{ "index": 1, "rooms": { "A": [
        { "title": "t", "date": "2022-07-22T10:00:00+02:00", "duration": "about an hour" }
    ] } }"#;
    let doc = parse_document(&doc_with(days)).unwrap();
    assert_eq!(events(&doc).unwrap_err(), ScheduleError::MalformedSchedule);
}

#[test]
fn wrong_shape_fails_extraction() {
    let doc = parse_document(r#"{ "schedule": { "conference": { "days": 7 } } }"#).unwrap();
    assert_eq!(events(&doc).unwrap_err(), ScheduleError::MalformedSchedule);
    let doc = parse_document(r#"[1, 2, 3]"#).unwrap();
    assert_eq!(events(&doc).unwrap_err(), ScheduleError::MalformedSchedule);
}

#[test]
fn invalid_json_is_rejected() {
    assert_eq!(
        parse_document("{ not json").unwrap_err(),
        ScheduleError::MalformedSchedule
    );
}

#[test]
fn missing_text_fields_default_to_empty() {
    let days = r#"{ "index": 1, "rooms": { "A": [
        { "date": "2022-07-22T10:00:00+02:00", "duration": "00:10" }
    ] } }"#;
    let doc = parse_document(&doc_with(days)).unwrap();
    let all = events(&doc).unwrap();
    assert_eq!(all[0].title.0, "");
    assert_eq!(all[0].room.0, "");
    assert_eq!(all[0].track.0, "");
    assert_eq!(all[0].brief, "");
    assert_eq!(all[0].people, Vec::<String>::new());
}

#[test]
fn colliding_ids_get_suffixes() {
    let days = r#"{ "index": 1, "rooms": { "A": [
        { "title": "x", "guid": "same", "date": "2022-07-22T10:00:00+02:00", "duration": "00:10" },
        { "title": "y", "guid": "same", "date": "2022-07-22T11:00:00+02:00", "duration": "00:10" },
        { "title": "z", "guid": "same", "date": "2022-07-22T12:00:00+02:00", "duration": "00:10" }
    ] } }"#;
    let doc = parse_document(&doc_with(days)).unwrap();
    let all = events(&doc).unwrap();
    assert_eq!(all[0].unique_id, "same");
    assert_eq!(all[1].unique_id, "same-");
    assert_eq!(all[2].unique_id, "same--");
}

#[test]
fn synthesized_id_when_guid_missing() {
    let days = r#"{ "index": 1, "rooms": { "Main Hall": [
        { "title": "Opening!", "room": "Main Hall", "date": "2022-07-22T17:00:00+02:00", "duration": "00:50" }
    ] } }"#;
    let doc = parse_document(&doc_with(days)).unwrap();
    let all = events(&doc).unwrap();
    assert_eq!(all[0].unique_id, "Opening-MainHall-20220722T1700");
}
