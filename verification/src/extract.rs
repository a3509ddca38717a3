//! The extractor: walks the raw nested schedule document (conference,
//! days, rooms, events) and produces the flat ordered event sequence,
//! parsing timestamps and durations and defaulting missing text fields
//! to the empty string. A broken temporal field or an unexpected shape
//! fails the whole extraction with `MalformedSchedule`; no partial
//! event list is produced.

use vstd::prelude::*;

use chrono::Datelike;
use chrono::Timelike;

use crate::raw::{lookup, spec_lookup, RawValue};
use crate::render::{id, spec_id};
use crate::schedule::{
    views_of_events, Day, Event, EventView, Room, ScheduleError, Timestamp, Title, Track,
};
use crate::strutil::{dec2_u32, dec_u32, push_char, spec_dec, spec_dec2};

verus! {

/// The timestamp that chrono reads out of an RFC 3339 string, with the
/// source's own offset kept, or `None` when the string is not a valid
/// RFC 3339 timestamp. The result is a function of the string alone.
pub uninterp spec fn rfc3339_of(s: Seq<char>) -> Option<Timestamp>;

/// Relies on chrono::DateTime::parse_from_rfc3339: it accepts exactly
/// the RFC 3339 grammar (four-digit year, calendar month and day, time
/// of day, offset within a day), and the field accessors return the
/// local values under the parsed offset.
#[verifier::external_body]
fn parse_rfc3339(s: &str) -> (r: Option<Timestamp>)
    ensures
        r == rfc3339_of(s@),
        r matches Some(t) ==> t.wf(),
{
    match chrono::DateTime::parse_from_rfc3339(s) {
        Err(_) => None,
        Ok(dt) => Some(Timestamp {
            year: dt.year(),
            month: dt.month() as u8,
            day: dt.day() as u8,
            hour: dt.hour() as u8,
            minute: dt.minute() as u8,
            second: dt.second() as u8,
            offset_seconds: dt.offset().local_minus_utc(),
        }),
    }
}

/// The number of seconds that chrono reads out of an "HH:MM" string, or
/// `None` when the string does not parse as hours and minutes. The
/// result is a function of the string alone.
pub uninterp spec fn hhmm_seconds_of(s: Seq<char>) -> Option<u32>;

/// Relies on chrono::NaiveTime::parse_from_str with format "%H:%M" and
/// NaiveTime::num_seconds_from_midnight: the hour is at most 23 and the
/// minute at most 59, so the span is at most 23 hours and 59 minutes.
#[verifier::external_body]
fn parse_hhmm(s: &str) -> (r: Option<u32>)
    ensures
        r == hhmm_seconds_of(s@),
        r matches Some(n) ==> n <= 86340,
{
    match chrono::NaiveTime::parse_from_str(s, "%H:%M") {
        Ok(t) => Some(t.num_seconds_from_midnight()),
        Err(_) => None,
    }
}

/// The text of a raw value that is a string; anything else, a missing
/// field included, is read as the empty string. Organizer data entry is
/// unreliable, and a missing title or abstract must not abort a whole
/// conversion.
pub open spec fn spec_text_or_empty(v: Option<RawValue>) -> Seq<char> {
    match v {
        Some(RawValue::Text(s)) => s@,
        _ => Seq::empty(),
    }
}

/// Reads a string field out of an object's entries, with the empty
/// string as the default.
fn text_field(entries: &Vec<(String, RawValue)>, key: &str) -> (r: String)
    ensures
        r@ == spec_text_or_empty(spec_lookup(entries@, key@)),
{
    match lookup(entries, key) {
        Some(RawValue::Text(s)) => s.clone(),
        _ => String::new(),
    }
}

/// The display name of one raw person entry.
pub open spec fn spec_person_name(p: RawValue) -> Seq<char> {
    match p {
        RawValue::Object(entries) => spec_text_or_empty(spec_lookup(entries@, "public_name"@)),
        _ => Seq::empty(),
    }
}

/// The display names in a raw `persons` array, in source order. A
/// missing or non-array field yields no names.
pub open spec fn spec_people(v: Option<RawValue>) -> Seq<Seq<char>> {
    match v {
        Some(RawValue::List(items)) => items@.map_values(|p: RawValue| spec_person_name(p)),
        _ => Seq::empty(),
    }
}

/// Reads the display names out of an event's `persons` array.
fn parse_people(entries: &Vec<(String, RawValue)>) -> (r: Vec<String>)
    ensures
        r.deep_view() == spec_people(spec_lookup(entries@, "persons"@)),
{
    match lookup(entries, "persons") {
        Some(RawValue::List(items)) => {
            let ghost names = items@.map_values(|p: RawValue| spec_person_name(p));
            let mut out: Vec<String> = Vec::new();
            let mut j: usize = 0;
            proof {
                assert(out.deep_view() =~= names.take(0));
            }
            while j < items.len()
                invariant
                    j <= items@.len(),
                    out@.len() == j as int,
                    names == items@.map_values(|p: RawValue| spec_person_name(p)),
                    out.deep_view() == names.take(j as int),
                decreases items@.len() - j,
            {
                let name = match &items[j] {
                    RawValue::Object(p) => text_field(p, "public_name"),
                    _ => String::new(),
                };
                proof {
                    assert(name@ == spec_person_name(items@[j as int]));
                    assert(names[j as int] == spec_person_name(items@[j as int]));
                }
                out.push(name);
                j = j + 1;
                proof {
                    assert(out.deep_view() =~= names.take(j as int));
                }
            }
            proof {
                assert(names.take(items@.len() as int) =~= names);
            }
            out
        },
        _ => {
            let out: Vec<String> = Vec::new();
            proof {
                assert(out.deep_view() =~= Seq::<Seq<char>>::empty());
            }
            out
        },
    }
}

/// Whether a character is a decimal digit.
pub open spec fn spec_is_digit(c: char) -> bool {
    48 <= c as u32 <= 57
}

/// The value of a decimal digit character.
pub open spec fn spec_digit_val(c: char) -> nat {
    (c as u32 - 48) as nat
}

/// The value of a run of decimal digit characters.
pub open spec fn spec_digits_val(s: Seq<char>) -> nat
    decreases s.len(),
{
    if s.len() == 0 {
        0
    } else {
        spec_digits_val(s.drop_last()) * 10 + spec_digit_val(s.last())
    }
}

/// Whether every character of the sequence is a decimal digit.
pub open spec fn spec_all_digits(s: Seq<char>) -> bool {
    forall|i: int| 0 <= i < s.len() ==> spec_is_digit(s[i])
}

/// The value of an integer literal of at most three digits, with an
/// optional leading minus sign; `None` for any other text.
pub open spec fn spec_parse_small_int(s: Seq<char>) -> Option<int> {
    let neg = s.len() > 0 && s[0] == '-';
    let ds = if neg {
        s.drop_first()
    } else {
        s
    };
    if 1 <= ds.len() <= 3 && spec_all_digits(ds) {
        if neg {
            Some(-(spec_digits_val(ds) as int))
        } else {
            Some(spec_digits_val(ds) as int)
        }
    } else {
        None
    }
}

proof fn lemma_digits_val_bound(s: Seq<char>)
    requires
        spec_all_digits(s),
        s.len() <= 3,
    ensures
        spec_digits_val(s) <= 999,
        s.len() <= 2 ==> spec_digits_val(s) <= 99,
        s.len() <= 1 ==> spec_digits_val(s) <= 9,
    decreases s.len(),
{
    if s.len() > 0 {
        assert(spec_all_digits(s.drop_last()));
        lemma_digits_val_bound(s.drop_last());
        assert(spec_is_digit(s.last()));
        assert(spec_digit_val(s.last()) <= 9);
    }
}

/// Parses an integer literal of at most three digits, optionally
/// signed.
fn parse_small_int(s: &str) -> (r: Option<i32>)
    ensures
        match r {
            Some(v) => spec_parse_small_int(s@) == Some(v as int),
            None => spec_parse_small_int(s@) is None,
        },
{
    let n = s.unicode_len();
    let neg = n > 0 && s.get_char(0) == '-';
    let start: usize = if neg {
        1
    } else {
        0
    };
    let ghost ds = if neg {
        s@.drop_first()
    } else {
        s@
    };
    proof {
        assert(ds =~= s@.subrange(start as int, n as int));
    }
    if n - start < 1 || n - start > 3 {
        return None;
    }
    let mut v: u32 = 0;
    let mut i: usize = start;
    proof {
        assert(s@.subrange(start as int, start as int) =~= Seq::<char>::empty());
    }
    while i < n
        invariant
            start <= i <= n,
            n == s@.len(),
            1 <= n - start <= 3,
            neg == (s@.len() > 0 && s@[0] == '-'),
            start as int == (if neg { 1int } else { 0int }),
            ds == s@.subrange(start as int, n as int),
            spec_all_digits(s@.subrange(start as int, i as int)),
            v == spec_digits_val(s@.subrange(start as int, i as int)),
        decreases n - i,
    {
        let c = s.get_char(i);
        let cv = c as u32;
        if cv < 48 || cv > 57 {
            proof {
                if neg {
                    assert(s@.drop_first() =~= s@.subrange(1, n as int));
                }
                assert(ds[i - start] == c);
                assert(!spec_is_digit(ds[i - start]));
                assert(!spec_all_digits(ds));
                assert(spec_parse_small_int(s@) is None);
            }
            return None;
        }
        proof {
            lemma_digits_val_bound(s@.subrange(start as int, i as int));
            assert(s@.subrange(start as int, i as int + 1).drop_last() =~= s@.subrange(
                start as int,
                i as int,
            ));
            assert(s@.subrange(start as int, i as int + 1).last() == c);
        }
        v = v * 10 + (cv - 48);
        i = i + 1;
    }
    proof {
        assert(s@.subrange(start as int, n as int) =~= ds);
        lemma_digits_val_bound(ds);
    }
    if neg {
        Some(0i32 - (v as i32))
    } else {
        Some(v as i32)
    }
}

/// The day number to list a day's events under: the day object's own
/// `index` field when it is a small integer, otherwise the day's
/// one-based position in the `days` array. The source's own numbering
/// takes priority; the positional fallback is fixed so that repeated
/// runs on the same input agree. A position past 127 does not fit the
/// day type and makes the document malformed.
pub open spec fn spec_fallback_day(pos: int) -> Option<i8> {
    if pos + 1 <= 127 {
        Some((pos + 1) as i8)
    } else {
        None
    }
}

/// The day number of the day object with the given entries at the given
/// position.
pub open spec fn spec_day_number(entries: Seq<(String, RawValue)>, pos: int) -> Option<i8> {
    let from_index = match spec_lookup(entries, "index"@) {
        Some(RawValue::Number(txt)) => spec_parse_small_int(txt@),
        _ => None,
    };
    match from_index {
        Some(v) => if -128 <= v <= 127 {
            Some(v as i8)
        } else {
            spec_fallback_day(pos)
        },
        None => spec_fallback_day(pos),
    }
}

/// Reads the day number out of a day object.
fn day_number(entries: &Vec<(String, RawValue)>, pos: usize) -> (r: Option<i8>)
    ensures
        match r {
            Some(d) => spec_day_number(entries@, pos as int) == Some(d),
            None => spec_day_number(entries@, pos as int) is None,
        },
{
    let from_index = match lookup(entries, "index") {
        Some(RawValue::Number(txt)) => parse_small_int(txt.as_str()),
        _ => None,
    };
    match from_index {
        Some(v) => {
            if -128 <= v && v <= 127 {
                return Some(v as i8);
            }
        },
        None => {},
    }
    if pos <= 126 {
        Some((pos + 1) as i8)
    } else {
        None
    }
}

/// The anchor token synthesized for an event whose source gives it no
/// identifier: sanitized title and room and the start written out, so
/// that repeated runs on the same source produce identical anchors.
pub open spec fn spec_synth_id(title: Seq<char>, room: Seq<char>, start: Timestamp) -> Seq<
    char,
> {
    spec_id(title) + "-"@ + spec_id(room) + "-"@ + spec_dec(start.year as nat) + spec_dec2(
        start.month as nat,
    ) + spec_dec2(start.day as nat) + "T"@ + spec_dec2(start.hour as nat) + spec_dec2(
        start.minute as nat,
    )
}

/// The identifier an event gets before collisions are resolved: the
/// source's own `guid` when present and non-empty, otherwise the
/// synthesized token.
pub open spec fn spec_base_id(
    entries: Seq<(String, RawValue)>,
    title: Seq<char>,
    room: Seq<char>,
    start: Timestamp,
) -> Seq<char> {
    let guid = spec_text_or_empty(spec_lookup(entries, "guid"@));
    if guid.len() > 0 {
        guid
    } else {
        spec_synth_id(title, room, start)
    }
}

/// The event read out of one raw event object listed under the given
/// day, or `None` when the object's shape or a temporal field is
/// broken.
pub open spec fn spec_event_of(day: i8, ev: RawValue) -> Option<EventView> {
    match ev {
        RawValue::Object(entries) => {
            let title = spec_text_or_empty(spec_lookup(entries@, "title"@));
            let room = spec_text_or_empty(spec_lookup(entries@, "room"@));
            match rfc3339_of(spec_text_or_empty(spec_lookup(entries@, "date"@))) {
                None => None,
                Some(start) => match hhmm_seconds_of(
                    spec_text_or_empty(spec_lookup(entries@, "duration"@)),
                ) {
                    None => None,
                    Some(dur) => Some(
                        EventView {
                            title,
                            room,
                            track: spec_text_or_empty(spec_lookup(entries@, "track"@)),
                            day,
                            start,
                            duration_seconds: dur,
                            brief: spec_text_or_empty(spec_lookup(entries@, "abstract"@)),
                            description: spec_text_or_empty(
                                spec_lookup(entries@, "description"@),
                            ),
                            people: spec_people(spec_lookup(entries@, "persons"@)),
                            event_type: spec_text_or_empty(spec_lookup(entries@, "type"@)),
                            url: spec_text_or_empty(spec_lookup(entries@, "url"@)),
                            unique_id: spec_base_id(entries@, title, room, start),
                        },
                    ),
                },
            }
        },
        _ => None,
    }
}

fn synth_id(title: &String, room: &String, start: &Timestamp) -> (r: String)
    requires
        start.wf(),
    ensures
        r@ == spec_synth_id(title@, room@, *start),
{
    let mut out = id(title.as_str());
    out.append("-");
    let room_part = id(room.as_str());
    out.append(room_part.as_str());
    out.append("-");
    let y = dec_u32(start.year as u32);
    out.append(y.as_str());
    let mo = dec2_u32(start.month as u32);
    out.append(mo.as_str());
    let d = dec2_u32(start.day as u32);
    out.append(d.as_str());
    out.append("T");
    let h = dec2_u32(start.hour as u32);
    out.append(h.as_str());
    let mi = dec2_u32(start.minute as u32);
    out.append(mi.as_str());
    out
}

/// Reads one event out of its raw object. Missing text fields become
/// empty strings; a start or duration that does not parse makes the
/// whole document malformed.
pub fn parse_event(day: i8, input: &RawValue) -> (r: Result<Event, ScheduleError>)
    ensures
        match r {
            Ok(e) => spec_event_of(day, *input) == Some(e@) && e.start.wf(),
            Err(er) => spec_event_of(day, *input) is None && er
                == ScheduleError::MalformedSchedule,
        },
{
    match input {
        RawValue::Object(entries) => {
            let title = text_field(entries, "title");
            let room = text_field(entries, "room");
            let date_text = text_field(entries, "date");
            let start = match parse_rfc3339(date_text.as_str()) {
                Some(t) => t,
                None => {
                    return Err(ScheduleError::MalformedSchedule);
                },
            };
            let duration_text = text_field(entries, "duration");
            let duration_seconds = match parse_hhmm(duration_text.as_str()) {
                Some(n) => n,
                None => {
                    return Err(ScheduleError::MalformedSchedule);
                },
            };
            let guid = text_field(entries, "guid");
            let unique_id = if guid.as_str().is_empty() {
                synth_id(&title, &room, &start)
            } else {
                guid
            };
            Ok(
                Event {
                    title: Title(title),
                    room: Room(room),
                    track: Track(text_field(entries, "track")),
                    day: Day(day),
                    start,
                    duration_seconds,
                    brief: text_field(entries, "abstract"),
                    description: text_field(entries, "description"),
                    people: parse_people(entries),
                    event_type: text_field(entries, "type"),
                    url: text_field(entries, "url"),
                    unique_id,
                },
            )
        },
        _ => Err(ScheduleError::MalformedSchedule),
    }
}

/// The events of one room's raw event list, in list order, or `None`
/// when any of them is broken.
pub open spec fn spec_room_events(day: i8, items: Seq<RawValue>) -> Option<Seq<EventView>>
    decreases items.len(),
{
    if items.len() == 0 {
        Some(Seq::empty())
    } else {
        match spec_room_events(day, items.drop_last()) {
            None => None,
            Some(evs) => match spec_event_of(day, items.last()) {
                None => None,
                Some(e) => Some(evs.push(e)),
            },
        }
    }
}

/// The events of one day's rooms, rooms in document order, or `None`
/// when a room's value is not a list or an event is broken.
pub open spec fn spec_rooms_events(day: i8, rooms: Seq<(String, RawValue)>) -> Option<
    Seq<EventView>,
>
    decreases rooms.len(),
{
    if rooms.len() == 0 {
        Some(Seq::empty())
    } else {
        match spec_rooms_events(day, rooms.drop_last()) {
            None => None,
            Some(evs) => match rooms.last().1 {
                RawValue::List(items) => match spec_room_events(day, items@) {
                    None => None,
                    Some(more) => Some(evs + more),
                },
                _ => None,
            },
        }
    }
}

/// The events of one raw day object standing at the given position in
/// the `days` array.
pub open spec fn spec_day_events(day_obj: RawValue, pos: int) -> Option<Seq<EventView>> {
    match day_obj {
        RawValue::Object(entries) => match spec_day_number(entries@, pos) {
            None => None,
            Some(day) => match spec_lookup(entries@, "rooms"@) {
                Some(RawValue::Object(rooms)) => spec_rooms_events(day, rooms@),
                _ => None,
            },
        },
        _ => None,
    }
}

/// The events of the whole `days` array, days in document order.
pub open spec fn spec_days_events(days: Seq<RawValue>) -> Option<Seq<EventView>>
    decreases days.len(),
{
    if days.len() == 0 {
        Some(Seq::empty())
    } else {
        match spec_days_events(days.drop_last()) {
            None => None,
            Some(evs) => match spec_day_events(days.last(), days.len() - 1) {
                None => None,
                Some(more) => Some(evs + more),
            },
        }
    }
}

/// The `days` array behind the document's `schedule.conference.days`
/// path, or `None` when the nesting does not match.
pub open spec fn spec_doc_days(doc: RawValue) -> Option<Seq<RawValue>> {
    match doc {
        RawValue::Object(top) => match spec_lookup(top@, "schedule"@) {
            Some(RawValue::Object(sched)) => match spec_lookup(sched@, "conference"@) {
                Some(RawValue::Object(conf)) => match spec_lookup(conf@, "days"@) {
                    Some(RawValue::List(days)) => Some(days@),
                    _ => None,
                },
                _ => None,
            },
            _ => None,
        },
        _ => None,
    }
}

/// What extraction yields for a raw document: the flat ordered event
/// sequence with collisions among identifiers resolved, or `None` when
/// the document is malformed.
pub open spec fn spec_extract(doc: RawValue) -> Option<Seq<EventView>> {
    match spec_doc_days(doc) {
        None => None,
        Some(days) => match spec_days_events(days) {
            None => None,
            Some(evs) => Some(spec_with_unique_ids(evs)),
        },
    }
}

/// Whether every event's start timestamp has well-formed fields.
pub open spec fn all_starts_wf(evs: Seq<EventView>) -> bool {
    forall|i: int| 0 <= i < evs.len() ==> (#[trigger] evs[i]).start.wf()
}

/// The identifiers of a sequence of events, in order.
pub open spec fn spec_ids_of(evs: Seq<EventView>) -> Seq<Seq<char>> {
    evs.map_values(|e: EventView| e.unique_id)
}

/// The length of the longest identifier in use.
pub open spec fn spec_max_len(used: Seq<Seq<char>>) -> nat
    decreases used.len(),
{
    if used.len() == 0 {
        0
    } else {
        let rest = spec_max_len(used.drop_last());
        if used.last().len() > rest {
            used.last().len()
        } else {
            rest
        }
    }
}

proof fn lemma_contains_le_max(cand: Seq<char>, used: Seq<Seq<char>>)
    requires
        used.contains(cand),
    ensures
        cand.len() <= spec_max_len(used),
    decreases used.len(),
{
    if used.last() != cand {
        let i = choose|i: int| 0 <= i < used.len() && used[i] == cand;
        assert(used.drop_last()[i] == cand);
        assert(used.drop_last().contains(cand));
        lemma_contains_le_max(cand, used.drop_last());
    }
}

/// How many steps of padding can still be needed before the candidate
/// is longer than every identifier in use.
pub open spec fn spec_pad_fuel(cand: Seq<char>, used: Seq<Seq<char>>) -> nat {
    if cand.len() <= spec_max_len(used) {
        (spec_max_len(used) + 1 - cand.len()) as nat
    } else {
        0
    }
}

/// The candidate identifier extended with dashes until it is not in
/// use. Once the candidate is longer than every identifier in use it
/// cannot collide, so the padding ends.
pub open spec fn spec_pad_free(cand: Seq<char>, used: Seq<Seq<char>>) -> Seq<char>
    decreases spec_pad_fuel(cand, used),
        via spec_pad_free_decreases
{
    if used.contains(cand) {
        spec_pad_free(cand.push('-'), used)
    } else {
        cand
    }
}

#[via_fn]
proof fn spec_pad_free_decreases(cand: Seq<char>, used: Seq<Seq<char>>) {
    if used.contains(cand) {
        lemma_contains_le_max(cand, used);
    }
}

/// The event sequence with identifier collisions resolved: each event
/// keeps its identifier unless an earlier event already took it, in
/// which case a disambiguating suffix is appended.
pub open spec fn spec_with_unique_ids(evs: Seq<EventView>) -> Seq<EventView>
    decreases evs.len(),
{
    if evs.len() == 0 {
        Seq::empty()
    } else {
        let prev = spec_with_unique_ids(evs.drop_last());
        let e = evs.last();
        prev.push(
            EventView { unique_id: spec_pad_free(e.unique_id, spec_ids_of(prev)), ..e },
        )
    }
}

/// Resolving collisions changes nothing but identifiers: every other
/// field of every event is kept, in order.
pub proof fn lemma_unique_ids_shape(evs: Seq<EventView>)
    ensures
        spec_with_unique_ids(evs).len() == evs.len(),
        forall|i: int| 0 <= i < evs.len() ==> #[trigger] spec_with_unique_ids(evs)[i]
            == (EventView { unique_id: spec_with_unique_ids(evs)[i].unique_id, ..evs[i] }),
    decreases evs.len(),
{
    if evs.len() > 0 {
        lemma_unique_ids_shape(evs.drop_last());
    }
}

fn contains_str(used: &Vec<String>, s: &str) -> (r: bool)
    ensures
        r == used.deep_view().contains(s@),
{
    let mut i: usize = 0;
    while i < used.len()
        invariant
            i <= used@.len(),
            forall|k: int| 0 <= k < i ==> used.deep_view()[k] != s@,
        decreases used@.len() - i,
    {
        if crate::raw::str_eq(used[i].as_str(), s) {
            proof {
                assert(used.deep_view()[i as int] == s@);
            }
            return true;
        }
        i = i + 1;
    }
    proof {
        assert forall|k: int| 0 <= k < used.deep_view().len() implies used.deep_view()[k]
            != s@ by {}
    }
    false
}

fn assign_unique_ids(events: Vec<Event>) -> (r: Vec<Event>)
    ensures
        views_of_events(r@) == spec_with_unique_ids(views_of_events(events@)),
{
    let ghost orig = views_of_events(events@);
    let mut rest = events;
    let mut out: Vec<Event> = Vec::new();
    let mut used: Vec<String> = Vec::new();
    proof {
        assert(views_of_events(out@) =~= spec_with_unique_ids(orig.take(0)));
        assert(views_of_events(rest@) =~= orig.skip(0));
        assert(used.deep_view() =~= spec_ids_of(views_of_events(out@)));
    }
    while rest.len() > 0
        invariant
            out@.len() + rest@.len() == orig.len(),
            views_of_events(out@) == spec_with_unique_ids(orig.take(out@.len() as int)),
            views_of_events(rest@) == orig.skip(out@.len() as int),
            used.deep_view() == spec_ids_of(views_of_events(out@)),
        decreases rest@.len(),
    {
        let ghost m = out@.len() as int;
        let ghost old_rest = rest@;
        let e = rest.remove(0);
        proof {
            assert(e == old_rest[0]);
            assert(views_of_events(old_rest)[0] == old_rest[0]@);
            assert(orig.skip(m)[0] == orig[m]);
            assert(e@ == orig[m]);
            assert(rest@ =~= old_rest.skip(1));
            assert forall|k: int| 0 <= k < rest@.len() implies views_of_events(rest@)[k]
                == orig.skip(m + 1)[k] by {
                assert(views_of_events(rest@)[k] == rest@[k]@);
                assert(rest@[k] == old_rest[k + 1]);
                assert(views_of_events(old_rest)[k + 1] == old_rest[k + 1]@);
                assert(orig.skip(m)[k + 1] == orig[m + 1 + k]);
                assert(orig.skip(m + 1)[k] == orig[m + 1 + k]);
            }
            assert(views_of_events(rest@) =~= orig.skip(m + 1));
        }
        let Event {
            title,
            room,
            track,
            day,
            start,
            duration_seconds,
            brief,
            description,
            people,
            event_type,
            url,
            unique_id,
        } = e;
        let ghost orig_id = unique_id@;
        let ghost ids = used.deep_view();
        let mut cand = unique_id;
        loop
            invariant
                ids == used.deep_view(),
                spec_pad_free(orig_id, ids) == spec_pad_free(cand@, ids),
            ensures
                !ids.contains(cand@),
                cand@ == spec_pad_free(orig_id, ids),
            decreases spec_pad_fuel(cand@, ids),
        {
            let hit = contains_str(&used, cand.as_str());
            if !hit {
                break ;
            }
            proof {
                lemma_contains_le_max(cand@, ids);
            }
            push_char(&mut cand, '-');
        }
        let ghost prev_views = views_of_events(out@);
        let ghost old_used_v = used@;
        used.push(cand.clone());
        out.push(
            Event {
                title,
                room,
                track,
                day,
                start,
                duration_seconds,
                brief,
                description,
                people,
                event_type,
                url,
                unique_id: cand,
            },
        );
        proof {
            assert(orig.take(m + 1).drop_last() =~= orig.take(m));
            assert(orig.take(m + 1).last() == orig[m]);
            assert(views_of_events(out@) =~= spec_with_unique_ids(orig.take(m)).push(
                out@[m]@,
            ));
            assert(out@[m]@ == (EventView {
                unique_id: spec_pad_free(orig[m].unique_id, spec_ids_of(
                    spec_with_unique_ids(orig.take(m)),
                )),
                ..orig[m]
            }));
            assert(prev_views.len() == m);
            assert(ids.len() == m);
            assert(old_used_v.len() == m);
            assert(used@.len() == m + 1);
            assert forall|k: int| 0 <= k <= m implies used.deep_view()[k] == spec_ids_of(
                views_of_events(out@),
            )[k] by {
                assert(used.deep_view()[k] == used@[k]@);
                assert(spec_ids_of(views_of_events(out@))[k] == views_of_events(out@)[
                    k].unique_id);
                assert(views_of_events(out@)[k] == out@[k]@);
                if k < m {
                    assert(used@[k] == old_used_v[k]);
                    assert(ids[k] == old_used_v[k]@);
                    assert(ids[k] == spec_ids_of(prev_views)[k]);
                    assert(spec_ids_of(prev_views)[k] == prev_views[k].unique_id);
                    assert(prev_views[k] == out@[k]@);
                } else {
                    assert(used@[m]@ == cand@);
                }
            }
            assert(used.deep_view() =~= spec_ids_of(views_of_events(out@)));
        }
    }
    proof {
        assert(orig.take(orig.len() as int) =~= orig);
    }
    out
}

proof fn lemma_room_events_extend(day: i8, items: Seq<RawValue>, j: int, l: int)
    requires
        0 <= j <= l <= items.len(),
        spec_room_events(day, items.take(j)) is None,
    ensures
        spec_room_events(day, items.take(l)) is None,
    decreases l - j,
{
    if l > j {
        lemma_room_events_extend(day, items, j, l - 1);
        assert(items.take(l).drop_last() =~= items.take(l - 1));
    }
}

proof fn lemma_rooms_events_extend(day: i8, rooms: Seq<(String, RawValue)>, j: int, l: int)
    requires
        0 <= j <= l <= rooms.len(),
        spec_rooms_events(day, rooms.take(j)) is None,
    ensures
        spec_rooms_events(day, rooms.take(l)) is None,
    decreases l - j,
{
    if l > j {
        lemma_rooms_events_extend(day, rooms, j, l - 1);
        assert(rooms.take(l).drop_last() =~= rooms.take(l - 1));
    }
}

proof fn lemma_days_events_extend(days: Seq<RawValue>, j: int, l: int)
    requires
        0 <= j <= l <= days.len(),
        spec_days_events(days.take(j)) is None,
    ensures
        spec_days_events(days.take(l)) is None,
    decreases l - j,
{
    if l > j {
        lemma_days_events_extend(days, j, l - 1);
        assert(days.take(l).drop_last() =~= days.take(l - 1));
    }
}

proof fn lemma_day_fails(doc: RawValue, days: Seq<RawValue>, p: int)
    requires
        spec_doc_days(doc) == Some(days),
        0 <= p < days.len(),
        spec_days_events(days.take(p)) is Some,
        spec_day_events(days[p], p) is None,
    ensures
        spec_extract(doc) is None,
{
    assert(days.take(p + 1).drop_last() =~= days.take(p));
    assert(days.take(p + 1).last() == days[p]);
    assert(spec_days_events(days.take(p + 1)) is None);
    lemma_days_events_extend(days, p + 1, days.len() as int);
    assert(days.take(days.len() as int) =~= days);
}

/// Extracts the flat ordered event sequence from the raw document. The
/// traversal is conference, then days in order, then each day's rooms
/// in document order, then each room's events in order; the result
/// preserves that order exactly. Fails with `MalformedSchedule`, and
/// produces nothing, when the nesting does not match or a start or
/// duration does not parse.
pub fn events(input: &RawValue) -> (r: Result<Vec<Event>, ScheduleError>)
    ensures
        match r {
            Ok(evs) => spec_extract(*input) == Some(views_of_events(evs@)) && all_starts_wf(
                views_of_events(evs@),
            ),
            Err(e) => spec_extract(*input) is None && e == ScheduleError::MalformedSchedule,
        },
{
    let top = match input {
        RawValue::Object(t) => t,
        _ => {
            return Err(ScheduleError::MalformedSchedule);
        },
    };
    let sched = match lookup(top, "schedule") {
        Some(RawValue::Object(s)) => s,
        _ => {
            return Err(ScheduleError::MalformedSchedule);
        },
    };
    let conf = match lookup(sched, "conference") {
        Some(RawValue::Object(c)) => c,
        _ => {
            return Err(ScheduleError::MalformedSchedule);
        },
    };
    let days = match lookup(conf, "days") {
        Some(RawValue::List(d)) => d,
        _ => {
            return Err(ScheduleError::MalformedSchedule);
        },
    };
    proof {
        assert(spec_doc_days(*input) == Some(days@));
    }
    let mut out: Vec<Event> = Vec::new();
    let mut p: usize = 0;
    proof {
        assert(days@.take(0) =~= Seq::<RawValue>::empty());
        assert(views_of_events(out@) =~= Seq::<EventView>::empty());
    }
    while p < days.len()
        invariant
            p <= days@.len(),
            spec_doc_days(*input) == Some(days@),
            spec_days_events(days@.take(p as int)) == Some(views_of_events(out@)),
            all_starts_wf(views_of_events(out@)),
        decreases days@.len() - p,
    {
        let ghost base = views_of_events(out@);
        let day_entries = match &days[p] {
            RawValue::Object(en) => en,
            _ => {
                proof {
                    lemma_day_fails(*input, days@, p as int);
                }
                return Err(ScheduleError::MalformedSchedule);
            },
        };
        let dnum = match day_number(day_entries, p) {
            Some(d) => d,
            None => {
                proof {
                    lemma_day_fails(*input, days@, p as int);
                }
                return Err(ScheduleError::MalformedSchedule);
            },
        };
        let rooms = match lookup(day_entries, "rooms") {
            Some(RawValue::Object(rm)) => rm,
            _ => {
                proof {
                    lemma_day_fails(*input, days@, p as int);
                }
                return Err(ScheduleError::MalformedSchedule);
            },
        };
        let mut k: usize = 0;
        proof {
            assert(rooms@.take(0) =~= Seq::<(String, RawValue)>::empty());
            assert(views_of_events(out@).skip(base.len() as int) =~= Seq::<
                EventView,
            >::empty());
            assert(views_of_events(out@).take(base.len() as int) =~= base);
        }
        while k < rooms.len()
            invariant
                k <= rooms@.len(),
                spec_doc_days(*input) == Some(days@),
                p < days@.len(),
                days@[p as int] == RawValue::Object(*day_entries),
                spec_day_number(day_entries@, p as int) == Some(dnum),
                spec_lookup(day_entries@, "rooms"@) == Some(RawValue::Object(*rooms)),
                spec_days_events(days@.take(p as int)) == Some(base),
                base.len() <= out@.len(),
                views_of_events(out@).take(base.len() as int) == base,
                spec_rooms_events(dnum, rooms@.take(k as int)) == Some(
                    views_of_events(out@).skip(base.len() as int),
                ),
                all_starts_wf(views_of_events(out@)),
            decreases rooms@.len() - k,
        {
            let ghost base2 = views_of_events(out@);
            let items = match &rooms[k].1 {
                RawValue::List(it) => it,
                _ => {
                    proof {
                        assert(rooms@.take(k as int + 1).drop_last() =~= rooms@.take(
                            k as int,
                        ));
                        assert(rooms@.take(k as int + 1).last() == rooms@[k as int]);
                        assert(spec_rooms_events(dnum, rooms@.take(k as int + 1)) is None);
                        lemma_rooms_events_extend(
                            dnum,
                            rooms@,
                            k as int + 1,
                            rooms@.len() as int,
                        );
                        assert(rooms@.take(rooms@.len() as int) =~= rooms@);
                        lemma_day_fails(*input, days@, p as int);
                    }
                    return Err(ScheduleError::MalformedSchedule);
                },
            };
            let mut j: usize = 0;
            proof {
                assert(items@.take(0) =~= Seq::<RawValue>::empty());
                assert(views_of_events(out@).skip(base2.len() as int) =~= Seq::<
                    EventView,
                >::empty());
                assert(views_of_events(out@).take(base2.len() as int) =~= base2);
            }
            while j < items.len()
                invariant
                    j <= items@.len(),
                    spec_doc_days(*input) == Some(days@),
                    p < days@.len(),
                    days@[p as int] == RawValue::Object(*day_entries),
                    spec_day_number(day_entries@, p as int) == Some(dnum),
                    spec_lookup(day_entries@, "rooms"@) == Some(RawValue::Object(*rooms)),
                    spec_days_events(days@.take(p as int)) == Some(base),
                    k < rooms@.len(),
                    rooms@[k as int].1 == RawValue::List(*items),
                    spec_rooms_events(dnum, rooms@.take(k as int)) == Some(
                        base2.skip(base.len() as int),
                    ),
                    base.len() <= base2.len(),
                    base2.take(base.len() as int) == base,
                    base2.len() <= out@.len(),
                    views_of_events(out@).take(base2.len() as int) == base2,
                    spec_room_events(dnum, items@.take(j as int)) == Some(
                        views_of_events(out@).skip(base2.len() as int),
                    ),
                    all_starts_wf(views_of_events(out@)),
                decreases items@.len() - j,
            {
                let ev = match parse_event(dnum, &items[j]) {
                    Ok(ev) => ev,
                    Err(_) => {
                        proof {
                            assert(items@.take(j as int + 1).drop_last() =~= items@.take(
                                j as int,
                            ));
                            assert(items@.take(j as int + 1).last() == items@[j as int]);
                            assert(spec_room_events(
                                dnum,
                                items@.take(j as int + 1),
                            ) is None);
                            lemma_room_events_extend(
                                dnum,
                                items@,
                                j as int + 1,
                                items@.len() as int,
                            );
                            assert(items@.take(items@.len() as int) =~= items@);
                            assert(rooms@.take(k as int + 1).drop_last() =~= rooms@.take(
                                k as int,
                            ));
                            assert(rooms@.take(k as int + 1).last() == rooms@[k as int]);
                            assert(spec_rooms_events(
                                dnum,
                                rooms@.take(k as int + 1),
                            ) is None);
                            lemma_rooms_events_extend(
                                dnum,
                                rooms@,
                                k as int + 1,
                                rooms@.len() as int,
                            );
                            assert(rooms@.take(rooms@.len() as int) =~= rooms@);
                            lemma_day_fails(*input, days@, p as int);
                        }
                        return Err(ScheduleError::MalformedSchedule);
                    },
                };
                let ghost old_views = views_of_events(out@);
                out.push(ev);
                j = j + 1;
                proof {
                    assert(views_of_events(out@) =~= old_views.push(ev@));
                    assert(items@.take(j as int).drop_last() =~= items@.take(j as int - 1));
                    assert(items@.take(j as int).last() == items@[j as int - 1]);
                    assert(views_of_events(out@).take(base2.len() as int) =~= base2);
                    assert(views_of_events(out@).skip(base2.len() as int) =~= old_views.skip(
                        base2.len() as int,
                    ).push(ev@));
                }
            }
            k = k + 1;
            proof {
                assert(items@.take(items@.len() as int) =~= items@);
                assert(rooms@.take(k as int).drop_last() =~= rooms@.take(k as int - 1));
                assert(rooms@.take(k as int).last() == rooms@[k as int - 1]);
                assert(views_of_events(out@).skip(base.len() as int) =~= base2.skip(
                    base.len() as int,
                ) + views_of_events(out@).skip(base2.len() as int));
                assert(views_of_events(out@).take(base.len() as int) =~= base);
            }
        }
        p = p + 1;
        proof {
            assert(rooms@.take(rooms@.len() as int) =~= rooms@);
            assert(days@.take(p as int).drop_last() =~= days@.take(p as int - 1));
            assert(days@.take(p as int).last() == days@[p as int - 1]);
            assert(spec_day_events(days@[p as int - 1], p as int - 1) == Some(
                views_of_events(out@).skip(base.len() as int),
            ));
            assert(base + views_of_events(out@).skip(base.len() as int) =~= views_of_events(
                out@,
            ));
        }
    }
    proof {
        assert(days@.take(days@.len() as int) =~= days@);
    }
    let ghost flat = views_of_events(out@);
    let result = assign_unique_ids(out);
    proof {
        lemma_unique_ids_shape(flat);
        assert forall|i: int|
            0 <= i < views_of_events(result@).len() implies (#[trigger] views_of_events(
            result@,
        )[i]).start.wf() by {
            assert(views_of_events(result@)[i].start == flat[i].start);
        }
    }
    Ok(result)
}

/// The number of raw event entries in one day's rooms object; a value
/// that is not a list counts no entries.
pub open spec fn spec_rooms_count(rooms: Seq<(String, RawValue)>) -> int
    decreases rooms.len(),
{
    if rooms.len() == 0 {
        0
    } else {
        spec_rooms_count(rooms.drop_last()) + match rooms.last().1 {
            RawValue::List(items) => items@.len() as int,
            _ => 0,
        }
    }
}

/// The number of raw event entries across all rooms and days.
pub open spec fn spec_days_count(days: Seq<RawValue>) -> int
    decreases days.len(),
{
    if days.len() == 0 {
        0
    } else {
        spec_days_count(days.drop_last()) + match days.last() {
            RawValue::Object(entries) => match spec_lookup(entries@, "rooms"@) {
                Some(RawValue::Object(rooms)) => spec_rooms_count(rooms@),
                _ => 0,
            },
            _ => 0,
        }
    }
}

/// The total count of raw event entries in a document, across all of
/// its rooms and days.
pub open spec fn spec_raw_event_count(doc: RawValue) -> int {
    match spec_doc_days(doc) {
        Some(days) => spec_days_count(days),
        None => 0,
    }
}

proof fn lemma_room_events_len(day: i8, items: Seq<RawValue>)
    requires
        spec_room_events(day, items) is Some,
    ensures
        spec_room_events(day, items)->Some_0.len() == items.len(),
    decreases items.len(),
{
    if items.len() > 0 {
        lemma_room_events_len(day, items.drop_last());
    }
}

proof fn lemma_rooms_events_len(day: i8, rooms: Seq<(String, RawValue)>)
    requires
        spec_rooms_events(day, rooms) is Some,
    ensures
        spec_rooms_events(day, rooms)->Some_0.len() == spec_rooms_count(rooms),
    decreases rooms.len(),
{
    if rooms.len() > 0 {
        lemma_rooms_events_len(day, rooms.drop_last());
        match rooms.last().1 {
            RawValue::List(items) => {
                lemma_room_events_len(day, items@);
            },
            _ => {},
        }
    }
}

proof fn lemma_days_events_len(days: Seq<RawValue>)
    requires
        spec_days_events(days) is Some,
    ensures
        spec_days_events(days)->Some_0.len() == spec_days_count(days),
    decreases days.len(),
{
    if days.len() > 0 {
        lemma_days_events_len(days.drop_last());
        match days.last() {
            RawValue::Object(entries) => {
                match spec_lookup(entries@, "rooms"@) {
                    Some(RawValue::Object(rooms)) => {
                        if spec_day_number(entries@, days.len() - 1) is Some {
                            lemma_rooms_events_len(
                                spec_day_number(entries@, days.len() - 1)->Some_0,
                                rooms@,
                            );
                        }
                    },
                    _ => {},
                }
            },
            _ => {},
        }
    }
}

/// For every raw document that extraction accepts, the extracted
/// sequence holds exactly one event per raw event entry: its length is
/// the total count of raw event entries across all rooms and days.
pub proof fn lemma_extract_count(doc: RawValue)
    requires
        spec_extract(doc) is Some,
    ensures
        spec_extract(doc)->Some_0.len() == spec_raw_event_count(doc),
{
    let days = spec_doc_days(doc)->Some_0;
    let evs = spec_days_events(days)->Some_0;
    lemma_days_events_len(days);
    lemma_unique_ids_shape(evs);
}

proof fn lemma_pad_free_fresh(cand: Seq<char>, used: Seq<Seq<char>>)
    ensures
        !used.contains(spec_pad_free(cand, used)),
    decreases spec_pad_fuel(cand, used),
{
    if used.contains(cand) {
        lemma_contains_le_max(cand, used);
        lemma_pad_free_fresh(cand.push('-'), used);
    }
}

/// Whether no two events of the sequence share an identifier.
pub open spec fn distinct_ids(evs: Seq<EventView>) -> bool {
    forall|a: int, b: int|
        0 <= a < b < evs.len() ==> (#[trigger] evs[a]).unique_id != (#[trigger] evs[b]).unique_id
}

/// The identifiers of an extracted schedule are pairwise distinct
/// within the document.
pub proof fn lemma_extract_ids_distinct(doc: RawValue)
    requires
        spec_extract(doc) is Some,
    ensures
        distinct_ids(spec_extract(doc)->Some_0),
{
    let days = spec_doc_days(doc)->Some_0;
    lemma_unique_ids_distinct(spec_days_events(days)->Some_0);
}

/// After collisions are resolved, the identifiers of the extracted
/// events are pairwise distinct within the document.
pub proof fn lemma_unique_ids_distinct(evs: Seq<EventView>)
    ensures
        distinct_ids(spec_with_unique_ids(evs)),
    decreases evs.len(),
{
    if evs.len() > 0 {
        lemma_unique_ids_distinct(evs.drop_last());
        let prev = spec_with_unique_ids(evs.drop_last());
        let ids = spec_ids_of(prev);
        let fresh = spec_pad_free(evs.last().unique_id, ids);
        lemma_pad_free_fresh(evs.last().unique_id, ids);
        let all = spec_with_unique_ids(evs);
        assert forall|a: int, b: int| 0 <= a < b < all.len() implies (#[trigger] all[a]).unique_id
            != (#[trigger] all[b]).unique_id by {
            if b == all.len() - 1 {
                assert(ids[a] == prev[a].unique_id);
                assert(!ids.contains(fresh));
                assert(all[a] == prev[a]);
                assert(all[b].unique_id == fresh);
            } else {
                assert(all[a] == prev[a]);
                assert(all[b] == prev[b]);
            }
        }
    }
}

} // verus!
