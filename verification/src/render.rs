//! The renderer: formatting helpers and the template that turns the
//! flat event sequence and the two grouping indices into one markdown
//! document of three cross-linked sections.

use vstd::prelude::*;

use crate::extract::all_starts_wf;
use crate::schedule::{Day, Event, EventView, Timestamp, views_of_events};
use crate::strutil::{dec2_u32, dec_i32, dec_u32, lemma_filter_push, push_char, spec_dec,
    spec_dec2, spec_dec_int};
use crate::views::{
    DayGroup, DayGroupView, DayRoomIndex, DayRoomView, RoomDayIndex, RoomGroupView, RoomSub,
    RoomSubView, spec_day_room_index, spec_room_day_index,
};

verus! {

/// Whether a character may appear in an anchor token: ASCII letters and
/// digits only.
pub open spec fn spec_anchor_char(c: char) -> bool {
    ||| 48 <= c as u32 <= 57
    ||| 65 <= c as u32 <= 90
    ||| 97 <= c as u32 <= 122
}

/// The anchor token of an arbitrary label: every character that is not
/// an ASCII letter or digit is stripped. Two labels may strip to the
/// same token; that is acceptable for anchors.
pub open spec fn spec_id(s: Seq<char>) -> Seq<char> {
    s.filter(|c: char| spec_anchor_char(c))
}

/// Derives a markup-safe anchor token from an arbitrary label.
pub fn id(source: &str) -> (r: String)
    ensures
        r@ == spec_id(source@),
{
    let n = source.unicode_len();
    let mut out = String::new();
    let mut i: usize = 0;
    proof {
        assert(source@.take(0) =~= Seq::<char>::empty());
        reveal(Seq::filter);
    }
    while i < n
        invariant
            i <= n,
            n == source@.len(),
            out@ == spec_id(source@.take(i as int)),
        decreases n - i,
    {
        let c = source.get_char(i);
        proof {
            assert(source@.take(i as int + 1) =~= source@.take(i as int).push(c));
            lemma_filter_push(source@.take(i as int), |ch: char| spec_anchor_char(ch), c);
        }
        let cv = c as u32;
        if (48 <= cv && cv <= 57) || (65 <= cv && cv <= 90) || (97 <= cv && cv <= 122) {
            push_char(&mut out, c);
        }
        i = i + 1;
    }
    proof {
        assert(source@.take(n as int) =~= source@);
    }
    out
}

/// The parts joined with the separator between consecutive parts.
pub open spec fn spec_join(parts: Seq<Seq<char>>, sep: Seq<char>) -> Seq<char>
    decreases parts.len(),
{
    if parts.len() == 0 {
        Seq::empty()
    } else if parts.len() == 1 {
        parts[0]
    } else {
        spec_join(parts.drop_last(), sep) + sep + parts.last()
    }
}

/// Concatenates the parts with the separator between consecutive parts;
/// used for the people list.
pub fn join(parts: &Vec<String>, sep: &str) -> (r: String)
    ensures
        r@ == spec_join(parts.deep_view(), sep@),
{
    let ghost views = parts.deep_view();
    let mut out = String::new();
    let mut i: usize = 0;
    while i < parts.len()
        invariant
            i <= views.len(),
            views == parts.deep_view(),
            views.len() == parts@.len(),
            out@ == spec_join(views.take(i as int), sep@),
        decreases views.len() - i,
    {
        if i > 0 {
            out.append(sep);
        }
        out.append(parts[i].as_str());
        i = i + 1;
        proof {
            assert(views.take(i as int).drop_last() =~= views.take(i as int - 1));
            assert(views.take(i as int).last() == views[i as int - 1]);
            assert(views[i as int - 1] == parts@[i as int - 1]@);
        }
    }
    proof {
        assert(views.take(views.len() as int) =~= views);
    }
    out
}

/// The friendly date of a start timestamp: long weekday name, full
/// month name, day of month without a leading zero.
pub open spec fn spec_friendly_date(t: Timestamp) -> Seq<char> {
    spec_weekday_name(spec_day_of_week(t.year as int, t.month as int, t.day as int)) + ", "@
        + spec_month_name(t.month as int) + " "@ + spec_dec(t.day as nat)
}

/// The day of the week of a Gregorian calendar date, with 0 for Sunday
/// through 6 for Saturday. The year is shifted by one 400-year cycle,
/// which leaves the weekday unchanged, so that the arithmetic stays on
/// non-negative numbers for all representable timestamps.
pub open spec fn spec_day_of_week(year: int, month: int, day: int) -> int {
    let y = if month < 3 {
        year + 399
    } else {
        year + 400
    };
    (y + y / 4 - y / 100 + y / 400 + spec_month_term(month) + day) % 7
}

/// The month's term in the day-of-week formula.
pub open spec fn spec_month_term(month: int) -> int {
    if month == 1 {
        0
    } else if month == 2 {
        3
    } else if month == 3 {
        2
    } else if month == 4 {
        5
    } else if month == 5 {
        0
    } else if month == 6 {
        3
    } else if month == 7 {
        5
    } else if month == 8 {
        1
    } else if month == 9 {
        4
    } else if month == 10 {
        6
    } else if month == 11 {
        2
    } else {
        4
    }
}

/// The English name of a weekday, 0 for Sunday through 6 for Saturday.
pub open spec fn spec_weekday_name(d: int) -> Seq<char> {
    if d == 0 {
        "Sunday"@
    } else if d == 1 {
        "Monday"@
    } else if d == 2 {
        "Tuesday"@
    } else if d == 3 {
        "Wednesday"@
    } else if d == 4 {
        "Thursday"@
    } else if d == 5 {
        "Friday"@
    } else {
        "Saturday"@
    }
}

/// The English name of a month, 1 for January through 12 for December.
pub open spec fn spec_month_name(m: int) -> Seq<char> {
    if m == 1 {
        "January"@
    } else if m == 2 {
        "February"@
    } else if m == 3 {
        "March"@
    } else if m == 4 {
        "April"@
    } else if m == 5 {
        "May"@
    } else if m == 6 {
        "June"@
    } else if m == 7 {
        "July"@
    } else if m == 8 {
        "August"@
    } else if m == 9 {
        "September"@
    } else if m == 10 {
        "October"@
    } else if m == 11 {
        "November"@
    } else {
        "December"@
    }
}

fn weekday_name(d: u32) -> (r: &'static str)
    requires
        d <= 6,
    ensures
        r@ == spec_weekday_name(d as int),
{
    if d == 0 {
        "Sunday"
    } else if d == 1 {
        "Monday"
    } else if d == 2 {
        "Tuesday"
    } else if d == 3 {
        "Wednesday"
    } else if d == 4 {
        "Thursday"
    } else if d == 5 {
        "Friday"
    } else {
        "Saturday"
    }
}

fn month_name(m: u8) -> (r: &'static str)
    requires
        1 <= m <= 12,
    ensures
        r@ == spec_month_name(m as int),
{
    if m == 1 {
        "January"
    } else if m == 2 {
        "February"
    } else if m == 3 {
        "March"
    } else if m == 4 {
        "April"
    } else if m == 5 {
        "May"
    } else if m == 6 {
        "June"
    } else if m == 7 {
        "July"
    } else if m == 8 {
        "August"
    } else if m == 9 {
        "September"
    } else if m == 10 {
        "October"
    } else if m == 11 {
        "November"
    } else {
        "December"
    }
}

/// Renders a start timestamp as "Friday, July 22": long weekday name,
/// full month name, day of month without a leading zero.
pub fn friendly_date(t: &Timestamp) -> (r: String)
    requires
        t.wf(),
    ensures
        r@ == spec_friendly_date(*t),
{
    let year: i32 = t.year;
    let shifted: i32 = if t.month < 3 {
        year + 399
    } else {
        year + 400
    };
    let y = shifted as u32;
    let term: u32 = month_term(t.month);
    let dow = (y + y / 4 - y / 100 + y / 400 + term + (t.day as u32)) % 7;
    let mut out = String::from_str(weekday_name(dow));
    out.append(", ");
    out.append(month_name(t.month));
    out.append(" ");
    let day_digits = dec_u32(t.day as u32);
    out.append(day_digits.as_str());
    out
}

fn month_term(m: u8) -> (r: u32)
    requires
        1 <= m <= 12,
    ensures
        r as int == spec_month_term(m as int),
        r <= 6,
{
    if m == 1 {
        0
    } else if m == 2 {
        3
    } else if m == 3 {
        2
    } else if m == 4 {
        5
    } else if m == 5 {
        0
    } else if m == 6 {
        3
    } else if m == 7 {
        5
    } else if m == 8 {
        1
    } else if m == 9 {
        4
    } else if m == 10 {
        6
    } else if m == 11 {
        2
    } else {
        4
    }
}

/// The friendly time of a start timestamp: 24-hour "HH:MM" in the
/// source's own offset.
pub open spec fn spec_friendly_time(t: Timestamp) -> Seq<char> {
    spec_dec2(t.hour as nat) + ":"@ + spec_dec2(t.minute as nat)
}

/// Renders a start timestamp as 24-hour "HH:MM".
pub fn friendly_time(t: &Timestamp) -> (r: String)
    ensures
        r@ == spec_friendly_time(*t),
{
    let mut out = dec2_u32(t.hour as u32);
    out.append(":");
    let minutes = dec2_u32(t.minute as u32);
    out.append(minutes.as_str());
    out
}

/// The friendly form of a duration in whole seconds: "HH:MM", floored
/// to the minute.
pub open spec fn spec_friendly_duration(seconds: u32) -> Seq<char> {
    spec_dec2((seconds / 3600) as nat) + ":"@ + spec_dec2(((seconds / 60) % 60) as nat)
}

/// Renders a duration given in whole seconds as "HH:MM", floored to the
/// minute.
pub fn friendly_duration(seconds: u32) -> (r: String)
    ensures
        r@ == spec_friendly_duration(seconds),
{
    let mut out = dec2_u32(seconds / 3600);
    out.append(":");
    let minutes = dec2_u32((seconds / 60) % 60);
    out.append(minutes.as_str());
    out
}

/// One event's block in the chronological section.
pub open spec fn spec_event_block(e: EventView) -> Seq<char> {
    "## "@ + e.title + " {#"@ + e.unique_id + "}\n"@ + "__________  ____\n"@
        + "People      "@ + spec_join(e.people, ", "@) + "\n"@ + "Time        "@
        + spec_friendly_time(e.start) + "\n"@ + "Duration    "@ + spec_friendly_duration(
        e.duration_seconds,
    ) + "\n"@ + "Date        "@ + spec_friendly_date(e.start) + " ([Day "@ + spec_dec_int(
        e.day as int,
    ) + "](#day-"@ + spec_dec_int(e.day as int) + "))\n"@ + "Room        ["@ + e.room
        + "](#room-"@ + spec_id(e.room) + ")\n"@ + "__________  ____\n\n"@
}

/// The blocks of the chronological section, one per event, in flat
/// order.
pub open spec fn spec_event_blocks(evs: Seq<EventView>) -> Seq<char>
    decreases evs.len(),
{
    if evs.len() == 0 {
        Seq::empty()
    } else {
        spec_event_blocks(evs.drop_last()) + spec_event_block(evs.last())
    }
}

/// The chronological section: one block per event in flat order.
pub open spec fn spec_events_section(evs: Seq<EventView>) -> Seq<char> {
    "# Events {#events}\n\n"@ + spec_event_blocks(evs)
}

/// One event's line in a grouped section: time and a link back to the
/// event's anchor.
pub open spec fn spec_bullet(e: EventView) -> Seq<char> {
    "- "@ + spec_friendly_time(e.start) + ": ["@ + e.title + "](#"@ + e.unique_id + ")\n"@
}

/// The lines of one leaf group, one per listed position.
pub open spec fn spec_bullets(evs: Seq<EventView>, ids: Seq<usize>) -> Seq<char>
    decreases ids.len(),
{
    if ids.len() == 0 {
        Seq::empty()
    } else {
        spec_bullets(evs, ids.drop_last()) + if ids.last() < evs.len() {
            spec_bullet(evs[ids.last() as int])
        } else {
            Seq::empty()
        }
    }
}

/// The heading of one day within a room, dated by the group's first
/// event.
pub open spec fn spec_room_day_heading(
    room: Seq<char>,
    g: DayGroupView,
    evs: Seq<EventView>,
) -> Seq<char> {
    "### Day "@ + spec_dec_int(g.day as int) + " ("@ + (if g.ids.len() > 0 && g.ids[0]
        < evs.len() {
        spec_friendly_date(evs[g.ids[0] as int].start)
    } else {
        Seq::empty()
    }) + ") {#room-"@ + spec_id(room) + "-day-"@ + spec_dec_int(g.day as int) + "}\n\n"@
}

/// One room's days, each a heading and its event lines.
pub open spec fn spec_room_days(
    room: Seq<char>,
    days: Seq<DayGroupView>,
    evs: Seq<EventView>,
) -> Seq<char>
    decreases days.len(),
{
    if days.len() == 0 {
        Seq::empty()
    } else {
        spec_room_days(room, days.drop_last(), evs) + (spec_room_day_heading(
            room,
            days.last(),
            evs,
        ) + spec_bullets(evs, days.last().ids) + "\n"@)
    }
}

/// One room's block in the by-room section.
pub open spec fn spec_room_block(g: RoomGroupView, evs: Seq<EventView>) -> Seq<char> {
    "## "@ + g.room + " {#room-"@ + spec_id(g.room) + "}\n\n"@ + spec_room_days(
        g.room,
        g.days,
        evs,
    )
}

/// The blocks of the by-room section, rooms in grouping order.
pub open spec fn spec_room_blocks(rooms: Seq<RoomGroupView>, evs: Seq<EventView>) -> Seq<
    char,
>
    decreases rooms.len(),
{
    if rooms.len() == 0 {
        Seq::empty()
    } else {
        spec_room_blocks(rooms.drop_last(), evs) + spec_room_block(rooms.last(), evs)
    }
}

/// The by-room section.
pub open spec fn spec_rooms_section(rooms: Seq<RoomGroupView>, evs: Seq<EventView>) -> Seq<
    char,
> {
    "# Rooms {#rooms}\n\n"@ + spec_room_blocks(rooms, evs)
}

/// The heading of one room within a day.
pub open spec fn spec_day_room_heading(day: i8, sub: RoomSubView) -> Seq<char> {
    "### "@ + sub.room + " {#day-"@ + spec_dec_int(day as int) + "-room-"@ + spec_id(
        sub.room,
    ) + "}\n\n"@
}

/// One day's rooms, each a heading and its event lines.
pub open spec fn spec_day_rooms(
    day: i8,
    rooms: Seq<RoomSubView>,
    evs: Seq<EventView>,
) -> Seq<char>
    decreases rooms.len(),
{
    if rooms.len() == 0 {
        Seq::empty()
    } else {
        spec_day_rooms(day, rooms.drop_last(), evs) + (spec_day_room_heading(
            day,
            rooms.last(),
        ) + spec_bullets(evs, rooms.last().ids) + "\n"@)
    }
}

/// One day's block in the by-day section.
pub open spec fn spec_day_block(g: DayRoomView, evs: Seq<EventView>) -> Seq<char> {
    "## Day "@ + spec_dec_int(g.day as int) + " {#day-"@ + spec_dec_int(g.day as int)
        + "}\n\n"@ + spec_day_rooms(g.day, g.rooms, evs)
}

/// The blocks of the by-day section, days in grouping order.
pub open spec fn spec_day_blocks(days: Seq<DayRoomView>, evs: Seq<EventView>) -> Seq<char>
    decreases days.len(),
{
    if days.len() == 0 {
        Seq::empty()
    } else {
        spec_day_blocks(days.drop_last(), evs) + spec_day_block(days.last(), evs)
    }
}

/// The by-day section.
pub open spec fn spec_days_section(days: Seq<DayRoomView>, evs: Seq<EventView>) -> Seq<
    char,
> {
    "# Days {#days}\n\n"@ + spec_day_blocks(days, evs)
}

/// The whole rendered document: the chronological section, the by-room
/// section, and the by-day section, in that order. A function of the
/// event sequence alone.
pub open spec fn spec_render(evs: Seq<EventView>) -> Seq<char> {
    spec_events_section(evs) + spec_rooms_section(spec_room_day_index(evs), evs)
        + spec_days_section(spec_day_room_index(evs), evs)
}

fn event_block(e: &Event) -> (r: String)
    requires
        e@.start.wf(),
    ensures
        r@ == spec_event_block(e@),
{
    let mut out = String::from_str("## ");
    out.append(e.title.0.as_str());
    out.append(" {#");
    out.append(e.unique_id.as_str());
    out.append("}\n");
    out.append("__________  ____\n");
    out.append("People      ");
    let people = join(&e.people, ", ");
    out.append(people.as_str());
    out.append("\n");
    out.append("Time        ");
    let time = friendly_time(&e.start);
    out.append(time.as_str());
    out.append("\n");
    out.append("Duration    ");
    let duration = friendly_duration(e.duration_seconds);
    out.append(duration.as_str());
    out.append("\n");
    out.append("Date        ");
    let date = friendly_date(&e.start);
    out.append(date.as_str());
    out.append(" ([Day ");
    let day_digits = dec_i32(e.day.0 as i32);
    out.append(day_digits.as_str());
    out.append("](#day-");
    out.append(day_digits.as_str());
    out.append("))\n");
    out.append("Room        [");
    out.append(e.room.0.as_str());
    out.append("](#room-");
    let room_anchor = id(e.room.0.as_str());
    out.append(room_anchor.as_str());
    out.append(")\n");
    out.append("__________  ____\n\n");
    out
}

fn bullet(e: &Event) -> (r: String)
    ensures
        r@ == spec_bullet(e@),
{
    let mut out = String::from_str("- ");
    let time = friendly_time(&e.start);
    out.append(time.as_str());
    out.append(": [");
    out.append(e.title.0.as_str());
    out.append("](#");
    out.append(e.unique_id.as_str());
    out.append(")\n");
    out
}

fn bullets_block(ids: &Vec<usize>, events: &Vec<Event>) -> (r: String)
    ensures
        r@ == spec_bullets(views_of_events(events@), ids@),
{
    let ghost evs = views_of_events(events@);
    let mut out = String::new();
    let mut k: usize = 0;
    proof {
        assert(ids@.take(0) =~= Seq::<usize>::empty());
    }
    while k < ids.len()
        invariant
            k <= ids@.len(),
            evs == views_of_events(events@),
            evs.len() == events@.len(),
            out@ == spec_bullets(evs, ids@.take(k as int)),
        decreases ids@.len() - k,
    {
        let idx = ids[k];
        if idx < events.len() {
            let line = bullet(&events[idx]);
            out.append(line.as_str());
            proof {
                assert(evs[idx as int] == events@[idx as int]@);
            }
        }
        k = k + 1;
        proof {
            assert(ids@.take(k as int).drop_last() =~= ids@.take(k as int - 1));
            assert(ids@.take(k as int).last() == ids@[k as int - 1]);
        }
    }
    proof {
        assert(ids@.take(ids@.len() as int) =~= ids@);
    }
    out
}

#[verifier::rlimit(80)]
fn room_days_block(room: &crate::schedule::Room, days: &Vec<DayGroup>, events: &Vec<
    Event,
>) -> (r: String)
    requires
        all_starts_wf(views_of_events(events@)),
    ensures
        r@ == spec_room_days(room@, days@.map_values(|g: DayGroup| g@), views_of_events(
            events@,
        )),
{
    let ghost evs = views_of_events(events@);
    let ghost dviews = days@.map_values(|g: DayGroup| g@);
    let mut out = String::new();
    let mut d: usize = 0;
    proof {
        assert(dviews.take(0) =~= Seq::<DayGroupView>::empty());
    }
    while d < days.len()
        invariant
            d <= days@.len(),
            evs == views_of_events(events@),
            evs.len() == events@.len(),
            all_starts_wf(evs),
            dviews == days@.map_values(|g: DayGroup| g@),
            dviews.len() == days@.len(),
            out@ == spec_room_days(room@, dviews.take(d as int), evs),
        decreases days@.len() - d,
    {
        let g = &days[d];
        proof {
            assert(dviews[d as int] == days@[d as int]@);
        }
        out.append("### Day ");
        let day_digits = dec_i32(g.day.0 as i32);
        out.append(day_digits.as_str());
        out.append(" (");
        if g.ids.len() > 0 && g.ids[0] < events.len() {
            proof {
                assert(evs[g.ids@[0] as int] == events@[g.ids@[0] as int]@);
            }
            let date = friendly_date(&events[g.ids[0]].start);
            out.append(date.as_str());
        }
        out.append(") {#room-");
        let room_anchor = id(room.0.as_str());
        out.append(room_anchor.as_str());
        out.append("-day-");
        out.append(day_digits.as_str());
        out.append("}\n\n");
        let lines = bullets_block(&g.ids, events);
        out.append(lines.as_str());
        out.append("\n");
        d = d + 1;
        proof {
            assert(dviews.take(d as int).drop_last() =~= dviews.take(d as int - 1));
            assert(dviews.take(d as int).last() == dviews[d as int - 1]);
        }
    }
    proof {
        assert(dviews.take(dviews.len() as int) =~= dviews);
    }
    out
}

#[verifier::rlimit(80)]
fn day_rooms_block(day: Day, rooms: &Vec<RoomSub>, events: &Vec<Event>) -> (r: String)
    ensures
        r@ == spec_day_rooms(day.0, rooms@.map_values(|g: RoomSub| g@), views_of_events(
            events@,
        )),
{
    let ghost evs = views_of_events(events@);
    let ghost rviews = rooms@.map_values(|g: RoomSub| g@);
    let mut out = String::new();
    let mut ri: usize = 0;
    proof {
        assert(rviews.take(0) =~= Seq::<RoomSubView>::empty());
    }
    while ri < rooms.len()
        invariant
            ri <= rooms@.len(),
            evs == views_of_events(events@),
            rviews == rooms@.map_values(|g: RoomSub| g@),
            rviews.len() == rooms@.len(),
            out@ == spec_day_rooms(day.0, rviews.take(ri as int), evs),
        decreases rooms@.len() - ri,
    {
        let g = &rooms[ri];
        proof {
            assert(rviews[ri as int] == rooms@[ri as int]@);
        }
        out.append("### ");
        out.append(g.room.0.as_str());
        out.append(" {#day-");
        let day_digits = dec_i32(day.0 as i32);
        out.append(day_digits.as_str());
        out.append("-room-");
        let room_anchor = id(g.room.0.as_str());
        out.append(room_anchor.as_str());
        out.append("}\n\n");
        let lines = bullets_block(&g.ids, events);
        out.append(lines.as_str());
        out.append("\n");
        ri = ri + 1;
        proof {
            assert(rviews.take(ri as int).drop_last() =~= rviews.take(ri as int - 1));
            assert(rviews.take(ri as int).last() == rviews[ri as int - 1]);
        }
    }
    proof {
        assert(rviews.take(rviews.len() as int) =~= rviews);
    }
    out
}

/// Renders the flat event sequence and the two grouping indices as one
/// markdown document of three cross-linked sections. The renderer only
/// builds text; it performs no output of its own and mutates none of
/// its inputs.
#[verifier::rlimit(80)]
pub fn render(events: &Vec<Event>, by_room: &RoomDayIndex, by_day: &DayRoomIndex) -> (r:
    String)
    requires
        all_starts_wf(views_of_events(events@)),
        by_room@ == spec_room_day_index(views_of_events(events@)),
        by_day@ == spec_day_room_index(views_of_events(events@)),
    ensures
        r@ == spec_render(views_of_events(events@)),
{
    let ghost evs = views_of_events(events@);
    let mut out = String::from_str("# Events {#events}\n\n");
    let mut i: usize = 0;
    proof {
        assert(evs.take(0) =~= Seq::<EventView>::empty());
    }
    while i < events.len()
        invariant
            i <= events@.len(),
            evs == views_of_events(events@),
            evs.len() == events@.len(),
            all_starts_wf(evs),
            out@ == "# Events {#events}\n\n"@ + spec_event_blocks(evs.take(i as int)),
        decreases events@.len() - i,
    {
        proof {
            assert(evs[i as int] == events@[i as int]@);
        }
        let block = event_block(&events[i]);
        out.append(block.as_str());
        i = i + 1;
        proof {
            assert(evs.take(i as int).drop_last() =~= evs.take(i as int - 1));
            assert(evs.take(i as int).last() == evs[i as int - 1]);
        }
    }
    proof {
        assert(evs.take(evs.len() as int) =~= evs);
    }
    let ghost rviews = by_room.rooms@.map_values(|g: crate::views::RoomGroup| g@);
    out.append("# Rooms {#rooms}\n\n");
    let ghost rooms_base = out@;
    let mut ri: usize = 0;
    proof {
        assert(rviews.take(0) =~= Seq::<RoomGroupView>::empty());
    }
    while ri < by_room.rooms.len()
        invariant
            ri <= by_room.rooms@.len(),
            evs == views_of_events(events@),
            all_starts_wf(evs),
            rviews == by_room.rooms@.map_values(|g: crate::views::RoomGroup| g@),
            rviews.len() == by_room.rooms@.len(),
            out@ == rooms_base + spec_room_blocks(rviews.take(ri as int), evs),
        decreases by_room.rooms@.len() - ri,
    {
        let g = &by_room.rooms[ri];
        proof {
            assert(rviews[ri as int] == by_room.rooms@[ri as int]@);
        }
        out.append("## ");
        out.append(g.room.0.as_str());
        out.append(" {#room-");
        let room_anchor = id(g.room.0.as_str());
        out.append(room_anchor.as_str());
        out.append("}\n\n");
        let days_text = room_days_block(&g.room, &g.days, events);
        out.append(days_text.as_str());
        ri = ri + 1;
        proof {
            assert(rviews.take(ri as int).drop_last() =~= rviews.take(ri as int - 1));
            assert(rviews.take(ri as int).last() == rviews[ri as int - 1]);
        }
    }
    proof {
        assert(rviews.take(rviews.len() as int) =~= rviews);
        assert(rviews == by_room@);
    }
    let ghost dviews = by_day.days@.map_values(|g: crate::views::DayRoomGroup| g@);
    out.append("# Days {#days}\n\n");
    let ghost days_base = out@;
    let mut di: usize = 0;
    proof {
        assert(dviews.take(0) =~= Seq::<DayRoomView>::empty());
    }
    while di < by_day.days.len()
        invariant
            di <= by_day.days@.len(),
            evs == views_of_events(events@),
            dviews == by_day.days@.map_values(|g: crate::views::DayRoomGroup| g@),
            dviews.len() == by_day.days@.len(),
            out@ == days_base + spec_day_blocks(dviews.take(di as int), evs),
        decreases by_day.days@.len() - di,
    {
        let g = &by_day.days[di];
        proof {
            assert(dviews[di as int] == by_day.days@[di as int]@);
        }
        out.append("## Day ");
        let day_digits = dec_i32(g.day.0 as i32);
        out.append(day_digits.as_str());
        out.append(" {#day-");
        out.append(day_digits.as_str());
        out.append("}\n\n");
        let rooms_text = day_rooms_block(g.day, &g.rooms, events);
        out.append(rooms_text.as_str());
        di = di + 1;
        proof {
            assert(dviews.take(di as int).drop_last() =~= dviews.take(di as int - 1));
            assert(dviews.take(di as int).last() == dviews[di as int - 1]);
        }
    }
    proof {
        assert(dviews.take(dviews.len() as int) =~= dviews);
        assert(dviews == by_day@);
    }
    out
}

} // verus!
