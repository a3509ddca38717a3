//! The view builder: derives the two grouping indices over the flat
//! event sequence, by room then day and by day then room. The indices
//! own no events; they hold positions into the flat sequence. Groups
//! appear in first-occurrence order and each leaf group lists its
//! events' positions in the flat sequence's own order.

use vstd::prelude::*;

use crate::schedule::{Day, Event, EventView, Room, views_of_events};

verus! {

/// The mathematical content of a leaf group: a day and the positions
/// of its events.
#[verifier::ext_equal]
pub ghost struct DayGroupView {
    pub day: i8,
    pub ids: Seq<usize>,
}

/// The mathematical content of one room's grouping.
#[verifier::ext_equal]
pub ghost struct RoomGroupView {
    pub room: Seq<char>,
    pub days: Seq<DayGroupView>,
}

/// One day's events within one room: positions into the flat sequence.
pub struct DayGroup {
    pub day: Day,
    pub ids: Vec<usize>,
}

/// One room's events, grouped by day.
pub struct RoomGroup {
    pub room: Room,
    pub days: Vec<DayGroup>,
}

/// The by-room-then-day grouping index.
pub struct RoomDayIndex {
    pub rooms: Vec<RoomGroup>,
}

impl View for DayGroup {
    type V = DayGroupView;

    open spec fn view(&self) -> DayGroupView {
        DayGroupView { day: self.day.0, ids: self.ids@ }
    }
}

impl View for RoomGroup {
    type V = RoomGroupView;

    open spec fn view(&self) -> RoomGroupView {
        RoomGroupView {
            room: self.room@,
            days: self.days@.map_values(|g: DayGroup| g@),
        }
    }
}

impl View for RoomDayIndex {
    type V = Seq<RoomGroupView>;

    open spec fn view(&self) -> Seq<RoomGroupView> {
        self.rooms@.map_values(|g: RoomGroup| g@)
    }
}

/// The position of the group with the given room name, first match.
pub open spec fn spec_find_room(rooms: Seq<RoomGroupView>, room: Seq<char>) -> Option<int>
    decreases rooms.len(),
{
    if rooms.len() == 0 {
        None
    } else if rooms[0].room == room {
        Some(0int)
    } else {
        match spec_find_room(rooms.drop_first(), room) {
            Some(i) => Some(i + 1),
            None => None,
        }
    }
}

/// The position of the group with the given day, first match.
pub open spec fn spec_find_day(days: Seq<DayGroupView>, day: i8) -> Option<int>
    decreases days.len(),
{
    if days.len() == 0 {
        None
    } else if days[0].day == day {
        Some(0int)
    } else {
        match spec_find_day(days.drop_first(), day) {
            Some(i) => Some(i + 1),
            None => None,
        }
    }
}

proof fn lemma_find_room_char(rooms: Seq<RoomGroupView>, room: Seq<char>)
    ensures
        match spec_find_room(rooms, room) {
            Some(ri) => 0 <= ri < rooms.len() && rooms[ri].room == room && (forall|k: int|
                0 <= k < ri ==> (#[trigger] rooms[k]).room != room),
            None => forall|k: int|
                0 <= k < rooms.len() ==> (#[trigger] rooms[k]).room != room,
        },
    decreases rooms.len(),
{
    if rooms.len() > 0 && rooms[0].room != room {
        lemma_find_room_char(rooms.drop_first(), room);
        match spec_find_room(rooms.drop_first(), room) {
            Some(i) => {
                assert(rooms[i + 1] == rooms.drop_first()[i]);
                assert forall|k: int| 0 <= k < i + 1 implies (#[trigger] rooms[k]).room
                    != room by {
                    if k > 0 {
                        assert(rooms.drop_first()[k - 1] == rooms[k]);
                    }
                }
            },
            None => {
                assert forall|k: int| 0 <= k < rooms.len() implies (#[trigger] rooms[k]).room
                    != room by {
                    if k > 0 {
                        assert(rooms.drop_first()[k - 1] == rooms[k]);
                    }
                }
            },
        }
    }
}

proof fn lemma_find_day_char(days: Seq<DayGroupView>, day: i8)
    ensures
        match spec_find_day(days, day) {
            Some(di) => 0 <= di < days.len() && days[di].day == day && (forall|k: int|
                0 <= k < di ==> (#[trigger] days[k]).day != day),
            None => forall|k: int| 0 <= k < days.len() ==> (#[trigger] days[k]).day != day,
        },
    decreases days.len(),
{
    if days.len() > 0 && days[0].day != day {
        lemma_find_day_char(days.drop_first(), day);
        match spec_find_day(days.drop_first(), day) {
            Some(i) => {
                assert(days[i + 1] == days.drop_first()[i]);
                assert forall|k: int| 0 <= k < i + 1 implies (#[trigger] days[k]).day
                    != day by {
                    if k > 0 {
                        assert(days.drop_first()[k - 1] == days[k]);
                    }
                }
            },
            None => {
                assert forall|k: int| 0 <= k < days.len() implies (#[trigger] days[k]).day
                    != day by {
                    if k > 0 {
                        assert(days.drop_first()[k - 1] == days[k]);
                    }
                }
            },
        }
    }
}

/// One day-level insertion: the position joins its day's leaf group,
/// or opens a new group at the end.
pub open spec fn spec_dg_insert(days: Seq<DayGroupView>, day: i8, i: usize) -> Seq<
    DayGroupView,
> {
    match spec_find_day(days, day) {
        None => days.push(DayGroupView { day, ids: seq![i] }),
        Some(di) => days.update(
            di,
            DayGroupView { day, ids: days[di].ids.push(i) },
        ),
    }
}

/// One event's insertion into the by-room-then-day index.
pub open spec fn spec_rd_insert(
    rooms: Seq<RoomGroupView>,
    room: Seq<char>,
    day: i8,
    i: usize,
) -> Seq<RoomGroupView> {
    match spec_find_room(rooms, room) {
        None => rooms.push(
            RoomGroupView { room, days: seq![DayGroupView { day, ids: seq![i] }] },
        ),
        Some(ri) => rooms.update(
            ri,
            RoomGroupView { room, days: spec_dg_insert(rooms[ri].days, day, i) },
        ),
    }
}

/// The by-room-then-day grouping of the event sequence: events are
/// inserted in order, so rooms stand in first-occurrence order, days
/// within a room in first-occurrence order among that room's events,
/// and each leaf group lists positions in flat order.
pub open spec fn spec_room_day_index(evs: Seq<EventView>) -> Seq<RoomGroupView>
    decreases evs.len(),
{
    if evs.len() == 0 {
        Seq::empty()
    } else {
        spec_rd_insert(
            spec_room_day_index(evs.drop_last()),
            evs.last().room,
            evs.last().day,
            (evs.len() - 1) as usize,
        )
    }
}

fn find_room(rooms: &Vec<RoomGroup>, room: &Room) -> (r: Option<usize>)
    ensures
        ({
            let views = rooms@.map_values(|g: RoomGroup| g@);
            match r {
                Some(ri) => spec_find_room(views, room@) == Some(ri as int),
                None => spec_find_room(views, room@) is None,
            }
        }),
{
    let ghost views = rooms@.map_values(|g: RoomGroup| g@);
    let mut ri: usize = 0;
    while ri < rooms.len()
        invariant
            ri <= rooms@.len(),
            views == rooms@.map_values(|g: RoomGroup| g@),
            views.len() == rooms@.len(),
            forall|k: int| 0 <= k < ri ==> (#[trigger] views[k]).room != room@,
        decreases rooms@.len() - ri,
    {
        if rooms[ri].room == *room {
            proof {
                assert(views[ri as int] == rooms@[ri as int]@);
                assert(views[ri as int].room == room@);
                lemma_find_room_char(views, room@);
            }
            return Some(ri);
        }
        proof {
            assert(views[ri as int] == rooms@[ri as int]@);
        }
        ri = ri + 1;
    }
    proof {
        lemma_find_room_char(views, room@);
    }
    None
}

fn find_day(days: &Vec<DayGroup>, day: Day) -> (r: Option<usize>)
    ensures
        ({
            let views = days@.map_values(|g: DayGroup| g@);
            match r {
                Some(di) => spec_find_day(views, day.0) == Some(di as int),
                None => spec_find_day(views, day.0) is None,
            }
        }),
{
    let ghost views = days@.map_values(|g: DayGroup| g@);
    let mut di: usize = 0;
    while di < days.len()
        invariant
            di <= days@.len(),
            views == days@.map_values(|g: DayGroup| g@),
            views.len() == days@.len(),
            forall|k: int| 0 <= k < di ==> (#[trigger] views[k]).day != day.0,
        decreases days@.len() - di,
    {
        if days[di].day == day {
            proof {
                assert(views[di as int] == days@[di as int]@);
                assert(views[di as int].day == day.0);
                lemma_find_day_char(views, day.0);
            }
            return Some(di);
        }
        proof {
            assert(views[di as int] == days@[di as int]@);
        }
        di = di + 1;
    }
    proof {
        lemma_find_day_char(views, day.0);
    }
    None
}

fn rd_insert_event(index: &mut RoomDayIndex, room: &Room, day: Day, i: usize)
    ensures
        final(index)@ == spec_rd_insert(old(index)@, room@, day.0, i),
{
    let ghost old_views = index@;
    let ghost old_rooms = index.rooms@;
    proof {
        lemma_find_room_char(old_views, room@);
    }
    match find_room(&index.rooms, room) {
        Some(ri) => {
            proof {
                assert(old_views.len() == old_rooms.len());
                assert(old_views[ri as int] == old_rooms[ri as int]@);
            }
            let rg = &mut index.rooms[ri];
            let ghost old_rg = rg@;
            proof {
                assert(old_rg == old_views[ri as int]);
                assert(old_rg.room == room@);
                lemma_find_day_char(old_rg.days, day.0);
            }
            match find_day(&rg.days, day) {
                Some(di) => {
                    proof {
                        assert(old_rg.days.len() == rg.days@.len());
                        assert(old_rg.days[di as int] == rg.days@[di as int]@);
                        assert(old_rg.days[di as int].day == day.0);
                    }
                    let dg = &mut rg.days[di];
                    let ghost old_dg = dg@;
                    dg.ids.push(i);
                    proof {
                        assert(dg@ =~= (DayGroupView { day: day.0, ids: old_dg.ids.push(i) }));
                        assert(rg@.days =~~= spec_dg_insert(old_rg.days, day.0, i));
                    }
                },
                None => {
                    let mut fresh_ids: Vec<usize> = Vec::new();
                    fresh_ids.push(i);
                    proof {
                        assert(fresh_ids@ =~= seq![i]);
                    }
                    rg.days.push(DayGroup { day, ids: fresh_ids });
                    proof {
                        assert(rg@.days =~~= spec_dg_insert(old_rg.days, day.0, i));
                    }
                },
            }
            proof {
                assert(rg@ =~~= (RoomGroupView {
                    room: room@,
                    days: spec_dg_insert(old_rg.days, day.0, i),
                }));
                assert(index.rooms@ == old_rooms.update(ri as int, *rg));
                assert(index@ =~~= spec_rd_insert(old_views, room@, day.0, i));
            }
        },
        None => {
            let mut fresh_ids: Vec<usize> = Vec::new();
            fresh_ids.push(i);
            let mut fresh_days: Vec<DayGroup> = Vec::new();
            fresh_days.push(DayGroup { day, ids: fresh_ids });
            let fresh_room = RoomGroup { room: Room(room.0.clone()), days: fresh_days };
            proof {
                assert(fresh_room@.days =~= seq![DayGroupView { day: day.0, ids: seq![i] }]);
            }
            index.rooms.push(fresh_room);
            proof {
                assert(index@ =~~= spec_rd_insert(old_views, room@, day.0, i));
            }
        },
    }
}

/// Builds the by-room-then-day grouping index over the flat event
/// sequence. Pure: the events are only read, and the result is a
/// function of the sequence alone.
pub fn make_room_day_event(events: &Vec<Event>) -> (r: RoomDayIndex)
    ensures
        r@ == spec_room_day_index(views_of_events(events@)),
{
    let ghost evs = views_of_events(events@);
    let mut index = RoomDayIndex { rooms: Vec::new() };
    let mut i: usize = 0;
    proof {
        assert(index@ =~= spec_room_day_index(evs.take(0)));
    }
    while i < events.len()
        invariant
            i <= events@.len(),
            evs == views_of_events(events@),
            evs.len() == events@.len(),
            index@ == spec_room_day_index(evs.take(i as int)),
        decreases events@.len() - i,
    {
        rd_insert_event(&mut index, &events[i].room, events[i].day, i);
        i = i + 1;
        proof {
            assert(evs.take(i as int).drop_last() =~= evs.take(i as int - 1));
            assert(evs.take(i as int).last() == evs[i as int - 1]);
            assert(evs[i as int - 1] == events@[i as int - 1]@);
        }
    }
    proof {
        assert(evs.take(evs.len() as int) =~= evs);
    }
    index
}

/// The mathematical content of a leaf group of the by-day index: a
/// room and the positions of its events.
#[verifier::ext_equal]
pub ghost struct RoomSubView {
    pub room: Seq<char>,
    pub ids: Seq<usize>,
}

/// The mathematical content of one day's grouping by room.
#[verifier::ext_equal]
pub ghost struct DayRoomView {
    pub day: i8,
    pub rooms: Seq<RoomSubView>,
}

/// One room's events within one day: positions into the flat sequence.
pub struct RoomSub {
    pub room: Room,
    pub ids: Vec<usize>,
}

/// One day's events, grouped by room.
pub struct DayRoomGroup {
    pub day: Day,
    pub rooms: Vec<RoomSub>,
}

/// The by-day-then-room grouping index.
pub struct DayRoomIndex {
    pub days: Vec<DayRoomGroup>,
}

impl View for RoomSub {
    type V = RoomSubView;

    open spec fn view(&self) -> RoomSubView {
        RoomSubView { room: self.room@, ids: self.ids@ }
    }
}

impl View for DayRoomGroup {
    type V = DayRoomView;

    open spec fn view(&self) -> DayRoomView {
        DayRoomView {
            day: self.day.0,
            rooms: self.rooms@.map_values(|g: RoomSub| g@),
        }
    }
}

impl View for DayRoomIndex {
    type V = Seq<DayRoomView>;

    open spec fn view(&self) -> Seq<DayRoomView> {
        self.days@.map_values(|g: DayRoomGroup| g@)
    }
}

/// The position of the by-day group with the given day, first match.
pub open spec fn spec_find_dr_day(days: Seq<DayRoomView>, day: i8) -> Option<int>
    decreases days.len(),
{
    if days.len() == 0 {
        None
    } else if days[0].day == day {
        Some(0int)
    } else {
        match spec_find_dr_day(days.drop_first(), day) {
            Some(i) => Some(i + 1),
            None => None,
        }
    }
}

/// The position of the subgroup with the given room name, first match.
pub open spec fn spec_find_sub_room(rooms: Seq<RoomSubView>, room: Seq<char>) -> Option<int>
    decreases rooms.len(),
{
    if rooms.len() == 0 {
        None
    } else if rooms[0].room == room {
        Some(0int)
    } else {
        match spec_find_sub_room(rooms.drop_first(), room) {
            Some(i) => Some(i + 1),
            None => None,
        }
    }
}

proof fn lemma_find_dr_day_char(days: Seq<DayRoomView>, day: i8)
    ensures
        match spec_find_dr_day(days, day) {
            Some(di) => 0 <= di < days.len() && days[di].day == day && (forall|k: int|
                0 <= k < di ==> (#[trigger] days[k]).day != day),
            None => forall|k: int| 0 <= k < days.len() ==> (#[trigger] days[k]).day != day,
        },
    decreases days.len(),
{
    if days.len() > 0 && days[0].day != day {
        lemma_find_dr_day_char(days.drop_first(), day);
        match spec_find_dr_day(days.drop_first(), day) {
            Some(i) => {
                assert(days[i + 1] == days.drop_first()[i]);
                assert forall|k: int| 0 <= k < i + 1 implies (#[trigger] days[k]).day
                    != day by {
                    if k > 0 {
                        assert(days.drop_first()[k - 1] == days[k]);
                    }
                }
            },
            None => {
                assert forall|k: int| 0 <= k < days.len() implies (#[trigger] days[k]).day
                    != day by {
                    if k > 0 {
                        assert(days.drop_first()[k - 1] == days[k]);
                    }
                }
            },
        }
    }
}

proof fn lemma_find_sub_room_char(rooms: Seq<RoomSubView>, room: Seq<char>)
    ensures
        match spec_find_sub_room(rooms, room) {
            Some(ri) => 0 <= ri < rooms.len() && rooms[ri].room == room && (forall|k: int|
                0 <= k < ri ==> (#[trigger] rooms[k]).room != room),
            None => forall|k: int|
                0 <= k < rooms.len() ==> (#[trigger] rooms[k]).room != room,
        },
    decreases rooms.len(),
{
    if rooms.len() > 0 && rooms[0].room != room {
        lemma_find_sub_room_char(rooms.drop_first(), room);
        match spec_find_sub_room(rooms.drop_first(), room) {
            Some(i) => {
                assert(rooms[i + 1] == rooms.drop_first()[i]);
                assert forall|k: int| 0 <= k < i + 1 implies (#[trigger] rooms[k]).room
                    != room by {
                    if k > 0 {
                        assert(rooms.drop_first()[k - 1] == rooms[k]);
                    }
                }
            },
            None => {
                assert forall|k: int| 0 <= k < rooms.len() implies (#[trigger] rooms[k]).room
                    != room by {
                    if k > 0 {
                        assert(rooms.drop_first()[k - 1] == rooms[k]);
                    }
                }
            },
        }
    }
}

/// One room-level insertion within a day: the position joins its
/// room's leaf group, or opens a new group at the end.
pub open spec fn spec_sub_insert(rooms: Seq<RoomSubView>, room: Seq<char>, i: usize) -> Seq<
    RoomSubView,
> {
    match spec_find_sub_room(rooms, room) {
        None => rooms.push(RoomSubView { room, ids: seq![i] }),
        Some(ri) => rooms.update(ri, RoomSubView { room, ids: rooms[ri].ids.push(i) }),
    }
}

/// One event's insertion into the by-day-then-room index.
pub open spec fn spec_dr_insert(
    days: Seq<DayRoomView>,
    day: i8,
    room: Seq<char>,
    i: usize,
) -> Seq<DayRoomView> {
    match spec_find_dr_day(days, day) {
        None => days.push(
            DayRoomView { day, rooms: seq![RoomSubView { room, ids: seq![i] }] },
        ),
        Some(di) => days.update(
            di,
            DayRoomView { day, rooms: spec_sub_insert(days[di].rooms, room, i) },
        ),
    }
}

/// The by-day-then-room grouping of the event sequence, symmetric to
/// the by-room grouping with the day and room roles swapped.
pub open spec fn spec_day_room_index(evs: Seq<EventView>) -> Seq<DayRoomView>
    decreases evs.len(),
{
    if evs.len() == 0 {
        Seq::empty()
    } else {
        spec_dr_insert(
            spec_day_room_index(evs.drop_last()),
            evs.last().day,
            evs.last().room,
            (evs.len() - 1) as usize,
        )
    }
}

fn find_dr_day(days: &Vec<DayRoomGroup>, day: Day) -> (r: Option<usize>)
    ensures
        ({
            let views = days@.map_values(|g: DayRoomGroup| g@);
            match r {
                Some(di) => spec_find_dr_day(views, day.0) == Some(di as int),
                None => spec_find_dr_day(views, day.0) is None,
            }
        }),
{
    let ghost views = days@.map_values(|g: DayRoomGroup| g@);
    let mut di: usize = 0;
    while di < days.len()
        invariant
            di <= days@.len(),
            views == days@.map_values(|g: DayRoomGroup| g@),
            views.len() == days@.len(),
            forall|k: int| 0 <= k < di ==> (#[trigger] views[k]).day != day.0,
        decreases days@.len() - di,
    {
        if days[di].day == day {
            proof {
                assert(views[di as int] == days@[di as int]@);
                assert(views[di as int].day == day.0);
                lemma_find_dr_day_char(views, day.0);
            }
            return Some(di);
        }
        proof {
            assert(views[di as int] == days@[di as int]@);
        }
        di = di + 1;
    }
    proof {
        lemma_find_dr_day_char(views, day.0);
    }
    None
}

fn find_sub_room(rooms: &Vec<RoomSub>, room: &Room) -> (r: Option<usize>)
    ensures
        ({
            let views = rooms@.map_values(|g: RoomSub| g@);
            match r {
                Some(ri) => spec_find_sub_room(views, room@) == Some(ri as int),
                None => spec_find_sub_room(views, room@) is None,
            }
        }),
{
    let ghost views = rooms@.map_values(|g: RoomSub| g@);
    let mut ri: usize = 0;
    while ri < rooms.len()
        invariant
            ri <= rooms@.len(),
            views == rooms@.map_values(|g: RoomSub| g@),
            views.len() == rooms@.len(),
            forall|k: int| 0 <= k < ri ==> (#[trigger] views[k]).room != room@,
        decreases rooms@.len() - ri,
    {
        if rooms[ri].room == *room {
            proof {
                assert(views[ri as int] == rooms@[ri as int]@);
                assert(views[ri as int].room == room@);
                lemma_find_sub_room_char(views, room@);
            }
            return Some(ri);
        }
        proof {
            assert(views[ri as int] == rooms@[ri as int]@);
        }
        ri = ri + 1;
    }
    proof {
        lemma_find_sub_room_char(views, room@);
    }
    None
}

fn dr_insert_event(index: &mut DayRoomIndex, day: Day, room: &Room, i: usize)
    ensures
        final(index)@ == spec_dr_insert(old(index)@, day.0, room@, i),
{
    let ghost old_views = index@;
    let ghost old_days = index.days@;
    proof {
        lemma_find_dr_day_char(old_views, day.0);
    }
    match find_dr_day(&index.days, day) {
        Some(di) => {
            proof {
                assert(old_views.len() == old_days.len());
                assert(old_views[di as int] == old_days[di as int]@);
            }
            let dg = &mut index.days[di];
            let ghost old_dg = dg@;
            proof {
                assert(old_dg == old_views[di as int]);
                assert(old_dg.day == day.0);
                lemma_find_sub_room_char(old_dg.rooms, room@);
            }
            match find_sub_room(&dg.rooms, room) {
                Some(ri) => {
                    proof {
                        assert(old_dg.rooms.len() == dg.rooms@.len());
                        assert(old_dg.rooms[ri as int] == dg.rooms@[ri as int]@);
                        assert(old_dg.rooms[ri as int].room == room@);
                    }
                    let sub = &mut dg.rooms[ri];
                    let ghost old_sub = sub@;
                    sub.ids.push(i);
                    proof {
                        assert(sub@ =~= (RoomSubView {
                            room: room@,
                            ids: old_sub.ids.push(i),
                        }));
                        assert(dg@.rooms =~~= spec_sub_insert(old_dg.rooms, room@, i));
                    }
                },
                None => {
                    let mut fresh_ids: Vec<usize> = Vec::new();
                    fresh_ids.push(i);
                    proof {
                        assert(fresh_ids@ =~= seq![i]);
                    }
                    dg.rooms.push(RoomSub { room: Room(room.0.clone()), ids: fresh_ids });
                    proof {
                        assert(dg@.rooms =~~= spec_sub_insert(old_dg.rooms, room@, i));
                    }
                },
            }
            proof {
                assert(dg@ =~~= (DayRoomView {
                    day: day.0,
                    rooms: spec_sub_insert(old_dg.rooms, room@, i),
                }));
                assert(index.days@ == old_days.update(di as int, *dg));
                assert(index@ =~~= spec_dr_insert(old_views, day.0, room@, i));
            }
        },
        None => {
            let mut fresh_ids: Vec<usize> = Vec::new();
            fresh_ids.push(i);
            let mut fresh_rooms: Vec<RoomSub> = Vec::new();
            fresh_rooms.push(RoomSub { room: Room(room.0.clone()), ids: fresh_ids });
            let fresh_day = DayRoomGroup { day, rooms: fresh_rooms };
            proof {
                assert(fresh_day@.rooms =~= seq![RoomSubView { room: room@, ids: seq![i] }]);
            }
            index.days.push(fresh_day);
            proof {
                assert(index@ =~~= spec_dr_insert(old_views, day.0, room@, i));
            }
        },
    }
}

/// Builds the by-day-then-room grouping index over the flat event
/// sequence. Pure: the events are only read, and the result is a
/// function of the sequence alone.
pub fn make_day_room_event(events: &Vec<Event>) -> (r: DayRoomIndex)
    ensures
        r@ == spec_day_room_index(views_of_events(events@)),
{
    let ghost evs = views_of_events(events@);
    let mut index = DayRoomIndex { days: Vec::new() };
    let mut i: usize = 0;
    proof {
        assert(index@ =~= spec_day_room_index(evs.take(0)));
    }
    while i < events.len()
        invariant
            i <= events@.len(),
            evs == views_of_events(events@),
            evs.len() == events@.len(),
            index@ == spec_day_room_index(evs.take(i as int)),
        decreases events@.len() - i,
    {
        dr_insert_event(&mut index, events[i].day, &events[i].room, i);
        i = i + 1;
        proof {
            assert(evs.take(i as int).drop_last() =~= evs.take(i as int - 1));
            assert(evs.take(i as int).last() == evs[i as int - 1]);
            assert(evs[i as int - 1] == events@[i as int - 1]@);
        }
    }
    proof {
        assert(evs.take(evs.len() as int) =~= evs);
    }
    index
}

/// The number of positions across one room's leaf groups.
pub open spec fn spec_days_total(days: Seq<DayGroupView>) -> int
    decreases days.len(),
{
    if days.len() == 0 {
        0
    } else {
        spec_days_total(days.drop_last()) + days.last().ids.len()
    }
}

/// The number of positions across all leaf groups of the by-room
/// index.
pub open spec fn spec_rd_total(rooms: Seq<RoomGroupView>) -> int
    decreases rooms.len(),
{
    if rooms.len() == 0 {
        0
    } else {
        spec_rd_total(rooms.drop_last()) + spec_days_total(rooms.last().days)
    }
}

proof fn lemma_days_total_update(days: Seq<DayGroupView>, di: int, x: DayGroupView)
    requires
        0 <= di < days.len(),
    ensures
        spec_days_total(days.update(di, x)) == spec_days_total(days) - days[di].ids.len()
            + x.ids.len(),
    decreases days.len(),
{
    if di == days.len() - 1 {
        assert(days.update(di, x).drop_last() =~= days.drop_last());
        assert(days.update(di, x).last() == x);
    } else {
        lemma_days_total_update(days.drop_last(), di, x);
        assert(days.update(di, x).drop_last() =~= days.drop_last().update(di, x));
        assert(days.update(di, x).last() == days.last());
    }
}

proof fn lemma_rd_total_update(rooms: Seq<RoomGroupView>, ri: int, x: RoomGroupView)
    requires
        0 <= ri < rooms.len(),
    ensures
        spec_rd_total(rooms.update(ri, x)) == spec_rd_total(rooms) - spec_days_total(
            rooms[ri].days,
        ) + spec_days_total(x.days),
    decreases rooms.len(),
{
    if ri == rooms.len() - 1 {
        assert(rooms.update(ri, x).drop_last() =~= rooms.drop_last());
        assert(rooms.update(ri, x).last() == x);
    } else {
        lemma_rd_total_update(rooms.drop_last(), ri, x);
        assert(rooms.update(ri, x).drop_last() =~= rooms.drop_last().update(ri, x));
        assert(rooms.update(ri, x).last() == rooms.last());
    }
}

proof fn lemma_dg_insert_total(days: Seq<DayGroupView>, day: i8, i: usize)
    ensures
        spec_days_total(spec_dg_insert(days, day, i)) == spec_days_total(days) + 1,
{
    lemma_find_day_char(days, day);
    match spec_find_day(days, day) {
        None => {
            let pushed = days.push(DayGroupView { day, ids: seq![i] });
            assert(pushed.drop_last() =~= days);
        },
        Some(di) => {
            lemma_days_total_update(
                days,
                di,
                DayGroupView { day, ids: days[di].ids.push(i) },
            );
        },
    }
}

proof fn lemma_rd_insert_total(rooms: Seq<RoomGroupView>, room: Seq<char>, day: i8, i: usize)
    ensures
        spec_rd_total(spec_rd_insert(rooms, room, day, i)) == spec_rd_total(rooms) + 1,
{
    lemma_find_room_char(rooms, room);
    match spec_find_room(rooms, room) {
        None => {
            let fresh = RoomGroupView { room, days: seq![DayGroupView { day, ids: seq![i] }] };
            let pushed = rooms.push(fresh);
            assert(pushed.drop_last() =~= rooms);
            assert(pushed.last() == fresh);
            assert(fresh.days.drop_last() =~= Seq::<DayGroupView>::empty());
            assert(spec_days_total(Seq::<DayGroupView>::empty()) == 0);
            assert(fresh.days.last().ids.len() == 1);
            assert(spec_days_total(fresh.days) == 1);
        },
        Some(ri) => {
            lemma_dg_insert_total(rooms[ri].days, day, i);
            lemma_rd_total_update(
                rooms,
                ri,
                RoomGroupView { room, days: spec_dg_insert(rooms[ri].days, day, i) },
            );
        },
    }
}

/// The grouping invariant of the by-room-then-day index: the lengths
/// of all leaf groups sum to the length of the event sequence. No
/// event is dropped or duplicated.
pub proof fn lemma_room_day_group_sum(evs: Seq<EventView>)
    ensures
        spec_rd_total(spec_room_day_index(evs)) == evs.len(),
    decreases evs.len(),
{
    if evs.len() > 0 {
        lemma_room_day_group_sum(evs.drop_last());
        lemma_rd_insert_total(
            spec_room_day_index(evs.drop_last()),
            evs.last().room,
            evs.last().day,
            (evs.len() - 1) as usize,
        );
    }
}

/// The number of positions across one day's leaf groups.
pub open spec fn spec_subs_total(rooms: Seq<RoomSubView>) -> int
    decreases rooms.len(),
{
    if rooms.len() == 0 {
        0
    } else {
        spec_subs_total(rooms.drop_last()) + rooms.last().ids.len()
    }
}

/// The number of positions across all leaf groups of the by-day index.
pub open spec fn spec_dr_total(days: Seq<DayRoomView>) -> int
    decreases days.len(),
{
    if days.len() == 0 {
        0
    } else {
        spec_dr_total(days.drop_last()) + spec_subs_total(days.last().rooms)
    }
}

proof fn lemma_subs_total_update(rooms: Seq<RoomSubView>, ri: int, x: RoomSubView)
    requires
        0 <= ri < rooms.len(),
    ensures
        spec_subs_total(rooms.update(ri, x)) == spec_subs_total(rooms) - rooms[ri].ids.len()
            + x.ids.len(),
    decreases rooms.len(),
{
    if ri == rooms.len() - 1 {
        assert(rooms.update(ri, x).drop_last() =~= rooms.drop_last());
        assert(rooms.update(ri, x).last() == x);
    } else {
        lemma_subs_total_update(rooms.drop_last(), ri, x);
        assert(rooms.update(ri, x).drop_last() =~= rooms.drop_last().update(ri, x));
        assert(rooms.update(ri, x).last() == rooms.last());
    }
}

proof fn lemma_dr_total_update(days: Seq<DayRoomView>, di: int, x: DayRoomView)
    requires
        0 <= di < days.len(),
    ensures
        spec_dr_total(days.update(di, x)) == spec_dr_total(days) - spec_subs_total(
            days[di].rooms,
        ) + spec_subs_total(x.rooms),
    decreases days.len(),
{
    if di == days.len() - 1 {
        assert(days.update(di, x).drop_last() =~= days.drop_last());
        assert(days.update(di, x).last() == x);
    } else {
        lemma_dr_total_update(days.drop_last(), di, x);
        assert(days.update(di, x).drop_last() =~= days.drop_last().update(di, x));
        assert(days.update(di, x).last() == days.last());
    }
}

proof fn lemma_sub_insert_total(rooms: Seq<RoomSubView>, room: Seq<char>, i: usize)
    ensures
        spec_subs_total(spec_sub_insert(rooms, room, i)) == spec_subs_total(rooms) + 1,
{
    lemma_find_sub_room_char(rooms, room);
    match spec_find_sub_room(rooms, room) {
        None => {
            let pushed = rooms.push(RoomSubView { room, ids: seq![i] });
            assert(pushed.drop_last() =~= rooms);
        },
        Some(ri) => {
            lemma_subs_total_update(
                rooms,
                ri,
                RoomSubView { room, ids: rooms[ri].ids.push(i) },
            );
        },
    }
}

proof fn lemma_dr_insert_total(days: Seq<DayRoomView>, day: i8, room: Seq<char>, i: usize)
    ensures
        spec_dr_total(spec_dr_insert(days, day, room, i)) == spec_dr_total(days) + 1,
{
    lemma_find_dr_day_char(days, day);
    match spec_find_dr_day(days, day) {
        None => {
            let fresh = DayRoomView { day, rooms: seq![RoomSubView { room, ids: seq![i] }] };
            let pushed = days.push(fresh);
            assert(pushed.drop_last() =~= days);
            assert(pushed.last() == fresh);
            assert(fresh.rooms.drop_last() =~= Seq::<RoomSubView>::empty());
            assert(spec_subs_total(Seq::<RoomSubView>::empty()) == 0);
            assert(fresh.rooms.last().ids.len() == 1);
            assert(spec_subs_total(fresh.rooms) == 1);
        },
        Some(di) => {
            lemma_sub_insert_total(days[di].rooms, room, i);
            lemma_dr_total_update(
                days,
                di,
                DayRoomView { day, rooms: spec_sub_insert(days[di].rooms, room, i) },
            );
        },
    }
}

/// The grouping invariant of the by-day-then-room index: the lengths
/// of all leaf groups sum to the length of the event sequence. No
/// event is dropped or duplicated.
pub proof fn lemma_day_room_group_sum(evs: Seq<EventView>)
    ensures
        spec_dr_total(spec_day_room_index(evs)) == evs.len(),
    decreases evs.len(),
{
    if evs.len() > 0 {
        lemma_day_room_group_sum(evs.drop_last());
        lemma_dr_insert_total(
            spec_day_room_index(evs.drop_last()),
            evs.last().day,
            evs.last().room,
            (evs.len() - 1) as usize,
        );
    }
}

/// A well-formed leaf group: non-empty, every position within range,
/// and positions strictly ascending, so the group's events stand in
/// the flat sequence's own relative order.
pub open spec fn spec_ids_wf(ids: Seq<usize>, n: int) -> bool {
    &&& ids.len() >= 1
    &&& forall|a: int| 0 <= a < ids.len() ==> (#[trigger] ids[a]) < n
    &&& forall|a: int, b: int| 0 <= a < b < ids.len() ==> ids[a] < ids[b]
}

/// Every leaf group of the by-room index is a well-formed, in-order
/// selection of positions below `n`.
pub open spec fn spec_rd_wf(rooms: Seq<RoomGroupView>, n: int) -> bool {
    forall|r: int, d: int|
        0 <= r < rooms.len() && 0 <= d < (#[trigger] rooms[r]).days.len() ==> spec_ids_wf(
            (#[trigger] rooms[r].days[d]).ids,
            n,
        )
}

/// Every leaf group of the by-day index is a well-formed, in-order
/// selection of positions below `n`.
pub open spec fn spec_dr_wf(days: Seq<DayRoomView>, n: int) -> bool {
    forall|d: int, r: int|
        0 <= d < days.len() && 0 <= r < (#[trigger] days[d]).rooms.len() ==> spec_ids_wf(
            (#[trigger] days[d].rooms[r]).ids,
            n,
        )
}

proof fn lemma_rd_insert_wf(rooms: Seq<RoomGroupView>, room: Seq<char>, day: i8, i: usize)
    requires
        spec_rd_wf(rooms, i as int),
    ensures
        spec_rd_wf(spec_rd_insert(rooms, room, day, i), i as int + 1),
{
    lemma_find_room_char(rooms, room);
    let out = spec_rd_insert(rooms, room, day, i);
    assert forall|r: int, d: int|
        0 <= r < out.len() && 0 <= d < (#[trigger] out[r]).days.len() implies spec_ids_wf(
        (#[trigger] out[r].days[d]).ids,
        i as int + 1,
    ) by {
        match spec_find_room(rooms, room) {
            None => {
                if r < rooms.len() {
                    assert(out[r] == rooms[r]);
                    assert(spec_ids_wf(rooms[r].days[d].ids, i as int));
                } else {
                    assert(out[r].days[d].ids =~= seq![i]);
                }
            },
            Some(ri) => {
                if r != ri {
                    assert(out[r] == rooms[r]);
                    assert(spec_ids_wf(rooms[r].days[d].ids, i as int));
                } else {
                    lemma_find_day_char(rooms[ri].days, day);
                    match spec_find_day(rooms[ri].days, day) {
                        None => {
                            if d < rooms[ri].days.len() {
                                assert(out[r].days[d] == rooms[ri].days[d]);
                                assert(spec_ids_wf(rooms[ri].days[d].ids, i as int));
                            } else {
                                assert(out[r].days[d].ids =~= seq![i]);
                            }
                        },
                        Some(di) => {
                            if d != di {
                                assert(out[r].days[d] == rooms[ri].days[d]);
                                assert(spec_ids_wf(rooms[ri].days[d].ids, i as int));
                            } else {
                                let old_ids = rooms[ri].days[di].ids;
                                assert(spec_ids_wf(old_ids, i as int));
                                assert(out[r].days[d].ids == old_ids.push(i));
                            }
                        },
                    }
                }
            },
        }
    }
}

proof fn lemma_dr_insert_wf(days: Seq<DayRoomView>, day: i8, room: Seq<char>, i: usize)
    requires
        spec_dr_wf(days, i as int),
    ensures
        spec_dr_wf(spec_dr_insert(days, day, room, i), i as int + 1),
{
    lemma_find_dr_day_char(days, day);
    let out = spec_dr_insert(days, day, room, i);
    assert forall|d: int, r: int|
        0 <= d < out.len() && 0 <= r < (#[trigger] out[d]).rooms.len() implies spec_ids_wf(
        (#[trigger] out[d].rooms[r]).ids,
        i as int + 1,
    ) by {
        match spec_find_dr_day(days, day) {
            None => {
                if d < days.len() {
                    assert(out[d] == days[d]);
                    assert(spec_ids_wf(days[d].rooms[r].ids, i as int));
                } else {
                    assert(out[d].rooms[r].ids =~= seq![i]);
                }
            },
            Some(di) => {
                if d != di {
                    assert(out[d] == days[d]);
                    assert(spec_ids_wf(days[d].rooms[r].ids, i as int));
                } else {
                    lemma_find_sub_room_char(days[di].rooms, room);
                    match spec_find_sub_room(days[di].rooms, room) {
                        None => {
                            if r < days[di].rooms.len() {
                                assert(out[d].rooms[r] == days[di].rooms[r]);
                                assert(spec_ids_wf(days[di].rooms[r].ids, i as int));
                            } else {
                                assert(out[d].rooms[r].ids =~= seq![i]);
                            }
                        },
                        Some(ri) => {
                            if r != ri {
                                assert(out[d].rooms[r] == days[di].rooms[r]);
                                assert(spec_ids_wf(days[di].rooms[r].ids, i as int));
                            } else {
                                let old_ids = days[di].rooms[ri].ids;
                                assert(spec_ids_wf(old_ids, i as int));
                                assert(out[d].rooms[r].ids == old_ids.push(i));
                            }
                        },
                    }
                }
            },
        }
    }
}

/// Every position listed under a room and a day of the by-room index
/// names an event with exactly that room and that day.
pub open spec fn spec_rd_keys_match(rooms: Seq<RoomGroupView>, evs: Seq<EventView>) -> bool {
    forall|r: int, d: int, k: int|
        0 <= r < rooms.len() && 0 <= d < rooms[r].days.len() && 0 <= k
            < rooms[r].days[d].ids.len() && (#[trigger] rooms[r].days[d].ids[k]) < evs.len()
            ==> evs[rooms[r].days[d].ids[k] as int].room == rooms[r].room && evs[rooms[r].days[d].ids[k] as int].day
            == rooms[r].days[d].day
}

/// Every position listed under a day and a room of the by-day index
/// names an event with exactly that day and that room.
pub open spec fn spec_dr_keys_match(days: Seq<DayRoomView>, evs: Seq<EventView>) -> bool {
    forall|d: int, r: int, k: int|
        0 <= d < days.len() && 0 <= r < days[d].rooms.len() && 0 <= k
            < days[d].rooms[r].ids.len() && (#[trigger] days[d].rooms[r].ids[k]) < evs.len()
            ==> evs[days[d].rooms[r].ids[k] as int].day == days[d].day && evs[days[d].rooms[r].ids[k] as int].room
            == days[d].rooms[r].room
}

proof fn lemma_rd_insert_keys(
    rooms: Seq<RoomGroupView>,
    evs: Seq<EventView>,
    room: Seq<char>,
    day: i8,
    i: usize,
)
    requires
        spec_rd_keys_match(rooms, evs),
        i < evs.len(),
        evs[i as int].room == room,
        evs[i as int].day == day,
    ensures
        spec_rd_keys_match(spec_rd_insert(rooms, room, day, i), evs),
{
    lemma_find_room_char(rooms, room);
    let out = spec_rd_insert(rooms, room, day, i);
    assert forall|r: int, d: int, k: int|
        0 <= r < out.len() && 0 <= d < out[r].days.len() && 0 <= k < out[r].days[d].ids.len()
            && (#[trigger] out[r].days[d].ids[k]) < evs.len() implies evs[out[r].days[d].ids[k] as int].room
        == out[r].room && evs[out[r].days[d].ids[k] as int].day == out[r].days[d].day by {
        match spec_find_room(rooms, room) {
            None => {
                if r < rooms.len() {
                    assert(out[r] == rooms[r]);
                    assert(rooms[r].days[d].ids[k] == out[r].days[d].ids[k]);
                } else {
                    assert(out[r].days[d].ids[k] == i);
                }
            },
            Some(ri) => {
                if r != ri {
                    assert(out[r] == rooms[r]);
                    assert(rooms[r].days[d].ids[k] == out[r].days[d].ids[k]);
                } else {
                    lemma_find_day_char(rooms[ri].days, day);
                    match spec_find_day(rooms[ri].days, day) {
                        None => {
                            if d < rooms[ri].days.len() {
                                assert(out[r].days[d] == rooms[ri].days[d]);
                                assert(rooms[ri].days[d].ids[k] == out[r].days[d].ids[k]);
                            } else {
                                assert(out[r].days[d].ids[k] == i);
                            }
                        },
                        Some(di) => {
                            if d != di {
                                assert(out[r].days[d] == rooms[ri].days[d]);
                                assert(rooms[ri].days[d].ids[k] == out[r].days[d].ids[k]);
                            } else {
                                let old_ids = rooms[ri].days[di].ids;
                                if k < old_ids.len() {
                                    assert(old_ids[k] == out[r].days[d].ids[k]);
                                } else {
                                    assert(out[r].days[d].ids[k] == i);
                                }
                            }
                        },
                    }
                }
            },
        }
    }
}

proof fn lemma_dr_insert_keys(
    days: Seq<DayRoomView>,
    evs: Seq<EventView>,
    day: i8,
    room: Seq<char>,
    i: usize,
)
    requires
        spec_dr_keys_match(days, evs),
        i < evs.len(),
        evs[i as int].room == room,
        evs[i as int].day == day,
    ensures
        spec_dr_keys_match(spec_dr_insert(days, day, room, i), evs),
{
    lemma_find_dr_day_char(days, day);
    let out = spec_dr_insert(days, day, room, i);
    assert forall|d: int, r: int, k: int|
        0 <= d < out.len() && 0 <= r < out[d].rooms.len() && 0 <= k < out[d].rooms[r].ids.len()
            && (#[trigger] out[d].rooms[r].ids[k]) < evs.len() implies evs[out[d].rooms[r].ids[k] as int].day
        == out[d].day && evs[out[d].rooms[r].ids[k] as int].room == out[d].rooms[r].room by {
        match spec_find_dr_day(days, day) {
            None => {
                if d < days.len() {
                    assert(out[d] == days[d]);
                    assert(days[d].rooms[r].ids[k] == out[d].rooms[r].ids[k]);
                } else {
                    assert(out[d].rooms[r].ids[k] == i);
                }
            },
            Some(di) => {
                if d != di {
                    assert(out[d] == days[d]);
                    assert(days[d].rooms[r].ids[k] == out[d].rooms[r].ids[k]);
                } else {
                    lemma_find_sub_room_char(days[di].rooms, room);
                    match spec_find_sub_room(days[di].rooms, room) {
                        None => {
                            if r < days[di].rooms.len() {
                                assert(out[d].rooms[r] == days[di].rooms[r]);
                                assert(days[di].rooms[r].ids[k] == out[d].rooms[r].ids[k]);
                            } else {
                                assert(out[d].rooms[r].ids[k] == i);
                            }
                        },
                        Some(ri) => {
                            if r != ri {
                                assert(out[d].rooms[r] == days[di].rooms[r]);
                                assert(days[di].rooms[r].ids[k] == out[d].rooms[r].ids[k]);
                            } else {
                                let old_ids = days[di].rooms[ri].ids;
                                if k < old_ids.len() {
                                    assert(old_ids[k] == out[d].rooms[r].ids[k]);
                                } else {
                                    assert(out[d].rooms[r].ids[k] == i);
                                }
                            }
                        },
                    }
                }
            },
        }
    }
}

/// Membership for the by-room index: every leaf group under a room and
/// a day lists only positions of events with exactly that room and
/// that day.
pub proof fn lemma_room_day_keys(evs: Seq<EventView>)
    requires
        evs.len() <= usize::MAX,
    ensures
        spec_rd_keys_match(spec_room_day_index(evs), evs),
    decreases evs.len(),
{
    if evs.len() > 0 {
        lemma_room_day_keys(evs.drop_last());
        let prev = spec_room_day_index(evs.drop_last());
        assert forall|r: int, d: int, k: int|
            0 <= r < prev.len() && 0 <= d < prev[r].days.len() && 0 <= k
                < prev[r].days[d].ids.len() && (#[trigger] prev[r].days[d].ids[k])
                < evs.len() implies evs[prev[r].days[d].ids[k] as int].room == prev[r].room
            && evs[prev[r].days[d].ids[k] as int].day == prev[r].days[d].day by {
            if prev[r].days[d].ids[k] < evs.len() - 1 {
                assert(evs.drop_last()[prev[r].days[d].ids[k] as int] == evs[prev[r].days[d].ids[k] as int]);
            } else {
                lemma_rd_ids_below(evs.drop_last(), r, d, k);
            }
        }
        lemma_rd_insert_keys(
            prev,
            evs,
            evs.last().room,
            evs.last().day,
            (evs.len() - 1) as usize,
        );
    }
}

/// Membership for the by-day index: every leaf group under a day and a
/// room lists only positions of events with exactly that day and that
/// room.
pub proof fn lemma_day_room_keys(evs: Seq<EventView>)
    requires
        evs.len() <= usize::MAX,
    ensures
        spec_dr_keys_match(spec_day_room_index(evs), evs),
    decreases evs.len(),
{
    if evs.len() > 0 {
        lemma_day_room_keys(evs.drop_last());
        let prev = spec_day_room_index(evs.drop_last());
        assert forall|d: int, r: int, k: int|
            0 <= d < prev.len() && 0 <= r < prev[d].rooms.len() && 0 <= k
                < prev[d].rooms[r].ids.len() && (#[trigger] prev[d].rooms[r].ids[k])
                < evs.len() implies evs[prev[d].rooms[r].ids[k] as int].day == prev[d].day
            && evs[prev[d].rooms[r].ids[k] as int].room == prev[d].rooms[r].room by {
            if prev[d].rooms[r].ids[k] < evs.len() - 1 {
                assert(evs.drop_last()[prev[d].rooms[r].ids[k] as int] == evs[prev[d].rooms[r].ids[k] as int]);
            } else {
                lemma_dr_ids_below(evs.drop_last(), d, r, k);
            }
        }
        lemma_dr_insert_keys(
            prev,
            evs,
            evs.last().day,
            evs.last().room,
            (evs.len() - 1) as usize,
        );
    }
}

proof fn lemma_rd_ids_below(evs: Seq<EventView>, r: int, d: int, k: int)
    requires
        0 <= r < spec_room_day_index(evs).len(),
        0 <= d < spec_room_day_index(evs)[r].days.len(),
        0 <= k < spec_room_day_index(evs)[r].days[d].ids.len(),
    ensures
        spec_room_day_index(evs)[r].days[d].ids[k] < evs.len(),
    decreases evs.len(),
{
    if evs.len() > 0 {
        let prev = spec_room_day_index(evs.drop_last());
        let room = evs.last().room;
        let day = evs.last().day;
        let i = (evs.len() - 1) as usize;
        lemma_find_room_char(prev, room);
        let out = spec_room_day_index(evs);
        match spec_find_room(prev, room) {
            None => {
                if r < prev.len() {
                    assert(out[r] == prev[r]);
                    lemma_rd_ids_below(evs.drop_last(), r, d, k);
                } else {
                    assert(out[r].days[d].ids[k] == i);
                }
            },
            Some(ri) => {
                if r != ri {
                    assert(out[r] == prev[r]);
                    lemma_rd_ids_below(evs.drop_last(), r, d, k);
                } else {
                    lemma_find_day_char(prev[ri].days, day);
                    match spec_find_day(prev[ri].days, day) {
                        None => {
                            if d < prev[ri].days.len() {
                                assert(out[r].days[d] == prev[ri].days[d]);
                                lemma_rd_ids_below(evs.drop_last(), r, d, k);
                            } else {
                                assert(out[r].days[d].ids[k] == i);
                            }
                        },
                        Some(di) => {
                            if d != di {
                                assert(out[r].days[d] == prev[ri].days[d]);
                                lemma_rd_ids_below(evs.drop_last(), r, d, k);
                            } else {
                                if k < prev[ri].days[di].ids.len() {
                                    assert(out[r].days[d].ids[k] == prev[ri].days[di].ids[k]);
                                    lemma_rd_ids_below(evs.drop_last(), r, d, k);
                                } else {
                                    assert(out[r].days[d].ids[k] == i);
                                }
                            }
                        },
                    }
                }
            },
        }
    }
}

proof fn lemma_dr_ids_below(evs: Seq<EventView>, d: int, r: int, k: int)
    requires
        0 <= d < spec_day_room_index(evs).len(),
        0 <= r < spec_day_room_index(evs)[d].rooms.len(),
        0 <= k < spec_day_room_index(evs)[d].rooms[r].ids.len(),
    ensures
        spec_day_room_index(evs)[d].rooms[r].ids[k] < evs.len(),
    decreases evs.len(),
{
    if evs.len() > 0 {
        let prev = spec_day_room_index(evs.drop_last());
        let room = evs.last().room;
        let day = evs.last().day;
        let i = (evs.len() - 1) as usize;
        lemma_find_dr_day_char(prev, day);
        let out = spec_day_room_index(evs);
        match spec_find_dr_day(prev, day) {
            None => {
                if d < prev.len() {
                    assert(out[d] == prev[d]);
                    lemma_dr_ids_below(evs.drop_last(), d, r, k);
                } else {
                    assert(out[d].rooms[r].ids[k] == i);
                }
            },
            Some(di) => {
                if d != di {
                    assert(out[d] == prev[d]);
                    lemma_dr_ids_below(evs.drop_last(), d, r, k);
                } else {
                    lemma_find_sub_room_char(prev[di].rooms, room);
                    match spec_find_sub_room(prev[di].rooms, room) {
                        None => {
                            if r < prev[di].rooms.len() {
                                assert(out[d].rooms[r] == prev[di].rooms[r]);
                                lemma_dr_ids_below(evs.drop_last(), d, r, k);
                            } else {
                                assert(out[d].rooms[r].ids[k] == i);
                            }
                        },
                        Some(ri) => {
                            if r != ri {
                                assert(out[d].rooms[r] == prev[di].rooms[r]);
                                lemma_dr_ids_below(evs.drop_last(), d, r, k);
                            } else {
                                if k < prev[di].rooms[ri].ids.len() {
                                    assert(out[d].rooms[r].ids[k] == prev[di].rooms[ri].ids[k]);
                                    lemma_dr_ids_below(evs.drop_last(), d, r, k);
                                } else {
                                    assert(out[d].rooms[r].ids[k] == i);
                                }
                            }
                        },
                    }
                }
            },
        }
    }
}

/// No two groups of the by-room index share a room name, and no two
/// leaf groups within a room share a day.
pub open spec fn spec_rd_distinct_keys(rooms: Seq<RoomGroupView>) -> bool {
    &&& forall|r1: int, r2: int|
        0 <= r1 < r2 < rooms.len() ==> (#[trigger] rooms[r1]).room != (#[trigger] rooms[r2]).room
    &&& forall|r: int, d1: int, d2: int|
        0 <= r < rooms.len() && 0 <= d1 < d2 < (#[trigger] rooms[r]).days.len() ==> (
        #[trigger] rooms[r].days[d1]).day != (#[trigger] rooms[r].days[d2]).day
}

/// No two groups of the by-day index share a day, and no two leaf
/// groups within a day share a room name.
pub open spec fn spec_dr_distinct_keys(days: Seq<DayRoomView>) -> bool {
    &&& forall|d1: int, d2: int|
        0 <= d1 < d2 < days.len() ==> (#[trigger] days[d1]).day != (#[trigger] days[d2]).day
    &&& forall|d: int, r1: int, r2: int|
        0 <= d < days.len() && 0 <= r1 < r2 < (#[trigger] days[d]).rooms.len() ==> (
        #[trigger] days[d].rooms[r1]).room != (#[trigger] days[d].rooms[r2]).room
}

proof fn lemma_rd_insert_distinct(rooms: Seq<RoomGroupView>, room: Seq<char>, day: i8, i: usize)
    requires
        spec_rd_distinct_keys(rooms),
    ensures
        spec_rd_distinct_keys(spec_rd_insert(rooms, room, day, i)),
{
    lemma_find_room_char(rooms, room);
    let out = spec_rd_insert(rooms, room, day, i);
    match spec_find_room(rooms, room) {
        None => {
            assert forall|r1: int, r2: int| 0 <= r1 < r2 < out.len() implies (
            #[trigger] out[r1]).room != (#[trigger] out[r2]).room by {
                if r2 == out.len() - 1 {
                    assert(out[r1] == rooms[r1]);
                }
            }
            assert forall|r: int, d1: int, d2: int|
                0 <= r < out.len() && 0 <= d1 < d2 < (#[trigger] out[r]).days.len() implies (
            #[trigger] out[r].days[d1]).day != (#[trigger] out[r].days[d2]).day by {
                if r < rooms.len() {
                    assert(out[r] == rooms[r]);
                }
            }
        },
        Some(ri) => {
            lemma_find_day_char(rooms[ri].days, day);
            assert forall|r1: int, r2: int| 0 <= r1 < r2 < out.len() implies (
            #[trigger] out[r1]).room != (#[trigger] out[r2]).room by {
                assert(out[r1].room == rooms[r1].room);
                assert(out[r2].room == rooms[r2].room);
            }
            assert forall|r: int, d1: int, d2: int|
                0 <= r < out.len() && 0 <= d1 < d2 < (#[trigger] out[r]).days.len() implies (
            #[trigger] out[r].days[d1]).day != (#[trigger] out[r].days[d2]).day by {
                if r != ri {
                    assert(out[r] == rooms[r]);
                } else {
                    let days0 = rooms[ri].days;
                    match spec_find_day(days0, day) {
                        None => {
                            if d2 == days0.len() {
                                assert(out[r].days[d1] == days0[d1]);
                                assert(out[r].days[d2].day == day);
                            } else {
                                assert(out[r].days[d1] == days0[d1]);
                                assert(out[r].days[d2] == days0[d2]);
                            }
                        },
                        Some(di) => {
                            assert(out[r].days[d1].day == days0[d1].day);
                            assert(out[r].days[d2].day == days0[d2].day);
                        },
                    }
                }
            }
        },
    }
}

proof fn lemma_dr_insert_distinct(days: Seq<DayRoomView>, day: i8, room: Seq<char>, i: usize)
    requires
        spec_dr_distinct_keys(days),
    ensures
        spec_dr_distinct_keys(spec_dr_insert(days, day, room, i)),
{
    lemma_find_dr_day_char(days, day);
    let out = spec_dr_insert(days, day, room, i);
    match spec_find_dr_day(days, day) {
        None => {
            assert forall|d1: int, d2: int| 0 <= d1 < d2 < out.len() implies (
            #[trigger] out[d1]).day != (#[trigger] out[d2]).day by {
                if d2 == out.len() - 1 {
                    assert(out[d1] == days[d1]);
                }
            }
            assert forall|d: int, r1: int, r2: int|
                0 <= d < out.len() && 0 <= r1 < r2 < (#[trigger] out[d]).rooms.len() implies (
            #[trigger] out[d].rooms[r1]).room != (#[trigger] out[d].rooms[r2]).room by {
                if d < days.len() {
                    assert(out[d] == days[d]);
                }
            }
        },
        Some(di) => {
            lemma_find_sub_room_char(days[di].rooms, room);
            assert forall|d1: int, d2: int| 0 <= d1 < d2 < out.len() implies (
            #[trigger] out[d1]).day != (#[trigger] out[d2]).day by {
                assert(out[d1].day == days[d1].day);
                assert(out[d2].day == days[d2].day);
            }
            assert forall|d: int, r1: int, r2: int|
                0 <= d < out.len() && 0 <= r1 < r2 < (#[trigger] out[d]).rooms.len() implies (
            #[trigger] out[d].rooms[r1]).room != (#[trigger] out[d].rooms[r2]).room by {
                if d != di {
                    assert(out[d] == days[d]);
                } else {
                    let rooms0 = days[di].rooms;
                    match spec_find_sub_room(rooms0, room) {
                        None => {
                            if r2 == rooms0.len() {
                                assert(out[d].rooms[r1] == rooms0[r1]);
                                assert(out[d].rooms[r2].room == room);
                            } else {
                                assert(out[d].rooms[r1] == rooms0[r1]);
                                assert(out[d].rooms[r2] == rooms0[r2]);
                            }
                        },
                        Some(ri) => {
                            assert(out[d].rooms[r1].room == rooms0[r1].room);
                            assert(out[d].rooms[r2].room == rooms0[r2].room);
                        },
                    }
                }
            }
        },
    }
}

/// Each room appears as one group of the by-room index, and each day
/// as one leaf group within its room: grouping keys are never
/// duplicated.
pub proof fn lemma_room_day_distinct_keys(evs: Seq<EventView>)
    ensures
        spec_rd_distinct_keys(spec_room_day_index(evs)),
    decreases evs.len(),
{
    if evs.len() > 0 {
        lemma_room_day_distinct_keys(evs.drop_last());
        lemma_rd_insert_distinct(
            spec_room_day_index(evs.drop_last()),
            evs.last().room,
            evs.last().day,
            (evs.len() - 1) as usize,
        );
    }
}

/// Each day appears as one group of the by-day index, and each room
/// as one leaf group within its day: grouping keys are never
/// duplicated.
pub proof fn lemma_day_room_distinct_keys(evs: Seq<EventView>)
    ensures
        spec_dr_distinct_keys(spec_day_room_index(evs)),
    decreases evs.len(),
{
    if evs.len() > 0 {
        lemma_day_room_distinct_keys(evs.drop_last());
        lemma_dr_insert_distinct(
            spec_day_room_index(evs.drop_last()),
            evs.last().day,
            evs.last().room,
            (evs.len() - 1) as usize,
        );
    }
}

/// Order preservation for the by-room index: within every leaf group
/// the positions are strictly ascending and within range, so each
/// group lists its events as a subsequence of the flat sequence in its
/// original relative order.
pub proof fn lemma_room_day_order(evs: Seq<EventView>)
    requires
        evs.len() <= usize::MAX,
    ensures
        spec_rd_wf(spec_room_day_index(evs), evs.len() as int),
    decreases evs.len(),
{
    if evs.len() > 0 {
        lemma_room_day_order(evs.drop_last());
        lemma_rd_insert_wf(
            spec_room_day_index(evs.drop_last()),
            evs.last().room,
            evs.last().day,
            (evs.len() - 1) as usize,
        );
    }
}

/// Order preservation for the by-day index: within every leaf group
/// the positions are strictly ascending and within range, so each
/// group lists its events as a subsequence of the flat sequence in its
/// original relative order.
pub proof fn lemma_day_room_order(evs: Seq<EventView>)
    requires
        evs.len() <= usize::MAX,
    ensures
        spec_dr_wf(spec_day_room_index(evs), evs.len() as int),
    decreases evs.len(),
{
    if evs.len() > 0 {
        lemma_day_room_order(evs.drop_last());
        lemma_dr_insert_wf(
            spec_day_room_index(evs.drop_last()),
            evs.last().day,
            evs.last().room,
            (evs.len() - 1) as usize,
        );
    }
}

} // verus!
