use vstd::prelude::*;
use vstd::string::*;

use crate::error::Error;

verus! {

/// Relies on uuid::Uuid::new_v4 (random bits with the version and variant set),
/// read as its 128-bit value: nothing is promised of the value.
#[verifier::external_body]
fn fresh_event_id() -> (r: u128) {
    uuid::Uuid::new_v4().as_u128()
}

/// One time-ranged record. Its label can only grow, through
/// `EventTable::append_name`.
#[derive(Debug, Clone)]
pub struct Event {
    uuid: u128,
    label: String,
    start: i64,
    end: i64,
}

/// What an event holds, as plain values.
pub struct EventModel {
    pub uuid: u128,
    pub label: Seq<char>,
    pub start: int,
    pub end: int,
}

impl View for Event {
    type V = EventModel;

    closed spec fn view(&self) -> EventModel {
        EventModel { uuid: self.uuid, label: self.label@, start: self.start as int, end: self.end as int }
    }
}

impl Event {
    pub fn uuid(&self) -> (r: u128)
        ensures
            r == self@.uuid,
    {
        self.uuid
    }

    pub fn start(&self) -> (r: i64)
        ensures
            r == self@.start,
    {
        self.start
    }

    pub fn end(&self) -> (r: i64)
        ensures
            r == self@.end,
    {
        self.end
    }

    /// The label, for display.
    pub fn label(&self) -> (r: &String)
        ensures
            r@ == self@.label,
    {
        &self.label
    }
}

/// An event is valid when it does not end before it starts.
pub open spec fn event_valid(e: EventModel) -> bool {
    e.start <= e.end
}

/// The consistency-checked collection of events.
#[derive(Debug, Clone)]
pub struct EventTable {
    events: Vec<Event>,
    ids: Vec<u128>,
}

impl View for EventTable {
    type V = Seq<EventModel>;

    closed spec fn view(&self) -> Seq<EventModel> {
        self.events@.map_values(|e: Event| e@)
    }
}

/// Whether some event of the table carries this id.
pub open spec fn has_id(events: Seq<EventModel>, id: u128) -> bool {
    exists|i: int| 0 <= i < events.len() && #[trigger] events[i].uuid == id
}

/// No two events of the sequence share an id.
pub open spec fn ids_distinct(events: Seq<EventModel>) -> bool {
    forall|i: int, j: int|
        0 <= i < events.len() && 0 <= j < events.len() && i != j ==> #[trigger] events[i].uuid
            != #[trigger] events[j].uuid
}

/// Every event of the sequence is valid.
pub open spec fn all_valid(events: Seq<EventModel>) -> bool {
    forall|i: int| 0 <= i < events.len() ==> event_valid(#[trigger] events[i])
}

/// The table holds `old` with one event added at its end.
pub open spec fn pushed(new: Seq<EventModel>, old: Seq<EventModel>, uuid: u128, label: Seq<char>, start: int, end: int) -> bool {
    &&& new.len() == old.len() + 1
    &&& new.take(old.len() as int) == old
    &&& new.last() == (EventModel { uuid, label, start, end })
}

/// `new` is `old` with `suffix` appended to the label of the event with
/// this id, and nothing else changed.
pub open spec fn appended(new: Seq<EventModel>, old: Seq<EventModel>, uuid: u128, suffix: Seq<char>) -> bool {
    &&& new.len() == old.len()
    &&& forall|i: int|
        0 <= i < old.len() ==> #[trigger] new[i] == (if old[i].uuid == uuid {
            EventModel { label: old[i].label + suffix, ..old[i] }
        } else {
            old[i]
        })
}

/// `new` is `old` with the bounds of the event with this id replaced.
pub open spec fn retimed(new: Seq<EventModel>, old: Seq<EventModel>, uuid: u128, start: int, end: int) -> bool {
    &&& new.len() == old.len()
    &&& forall|i: int|
        0 <= i < old.len() ==> #[trigger] new[i] == (if old[i].uuid == uuid {
            EventModel { start, end, ..old[i] }
        } else {
            old[i]
        })
}

/// The children that splitting `parent` into `parts` gives, under `ids`.
pub open spec fn children(parent: EventModel, parts: Seq<(i64, i64, String)>, ids: Seq<u128>) -> Seq<EventModel> {
    Seq::new(
        parts.len(),
        |k: int|
            EventModel {
                uuid: ids[k],
                label: parent.label + parts[k].2@,
                start: parts[k].0 as int,
                end: parts[k].1 as int,
            },
    )
}

/// Each part is ordered and lies within the parent's span.
pub open spec fn parts_within(parent: EventModel, parts: Seq<(i64, i64, String)>) -> bool {
    forall|k: int|
        0 <= k < parts.len() ==> parent.start <= (#[trigger] parts[k]).0 && parts[k].0 <= parts[k].1
            && parts[k].1 <= parent.end
}

/// The table has an event with this id, there is at least one part, and
/// every part lies within that event's span.
pub open spec fn parts_fit(events: Seq<EventModel>, uuid: u128, parts: Seq<(i64, i64, String)>) -> bool {
    exists|i: int|
        0 <= i < events.len() && #[trigger] events[i].uuid == uuid && parts.len() > 0 && parts_within(events[i], parts)
}

/// The ids are distinct and none is in the table.
pub open spec fn ids_fresh(events: Seq<EventModel>, ids: Seq<u128>) -> bool {
    &&& ids.no_duplicates()
    &&& forall|k: int| 0 <= k < ids.len() ==> !has_id(events, #[trigger] ids[k])
}

impl EventTable {
    /// The table's invariant: the id list mirrors the events position by
    /// position, event ids are distinct, and every event is valid.
    pub closed spec fn wf(&self) -> bool {
        &&& self.ids@ == self.events@.map_values(|e: Event| e.uuid)
        &&& ids_distinct(self@)
        &&& all_valid(self@)
    }
    /// What callers may rely on of a well-formed table.
    pub proof fn lemma_wf(&self)
        requires
            self.wf(),
        ensures
            ids_distinct(self@),
            all_valid(self@),
    {
    }

    pub fn new() -> (r: Self)
        ensures
            r.wf(),
            r@ == Seq::<EventModel>::empty(),
    {
        let r = EventTable { events: Vec::new(), ids: Vec::new() };
        assert(r.ids@ =~= r.events@.map_values(|e: Event| e.uuid));
        assert(r@ =~= Seq::<EventModel>::empty());
        r
    }

    /// Validation of a single event.
    pub fn check_event(event: &Event) -> (r: Result<(), Error>)
        ensures
            r is Ok <==> event_valid(event@),
            r is Err ==> r->Err_0 is OrderingError,
    {
        if event.start > event.end {
            return Err(Error::OrderingError);
        }
        Ok(())
    }

    /// Checks the whole table's invariant.
    pub fn check_self(&self) -> (r: Result<(), Error>)
        ensures
            r is Ok <==> self.wf(),
            r is Err ==> r->Err_0 is CorruptionError,
    {
        if self.events.len() != self.ids.len() {
            return Err(Error::CorruptionError);
        }
        let n = self.events.len();
        let ghost v = self@;
        let mut i: usize = 0;
        while i < n
            invariant
                v == self@,
                n == self.events@.len(),
                n == self.ids@.len(),
                n == v.len(),
                0 <= i <= n,
                forall|k: int| 0 <= k < i ==> #[trigger] self.ids@[k] == v[k].uuid,
                forall|k: int| 0 <= k < i ==> event_valid(#[trigger] v[k]),
                forall|k: int, l: int|
                    0 <= k < i && 0 <= l < n && k != l ==> #[trigger] v[k].uuid != #[trigger] v[l].uuid,
            decreases n - i,
        {
            assert(v[i as int] == self.events@[i as int]@);
            if self.ids[i] != self.events[i].uuid {
                assert(self.ids@[i as int] != self.events@.map_values(|e: Event| e.uuid)[i as int]);
                return Err(Error::CorruptionError);
            }
            let id = self.events[i].uuid;
            let mut j: usize = 0;
            while j < n
                invariant
                    v == self@,
                    n == self.events@.len(),
                    n == v.len(),
                    0 <= i < n,
                    0 <= j <= n,
                    id == v[i as int].uuid,
                    forall|l: int| 0 <= l < j && l != i ==> #[trigger] v[l].uuid != id,
                decreases n - j,
            {
                assert(v[j as int] == self.events@[j as int]@);
                if j != i && self.events[j].uuid == id {
                    assert(v[j as int].uuid == v[i as int].uuid);
                    return Err(Error::CorruptionError);
                }
                j = j + 1;
            }
            if Self::check_event(&self.events[i]).is_err() {
                assert(!event_valid(v[i as int]));
                return Err(Error::CorruptionError);
            }
            i = i + 1;
        }
        assert(self.ids@ =~= self.events@.map_values(|e: Event| e.uuid));
        Ok(())
    }

    /// The position of the event with this id.
    fn find_index(&self, uuid: u128) -> (r: Option<usize>)
        ensures
            r is Some ==> r->0 < self@.len() && self@[r->0 as int].uuid == uuid,
            r is None ==> !has_id(self@, uuid),
    {
        let mut i: usize = 0;
        while i < self.events.len()
            invariant
                0 <= i <= self.events@.len(),
                forall|k: int| 0 <= k < i ==> #[trigger] self.events@[k].uuid != uuid,
            decreases self.events@.len() - i,
        {
            if self.events[i].uuid == uuid {
                return Some(i);
            }
            i = i + 1;
        }
        None
    }

    /// Adds an event under the given id.
    pub fn add_with_id(&mut self, uuid: u128, name: String, start: i64, end: i64) -> (r: Result<(), Error>)
        requires
            old(self).wf(),
        ensures
            final(self).wf(),
            start > end ==> r is Err && r->Err_0 is OrderingError,
            start <= end && has_id(old(self)@, uuid) ==> r is Err && r->Err_0 is CorruptionError,
            r is Err ==> final(self)@ == old(self)@,
            r is Ok <==> start <= end && !has_id(old(self)@, uuid),
            r is Ok ==> pushed(final(self)@, old(self)@, uuid, name@, start as int, end as int),
    {
        let event = Event { uuid, label: name, start, end };
        let ghost old_view = self@;
        if let Err(e) = Self::check_event(&event) {
            return Err(e);
        }
        if self.find_index(uuid).is_some() {
            return Err(Error::CorruptionError);
        }
        let ghost old_events = self.events@;
        self.events.push(event);
        self.ids.push(uuid);
        proof {
            assert(self.ids@ =~= self.events@.map_values(|e: Event| e.uuid));
            assert(self@.take(old_events.len() as int) =~= old_events.map_values(|e: Event| e@));
            assert(self@.last() == event@);
            assert forall|i: int, j: int|
                0 <= i < self@.len() && 0 <= j < self@.len() && i != j implies #[trigger] self@[i].uuid
                    != #[trigger] self@[j].uuid by {
                if i < old_events.len() {
                    assert(self@[i] == old_events.map_values(|e: Event| e@)[i]);
                }
                if j < old_events.len() {
                    assert(self@[j] == old_events.map_values(|e: Event| e@)[j]);
                }
            }
            assert forall|i: int| 0 <= i < self@.len() implies event_valid(#[trigger] self@[i]) by {
                if i < old_events.len() {
                    assert(self@[i] == old_events.map_values(|e: Event| e@)[i]);
                }
            }
        }
        Ok(())
    }

    /// Adds an event under a freshly drawn random id, which it returns.
    /// Should the id already be taken, nothing is added.
    pub fn add(&mut self, name: String, start: i64, end: i64) -> (r: Result<u128, Error>)
        requires
            old(self).wf(),
        ensures
            final(self).wf(),
            start > end ==> r is Err && r->Err_0 is OrderingError,
            r is Err ==> final(self)@ == old(self)@,
            r is Err ==> r->Err_0 is OrderingError || (start <= end && r->Err_0 is CorruptionError),
            r is Ok ==> start <= end && !has_id(old(self)@, r->Ok_0),
            r is Ok ==> pushed(final(self)@, old(self)@, r->Ok_0, name@, start as int, end as int),
            r is Ok ==> has_id(final(self)@, r->Ok_0),
            r is Err && r->Err_0 is OrderingError ==> start > end,
            r is Err && r->Err_0 is CorruptionError ==> old(self)@.len() > 0,
            start <= end && old(self)@.len() == 0 ==> r is Ok,
    {
        if start > end {
            return Err(Error::OrderingError);
        }
        let uuid = fresh_event_id();
        match self.add_with_id(uuid, name, start, end) {
            Ok(()) => {
                assert(self@[self@.len() - 1].uuid == uuid);
                Ok(uuid)
            },
            Err(e) => Err(e),
        }
    }

    /// Rebuilds the event at `i` with the given label and bounds.
    fn replace_at(&mut self, i: usize, label: String, start: i64, end: i64)
        requires
            old(self).wf(),
            i < old(self)@.len(),
            start <= end,
        ensures
            final(self).wf(),
            final(self)@ == old(self)@.update(
                i as int,
                EventModel { label: label@, start: start as int, end: end as int, ..old(self)@[i as int] },
            ),
    {
        let ghost old_events = self.events@;
        let uuid = self.events[i].uuid;
        self.events.set(i, Event { uuid, label, start, end });
        proof {
            assert(self.ids@ =~= self.events@.map_values(|e: Event| e.uuid));
            assert(self@ =~= old_events.map_values(|e: Event| e@).update(
                i as int,
                EventModel { label: label@, start: start as int, end: end as int, ..old_events[i as int]@ },
            ));
            let ov = old_events.map_values(|e: Event| e@);
            assert(ov[i as int] == old_events[i as int]@);
            assert forall|a: int, b: int|
                0 <= a < self@.len() && 0 <= b < self@.len() && a != b implies #[trigger] self@[a].uuid
                    != #[trigger] self@[b].uuid by {
                assert(self@[a].uuid == ov[a].uuid);
                assert(self@[b].uuid == ov[b].uuid);
            }
            assert forall|a: int| 0 <= a < self@.len() implies event_valid(#[trigger] self@[a]) by {
                if a != i {
                    assert(self@[a] == ov[a]);
                }
            }
        }
    }

    /// Appends `suffix` to the label of the event with this id. This is the
    /// only way a label changes; the old label is never handed out here.
    pub fn append_name(&mut self, uuid: u128, suffix: &str) -> (r: Result<(), Error>)
        requires
            old(self).wf(),
        ensures
            final(self).wf(),
            r is Ok <==> has_id(old(self)@, uuid),
            r is Err ==> r->Err_0 is NotFoundError && final(self)@ == old(self)@,
            r is Ok ==> appended(final(self)@, old(self)@, uuid, suffix@),
    {
        let i = match self.find_index(uuid) {
            Some(i) => i,
            None => {
                return Err(Error::NotFoundError);
            },
        };
        let ghost ov = self@;
        let mut label = self.events[i].label.clone();
        label.append(suffix);
        let start = self.events[i].start;
        let end = self.events[i].end;
        proof {
            assert(ov[i as int] == self.events@[i as int]@);
            assert(event_valid(ov[i as int]));
        }
        self.replace_at(i, label, start, end);
        proof {
            assert forall|k: int| 0 <= k < ov.len() implies #[trigger] self@[k] == (if ov[k].uuid == uuid {
                EventModel { label: ov[k].label + suffix@, ..ov[k] }
            } else {
                ov[k]
            }) by {
                if k != i {
                    assert(ov[k].uuid != ov[i as int].uuid);
                }
            }
        }
        match self.check_self() {
            Ok(()) => Ok(()),
            Err(e) => Err(e),
        }
    }

    /// Replaces the bounds of the event with this id. Nothing changes when the
    /// id is unknown or the new bounds are out of order.
    pub fn set_times(&mut self, uuid: u128, start: i64, end: i64) -> (r: Result<(), Error>)
        requires
            old(self).wf(),
        ensures
            final(self).wf(),
            r is Ok <==> has_id(old(self)@, uuid) && start <= end,
            !has_id(old(self)@, uuid) ==> r is Err && r->Err_0 is NotFoundError,
            has_id(old(self)@, uuid) && start > end ==> r is Err && r->Err_0 is OrderingError,
            r is Err ==> final(self)@ == old(self)@,
            r is Ok ==> retimed(final(self)@, old(self)@, uuid, start as int, end as int),
    {
        let i = match self.find_index(uuid) {
            Some(i) => i,
            None => {
                return Err(Error::NotFoundError);
            },
        };
        if start > end {
            return Err(Error::OrderingError);
        }
        let ghost ov = self@;
        let label = self.events[i].label.clone();
        proof {
            assert(ov[i as int] == self.events@[i as int]@);
        }
        self.replace_at(i, label, start, end);
        proof {
            assert forall|k: int| 0 <= k < ov.len() implies #[trigger] self@[k] == (if ov[k].uuid == uuid {
                EventModel { start: start as int, end: end as int, ..ov[k] }
            } else {
                ov[k]
            }) by {
                if k != i {
                    assert(ov[k].uuid != ov[i as int].uuid);
                }
            }
        }
        match self.check_self() {
            Ok(()) => Ok(()),
            Err(e) => Err(e),
        }
    }

    /// Read-only access to the events, in table order.
    pub fn get_events(&self) -> (r: &[Event])
        ensures
            r@.map_values(|e: Event| e@) == self@,
    {
        self.events.as_slice()
    }

    /// The event with this id, if any.
    pub fn get(&self, uuid: u128) -> (r: Option<&Event>)
        ensures
            r is Some <==> has_id(self@, uuid),
            r is Some ==> r->0@.uuid == uuid && exists|i: int| 0 <= i < self@.len() && self@[i] == r->0@,
    {
        match self.find_index(uuid) {
            Some(i) => {
                assert(self@[i as int] == self.events@[i as int]@);
                Some(&self.events[i])
            },
            None => None,
        }
    }

    /// Checks that every part is ordered and lies within `[start, end]`.
    fn check_parts(parts: &Vec<(i64, i64, String)>, parent: &Event) -> (r: bool)
        ensures
            r == parts_within(parent@, parts@),
    {
        let mut k: usize = 0;
        while k < parts.len()
            invariant
                k <= parts@.len(),
                forall|j: int|
                    0 <= j < k ==> parent@.start <= (#[trigger] parts@[j]).0 && parts@[j].0 <= parts@[j].1
                        && parts@[j].1 <= parent@.end,
            decreases parts@.len() - k,
        {
            if parts[k].0 < parent.start || parts[k].0 > parts[k].1 || parts[k].1 > parent.end {
                return false;
            }
            k = k + 1;
        }
        true
    }

    /// Checks that the ids are distinct and none is taken.
    fn check_fresh(&self, ids: &Vec<u128>) -> (r: bool)
        ensures
            r == ids_fresh(self@, ids@),
    {
        let mut k: usize = 0;
        while k < ids.len()
            invariant
                k <= ids@.len(),
                forall|j: int| 0 <= j < k ==> !has_id(self@, #[trigger] ids@[j]),
                forall|j: int, l: int| 0 <= j < k && 0 <= l < ids@.len() && j != l ==> ids@[j] != ids@[l],
            decreases ids@.len() - k,
        {
            if self.find_index(ids[k]).is_some() {
                return false;
            }
            let mut l: usize = 0;
            while l < ids.len()
                invariant
                    k < ids@.len(),
                    l <= ids@.len(),
                    forall|m: int| 0 <= m < l && m != k ==> ids@[m] != ids@[k as int],
                decreases ids@.len() - l,
            {
                if l != k && ids[l] == ids[k] {
                    assert(!ids@.no_duplicates());
                    return false;
                }
                l = l + 1;
            }
            k = k + 1;
        }
        true
    }

    /// Splits the event with id `uuid` into children, one per part
    /// `(start, end, suffix)`, under the given ids. Each child is labelled
    /// with the parent's label followed by its suffix and must lie within the
    /// parent's span; children may overlap and leave gaps. The parent is
    /// removed and the children are added at the end, in order.
    pub fn split_with_ids(&mut self, uuid: u128, parts: Vec<(i64, i64, String)>, ids: Vec<u128>) -> (r: Result<(), Error>)
        requires
            old(self).wf(),
            ids@.len() == parts@.len(),
        ensures
            final(self).wf(),
            !has_id(old(self)@, uuid) ==> r is Err && r->Err_0 is NotFoundError,
            r is Err ==> final(self)@ == old(self)@,
            r is Ok <==> exists|i: int|
                0 <= i < old(self)@.len() && old(self)@[i].uuid == uuid && parts@.len() > 0 && parts_within(
                    old(self)@[i],
                    parts@,
                ) && ids_fresh(old(self)@, ids@),
            r is Ok ==> exists|i: int|
                0 <= i < old(self)@.len() && old(self)@[i].uuid == uuid && final(self)@ == old(self)@.remove(i)
                    + children(old(self)@[i], parts@, ids@),
            r is Err ==> r->Err_0 is NotFoundError || r->Err_0 is OrderingError || r->Err_0 is CorruptionError,
            r is Err && r->Err_0 is NotFoundError <==> !has_id(old(self)@, uuid),
            r is Err && r->Err_0 is OrderingError <==> has_id(old(self)@, uuid) && !parts_fit(old(self)@, uuid, parts@),
            r is Err && r->Err_0 is CorruptionError <==> parts_fit(old(self)@, uuid, parts@) && !ids_fresh(
                old(self)@,
                ids@,
            ),
    {
        let i = match self.find_index(uuid) {
            Some(i) => i,
            None => {
                return Err(Error::NotFoundError);
            },
        };
        let ghost old_view = self@;
        proof {
            assert(old_view[i as int] == self.events@[i as int]@);
            assert forall|j: int| 0 <= j < old_view.len() && old_view[j].uuid == uuid implies j == i by {}
        }
        if parts.len() == 0 || !Self::check_parts(&parts, &self.events[i]) {
            return Err(Error::OrderingError);
        }
        if !self.check_fresh(&ids) {
            return Err(Error::CorruptionError);
        }
        let parent_label = self.events[i].label.clone();
        let ghost parent = old_view[i as int];
        let ghost kids = children(parent, parts@, ids@);
        let ghost ov_events = self.events@;
        self.events.remove(i);
        self.ids.remove(i);
        proof {
            assert(self.ids@ =~= self.events@.map_values(|e: Event| e.uuid));
            assert(self@ =~= old_view.remove(i as int));
            assert forall|a: int, b: int|
                0 <= a < self@.len() && 0 <= b < self@.len() && a != b implies #[trigger] self@[a].uuid
                    != #[trigger] self@[b].uuid by {
                let a2 = if a < i { a } else { a + 1 };
                let b2 = if b < i { b } else { b + 1 };
                assert(self@[a] == old_view[a2]);
                assert(self@[b] == old_view[b2]);
            }
            assert forall|a: int| 0 <= a < self@.len() implies event_valid(#[trigger] self@[a]) by {
                let a2 = if a < i { a } else { a + 1 };
                assert(self@[a] == old_view[a2]);
            }
        }
        let mut k: usize = 0;
        while k < parts.len()
            invariant
                self.wf(),
                ids@.len() == parts@.len(),
                k <= parts@.len(),
                parent_label@ == parent.label,
                parts_within(parent, parts@),
                ids_fresh(old_view, ids@),
                0 <= i < old_view.len(),
                kids == children(parent, parts@, ids@),
                self@ == old_view.remove(i as int) + kids.take(k as int),
            decreases parts@.len() - k,
        {
            let mut label = parent_label.clone();
            label.append(parts[k].2.as_str());
            let ghost before = self@;
            proof {
                assert(parts_within(parent, parts@));
                assert(parent.start <= parts@[k as int].0 && parts@[k as int].0 <= parts@[k as int].1);
                assert forall|j: int| 0 <= j < before.len() implies #[trigger] before[j].uuid != ids@[k as int] by {
                    if j < old_view.len() - 1 {
                        let j2 = if j < i { j } else { j + 1 };
                        assert(before[j] == old_view[j2]);
                        assert(!has_id(old_view, ids@[k as int]));
                    } else {
                        let m = j - (old_view.len() - 1);
                        assert(before[j] == kids[m]);
                        assert(ids@[m] != ids@[k as int]);
                    }
                }
            }
            let res = self.add_with_id(ids[k], label, parts[k].0, parts[k].1);
            proof {
                assert(res is Ok);
                assert(label@ == parent.label + parts@[k as int].2@);
                assert(self@.last() == kids[k as int]);
                assert(self@.take(before.len() as int) == before);
                assert(self@ =~= before.push(kids[k as int]));
                assert(kids.take(k + 1) =~= kids.take(k as int).push(kids[k as int]));
                assert(self@ =~= old_view.remove(i as int) + kids.take(k + 1));
            }
            k = k + 1;
        }
        proof {
            assert(kids.take(parts@.len() as int) =~= kids);
        }
        Ok(())
    }

    /// Splits the event with id `uuid` into children under freshly drawn
    /// random ids, which it returns in the order of `parts`; see
    /// `split_with_ids`. Should a drawn id be taken, nothing changes.
    pub fn split(&mut self, uuid: u128, parts: Vec<(i64, i64, String)>) -> (r: Result<Vec<u128>, Error>)
        requires
            old(self).wf(),
        ensures
            final(self).wf(),
            !has_id(old(self)@, uuid) ==> r is Err && r->Err_0 is NotFoundError,
            r is Err ==> final(self)@ == old(self)@,
            r is Ok ==> exists|i: int|
                0 <= i < old(self)@.len() && old(self)@[i].uuid == uuid && parts@.len() > 0 && parts_within(
                    old(self)@[i],
                    parts@,
                ) && final(self)@ == old(self)@.remove(i) + children(old(self)@[i], parts@, r->Ok_0@),
            r is Ok ==> ids_fresh(old(self)@, r->Ok_0@) && r->Ok_0@.len() == parts@.len(),
            r is Err ==> r->Err_0 is NotFoundError || r->Err_0 is OrderingError || r->Err_0 is CorruptionError,
            r is Err && r->Err_0 is NotFoundError <==> !has_id(old(self)@, uuid),
            r is Err && r->Err_0 is OrderingError <==> has_id(old(self)@, uuid) && !parts_fit(old(self)@, uuid, parts@),
            r is Err && r->Err_0 is CorruptionError ==> parts_fit(old(self)@, uuid, parts@),
    {
        let mut ids: Vec<u128> = Vec::new();
        let mut k: usize = 0;
        while k < parts.len()
            invariant
                k <= parts@.len(),
                ids@.len() == k,
            decreases parts@.len() - k,
        {
            ids.push(fresh_event_id());
            k = k + 1;
        }
        let copy = ids.clone();
        assert(copy@ == ids@);
        match self.split_with_ids(uuid, parts, ids) {
            Ok(()) => Ok(copy),
            Err(e) => Err(e),
        }
    }

    /// The number of events.
    pub fn len(&self) -> (r: usize)
        ensures
            r == self@.len(),
    {
        self.events.len()
    }

    /// A copy of the table, handed to plugins so that none aliases the
    /// engine's own.
    pub fn snapshot(&self) -> (r: EventTable)
        ensures
            r@ == self@,
            self.wf() ==> r.wf(),
    {
        let mut events: Vec<Event> = Vec::new();
        let mut ids: Vec<u128> = Vec::new();
        let mut i: usize = 0;
        while i < self.events.len()
            invariant
                i <= self.events@.len(),
                events@.len() == i,
                ids@.len() == i,
                forall|k: int| 0 <= k < i ==> (#[trigger] events@[k])@ == self.events@[k]@,
                forall|k: int| 0 <= k < i ==> #[trigger] ids@[k] == self.events@[k].uuid,
            decreases self.events@.len() - i,
        {
            let e = &self.events[i];
            events.push(Event { uuid: e.uuid, label: e.label.clone(), start: e.start, end: e.end });
            ids.push(e.uuid);
            i = i + 1;
        }
        let r = EventTable { events, ids };
        assert(r@ =~= self@);
        assert(r.ids@ =~= r.events@.map_values(|e: Event| e.uuid));
        r
    }

}

/// Two appends to one event's label leave both suffixes at its end, in the
/// order they were appended, and leave every other event as it was.
pub proof fn lemma_append_twice(
    t0: Seq<EventModel>,
    t1: Seq<EventModel>,
    t2: Seq<EventModel>,
    uuid: u128,
    x: Seq<char>,
    y: Seq<char>,
)
    requires
        appended(t1, t0, uuid, x),
        appended(t2, t1, uuid, y),
    ensures
        t2.len() == t0.len(),
        forall|i: int|
            0 <= i < t0.len() && t0[i].uuid == uuid ==> (#[trigger] t2[i]).label == t0[i].label + x + y
                && t2[i].label.subrange(t2[i].label.len() - x.len() - y.len(), t2[i].label.len() as int) == x + y,
        forall|i: int| 0 <= i < t0.len() && t0[i].uuid != uuid ==> #[trigger] t2[i] == t0[i],
{
    assert forall|i: int|
        0 <= i < t0.len() && t0[i].uuid == uuid implies (#[trigger] t2[i]).label == t0[i].label + x + y
            && t2[i].label.subrange(t2[i].label.len() - x.len() - y.len(), t2[i].label.len() as int) == x + y by {
        assert(t1[i].uuid == uuid);
        assert(t0[i].label + x + y =~= t0[i].label + (x + y));
        assert(t2[i].label.subrange(t2[i].label.len() - x.len() - y.len(), t2[i].label.len() as int) =~= x + y);
    }
    assert forall|i: int| 0 <= i < t0.len() && t0[i].uuid != uuid implies #[trigger] t2[i] == t0[i] by {
        assert(t1[i] == t0[i]);
    }
}

} // verus!
