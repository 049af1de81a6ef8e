//! The recordings that are running, by room.

use crate::text::{copy_text, text_eq, texts, trim, trim_text};
use vstd::prelude::*;

verus! {

/// A running recording: what was asked of it, and where it stands.
pub struct LiveRecordHandle {
    pub stop_flag: bool,
    pub split_flag: bool,
    pub title_split_flag: bool,
    pub last_title: String,
    pub current_file: String,
    pub start_time: String,
    pub start_date: String,
}

/// What a running recording holds.
pub ghost struct HandleView {
    pub stop_flag: bool,
    pub split_flag: bool,
    pub title_split_flag: bool,
    pub last_title: Seq<char>,
    pub current_file: Seq<char>,
    pub start_time: Seq<char>,
    pub start_date: Seq<char>,
}

impl LiveRecordHandle {
    /// What a running recording holds.
    pub open spec fn view(&self) -> HandleView {
        HandleView {
            stop_flag: self.stop_flag,
            split_flag: self.split_flag,
            title_split_flag: self.title_split_flag,
            last_title: self.last_title@,
            current_file: self.current_file@,
            start_time: self.start_time@,
            start_date: self.start_date@,
        }
    }

    /// A recording that begins now.
    pub fn new(title: &str, start_time: &str, start_date: &str) -> (r: Self)
        ensures
            r@ == (HandleView {
                stop_flag: false,
                split_flag: false,
                title_split_flag: false,
                last_title: title@,
                current_file: Seq::<char>::empty(),
                start_time: start_time@,
                start_date: start_date@,
            }),
    {
        LiveRecordHandle {
            stop_flag: false,
            split_flag: false,
            title_split_flag: false,
            last_title: copy_text(title),
            current_file: String::new(),
            start_time: copy_text(start_time),
            start_date: copy_text(start_date),
        }
    }
}

/// What others may know of a running recording.
pub struct LiveRecordInfo {
    pub file_path: String,
    pub start_time: String,
}

/// The recordings that are running.
pub struct LiveRuntime {
    rooms: Vec<String>,
    handles: Vec<LiveRecordHandle>,
}

/// The position of a text in a list without repetitions.
pub open spec fn place(list: Seq<Seq<char>>, key: Seq<char>) -> int {
    choose|i: int| 0 <= i < list.len() && list[i] == key
}

/// A runtime without recordings.
pub fn new_live_runtime() -> (r: LiveRuntime)
    ensures
        r.wf(),
        r@ == Map::<Seq<char>, HandleView>::empty(),
{
    let r = LiveRuntime { rooms: Vec::new(), handles: Vec::new() };
    assert(r@ =~= Map::<Seq<char>, HandleView>::empty());
    r
}

impl LiveRuntime {
    /// No room is listed twice.
    pub closed spec fn wf(&self) -> bool {
        &&& self.rooms@.len() == self.handles@.len()
        &&& texts(self.rooms@).no_duplicates()
    }

    /// The running recordings by room.
    pub closed spec fn view(&self) -> Map<Seq<char>, HandleView> {
        Map::new(
            |room: Seq<char>| texts(self.rooms@).contains(room),
            |room: Seq<char>| self.handles@[place(texts(self.rooms@), room)]@,
        )
    }

    proof fn lemma_at(&self, i: int)
        requires
            self.wf(),
            0 <= i < self.rooms@.len(),
        ensures
            self@.dom().contains(self.rooms@[i]@),
            self@[self.rooms@[i]@] == self.handles@[i]@,
            place(texts(self.rooms@), self.rooms@[i]@) == i,
    {
        let all = texts(self.rooms@);
        assert(all[i] == self.rooms@[i]@);
        assert(all.contains(all[i]));
        let p = place(all, all[i]);
        assert(0 <= p < all.len() && all[p] == all[i]);
    }

    fn find(&self, room_id: &str) -> (r: Option<usize>)
        requires
            self.wf(),
        ensures
            match r {
                Some(i) => i < self.rooms@.len() && self.rooms@[i as int]@ == room_id@
                    && self@.dom().contains(room_id@) && self@[room_id@]
                    == self.handles@[i as int]@,
                None => !self@.dom().contains(room_id@),
            },
    {
        let mut i: usize = 0;
        while i < self.rooms.len()
            invariant
                i <= self.rooms@.len(),
                self.wf(),
                forall|k: int| 0 <= k < i ==> (#[trigger] self.rooms@[k])@ != room_id@,
            decreases self.rooms.len() - i,
        {
            if text_eq(self.rooms[i].as_str(), room_id) {
                proof {
                    self.lemma_at(i as int);
                }
                return Some(i);
            }
            i += 1;
        }
        proof {
            let all = texts(self.rooms@);
            if all.contains(room_id@) {
                let k = choose|k: int| 0 <= k < all.len() && all[k] == room_id@;
                assert(self.rooms@[k]@ == room_id@);
            }
        }
        None
    }

    /// Puts a handle in the place of another.
    fn replace(&mut self, i: usize, handle: LiveRecordHandle)
        requires
            old(self).wf(),
            i < old(self).rooms@.len(),
        ensures
            final(self).wf(),
            final(self)@ == old(self)@.insert(old(self).rooms@[i as int]@, handle@),
    {
        let ghost before = self@;
        let ghost key = self.rooms@[i as int]@;
        let ghost old_self = *self;
        self.handles.set(i, handle);
        proof {
            let after = self@;
            assert(self.rooms@ == old_self.rooms@);
            assert(after.dom() =~= before.dom().insert(key)) by {
                old_self.lemma_at(i as int);
            }
            assert forall|room: Seq<char>| after.dom().contains(room) implies #[trigger] after[room]
                == before.insert(key, handle@)[room] by {
                let all = texts(self.rooms@);
                let k = choose|k: int| 0 <= k < all.len() && all[k] == room;
                assert(all.contains(room));
                self.lemma_at(k);
                old_self.lemma_at(k);
                assert(self.rooms@[k]@ == room);
                if k != i {
                    assert(all[k] != all[i as int]);
                }
            }
            assert(after =~= before.insert(key, handle@));
        }
    }

    /// Tells whether a room is being recorded.
    pub fn is_recording(&self, room_id: &str) -> (r: bool)
        requires
            self.wf(),
        ensures
            r == self@.dom().contains(room_id@),
    {
        self.find(room_id).is_some()
    }

    /// The file and the start of the recording of a room.
    pub fn get_record_info(&self, room_id: &str) -> (r: Option<LiveRecordInfo>)
        requires
            self.wf(),
        ensures
            match r {
                Some(info) => self@.dom().contains(room_id@) && info.file_path@
                    == self@[room_id@].current_file && info.start_time@
                    == self@[room_id@].start_time,
                None => !self@.dom().contains(room_id@),
            },
    {
        match self.find(room_id) {
            Some(i) => Some(
                LiveRecordInfo {
                    file_path: copy_text(self.handles[i].current_file.as_str()),
                    start_time: copy_text(self.handles[i].start_time.as_str()),
                },
            ),
            None => None,
        }
    }

    fn copy_at(&self, i: usize) -> (r: LiveRecordHandle)
        requires
            i < self.handles@.len(),
        ensures
            r@ == self.handles@[i as int]@,
    {
        let h = &self.handles[i];
        LiveRecordHandle {
            stop_flag: h.stop_flag,
            split_flag: h.split_flag,
            title_split_flag: h.title_split_flag,
            last_title: copy_text(h.last_title.as_str()),
            current_file: copy_text(h.current_file.as_str()),
            start_time: copy_text(h.start_time.as_str()),
            start_date: copy_text(h.start_date.as_str()),
        }
    }

    /// Asks the recording of a room for a new file.
    pub fn mark_split(&mut self, room_id: &str)
        requires
            old(self).wf(),
        ensures
            final(self).wf(),
            final(self)@ == (if old(self)@.dom().contains(room_id@) {
                old(self)@.insert(
                    room_id@,
                    HandleView { split_flag: true, ..old(self)@[room_id@] },
                )
            } else {
                old(self)@
            }),
    {
        if let Some(i) = self.find(room_id) {
            let mut handle = self.copy_at(i);
            handle.split_flag = true;
            self.replace(i, handle);
        }
    }

    /// Asks the recording of a room to stop.
    pub fn stop(&mut self, room_id: &str)
        requires
            old(self).wf(),
        ensures
            final(self).wf(),
            final(self)@ == (if old(self)@.dom().contains(room_id@) {
                old(self)@.insert(room_id@, HandleView { stop_flag: true, ..old(self)@[room_id@] })
            } else {
                old(self)@
            }),
    {
        if let Some(i) = self.find(room_id) {
            let mut handle = self.copy_at(i);
            handle.stop_flag = true;
            self.replace(i, handle);
        }
    }

    /// Takes up the recording of a room, in the place of an earlier one.
    pub fn insert(&mut self, room_id: &str, handle: LiveRecordHandle)
        requires
            old(self).wf(),
        ensures
            final(self).wf(),
            final(self)@ == old(self)@.insert(room_id@, handle@),
    {
        if let Some(i) = self.find(room_id) {
            self.replace(i, handle);
            return ;
        }
        let ghost before = self@;
        let ghost old_self = *self;
        self.rooms.push(copy_text(room_id));
        self.handles.push(handle);
        proof {
            let all = texts(self.rooms@);
            let old_all = texts(old_self.rooms@);
            assert(all =~= old_all.push(room_id@));
            assert(!old_all.contains(room_id@));
            assert(all.no_duplicates());
            assert(self.wf());
            let n = old_self.rooms@.len() as int;
            self.lemma_at(n);
            let after = self@;
            assert forall|room: Seq<char>| after.dom().contains(room) <==> before.insert(
                room_id@,
                handle@,
            ).dom().contains(room) by {
                if old_all.contains(room) {
                    let k = choose|k: int| 0 <= k < old_all.len() && old_all[k] == room;
                    assert(all[k] == room);
                }
                if all.contains(room) {
                    let k = choose|k: int| 0 <= k < all.len() && all[k] == room;
                    if k < n {
                        assert(old_all[k] == room);
                    }
                }
            }
            assert forall|room: Seq<char>| after.dom().contains(room) implies #[trigger] after[room]
                == before.insert(room_id@, handle@)[room] by {
                let k = choose|k: int| 0 <= k < all.len() && all[k] == room;
                assert(all.contains(room));
                self.lemma_at(k);
                assert(self.rooms@[k]@ == room);
                if k < n {
                    old_self.lemma_at(k);
                    assert(old_all[k] == room);
                    assert(room != room_id@);
                }
            }
            assert(after =~= before.insert(room_id@, handle@));
        }
    }

    /// Gives the recording of a room up.
    pub fn remove(&mut self, room_id: &str)
        requires
            old(self).wf(),
        ensures
            final(self).wf(),
            final(self)@ == old(self)@.remove(room_id@),
    {
        let found = self.find(room_id);
        let ghost before = self@;
        let ghost old_self = *self;
        match found {
            Some(i) => {
                self.rooms.remove(i);
                self.handles.remove(i);
                proof {
                    let all = texts(self.rooms@);
                    let old_all = texts(old_self.rooms@);
                    assert(all =~= old_all.remove(i as int));
                    assert forall|a: int, b: int|
                        0 <= a < all.len() && 0 <= b < all.len() && a != b implies all[a]
                        != all[b] by {
                        let a2 = if a < i {
                            a
                        } else {
                            a + 1
                        };
                        let b2 = if b < i {
                            b
                        } else {
                            b + 1
                        };
                        assert(old_all[a2] != old_all[b2]);
                    }
                    assert(self.wf());
                    let after = self@;
                    assert forall|room: Seq<char>| after.dom().contains(room) <==> before.remove(
                        room_id@,
                    ).dom().contains(room) by {
                        if all.contains(room) {
                            let k = choose|k: int| 0 <= k < all.len() && all[k] == room;
                            let k2 = if k < i {
                                k
                            } else {
                                k + 1
                            };
                            assert(old_all[k2] == room);
                            assert(old_all[i as int] == room_id@);
                        }
                        if old_all.contains(room) && room != room_id@ {
                            let k2 = choose|k: int| 0 <= k < old_all.len() && old_all[k] == room;
                            let k = if k2 < i {
                                k2
                            } else {
                                k2 - 1
                            };
                            assert(k2 != i);
                            assert(all[k] == room);
                        }
                    }
                    assert forall|room: Seq<char>| after.dom().contains(room) implies #[trigger]
                    after[room] == before.remove(room_id@)[room] by {
                        let k = choose|k: int| 0 <= k < all.len() && all[k] == room;
                        assert(all.contains(room));
                        self.lemma_at(k);
                        assert(self.rooms@[k]@ == room);
                        let k2 = if k < i {
                            k
                        } else {
                            k + 1
                        };
                        old_self.lemma_at(k2);
                        assert(old_self.rooms@[k2]@ == room);
                    }
                    assert(after =~= before.remove(room_id@));
                }
            },
            None => {
                assert(before.remove(room_id@) =~= before);
            },
        }
    }

    /// Notes the file that a recording writes.
    pub fn update_current_file(&mut self, room_id: &str, file_path: &str)
        requires
            old(self).wf(),
        ensures
            final(self).wf(),
            final(self)@ == (if old(self)@.dom().contains(room_id@) {
                old(self)@.insert(
                    room_id@,
                    HandleView { current_file: file_path@, ..old(self)@[room_id@] },
                )
            } else {
                old(self)@
            }),
    {
        if let Some(i) = self.find(room_id) {
            let mut handle = self.copy_at(i);
            handle.current_file = copy_text(file_path);
            self.replace(i, handle);
        }
    }

    /// Notes the title of a room whose recording begins anew.
    pub fn set_title(&mut self, room_id: &str, title: &str)
        requires
            old(self).wf(),
        ensures
            final(self).wf(),
            final(self)@ == (if old(self)@.dom().contains(room_id@) {
                old(self)@.insert(
                    room_id@,
                    HandleView { last_title: title@, ..old(self)@[room_id@] },
                )
            } else {
                old(self)@
            }),
    {
        if let Some(i) = self.find(room_id) {
            let mut handle = self.copy_at(i);
            handle.last_title = copy_text(title);
            self.replace(i, handle);
        }
    }

    /// Notes the title that a room shows now; a new title asks the recording for a new file.
    pub fn observe_title(&mut self, room_id: &str, title: &str)
        requires
            old(self).wf(),
        ensures
            final(self).wf(),
            final(self)@ == (if old(self)@.dom().contains(room_id@) && old(self)@[room_id@].last_title != title@ {
                old(self)@.insert(
                    room_id@,
                    HandleView {
                        last_title: title@,
                        title_split_flag: true,
                        ..old(self)@[room_id@]
                    },
                )
            } else {
                old(self)@
            }),
    {
        if let Some(i) = self.find(room_id) {
            if !text_eq(self.handles[i].last_title.as_str(), title) {
                let mut handle = self.copy_at(i);
                handle.last_title = copy_text(title);
                handle.title_split_flag = true;
                self.replace(i, handle);
            }
        }
    }

    /// The title that a room shows, or another one where it is not being recorded.
    pub fn current_title(&self, room_id: &str, fallback: &str) -> (r: String)
        requires
            self.wf(),
        ensures
            r@ == (if self@.dom().contains(room_id@) {
                self@[room_id@].last_title
            } else {
                fallback@
            }),
    {
        match self.find(room_id) {
            Some(i) => copy_text(self.handles[i].last_title.as_str()),
            None => copy_text(fallback),
        }
    }

    /// The day on which the recording of a room began, or today where it is not known.
    pub fn record_start_date(&self, room_id: &str, today: &str) -> (r: String)
        requires
            self.wf(),
        ensures
            r@ == (if self@.dom().contains(room_id@) && trim(self@[room_id@].start_date).len() > 0 {
                self@[room_id@].start_date
            } else {
                today@
            }),
    {
        if let Some(i) = self.find(room_id) {
            let day = trim_text(self.handles[i].start_date.as_str());
            if !day.as_str().is_empty() {
                return copy_text(self.handles[i].start_date.as_str());
            }
        }
        copy_text(today)
    }

    /// Tells whether the recording of a room was asked to stop.
    pub fn stop_requested(&self, room_id: &str) -> (r: Option<bool>)
        requires
            self.wf(),
        ensures
            r == (if self@.dom().contains(room_id@) {
                Some(self@[room_id@].stop_flag)
            } else {
                None
            }),
    {
        match self.find(room_id) {
            Some(i) => Some(self.handles[i].stop_flag),
            None => None,
        }
    }

    /// Takes the requests for a new file, because of a split and because of a title: each is
    /// answered once.
    pub fn take_split_requests(&mut self, room_id: &str) -> (r: (bool, bool))
        requires
            old(self).wf(),
        ensures
            final(self).wf(),
            !old(self)@.dom().contains(room_id@) ==> r == (false, false) && final(self)@ == old(self)@,
            old(self)@.dom().contains(room_id@) ==> r == (
                old(self)@[room_id@].split_flag,
                old(self)@[room_id@].title_split_flag,
            ) && final(self)@ == old(self)@.insert(
                room_id@,
                HandleView { split_flag: false, title_split_flag: false, ..old(self)@[room_id@] },
            ),
    {
        match self.find(room_id) {
            Some(i) => {
                let mut handle = self.copy_at(i);
                let requests: (bool, bool) = (handle.split_flag, handle.title_split_flag);
                handle.split_flag = false;
                handle.title_split_flag = false;
                self.replace(i, handle);
                requests
            },
            None => (false, false),
        }
    }
}

} // verus!
