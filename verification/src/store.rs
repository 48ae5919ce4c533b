//! The persisted tables the relay consumes — websites, rooms, messages —
//! and the conversation operations over them: opening or resuming a room,
//! joining one (marking its messages read and resetting its unread count),
//! and the status changes of disconnecting rooms.
//!
//! Rooms carry a globally unique `room_key`; opening a conversation with a
//! key already present resumes that row rather than creating a second one.

use vstd::prelude::*;

use crate::counter::{count_of, latest_count_key_spec, total_unread_key_spec, CounterStore,
    MessageStatusManager};
use crate::util::{generate_random_string, str_eq, u64_to_string, dec_str, is_alphanumeric_char};

verus! {

/// A tenant website row.
#[derive(Debug)]
pub struct ChatWebsite {
    pub id: u64,
    pub site_key: String,
    pub status: String,
    pub title: String,
}

/// A conversation row.
#[derive(Debug)]
pub struct ChatRoom {
    pub id: u64,
    pub room_key: String,
    pub status: String,
    pub room_site_id: u64,
    pub client_info: Option<String>,
    pub create_at: u64,
    pub update_at: u64,
}

/// A chat message row.
#[derive(Debug)]
pub struct ChatMessage {
    pub id: u64,
    pub name: String,
    pub user_id: Option<u64>,
    pub status: String,
    pub content: String,
    pub room_id: u64,
    pub str_files: Option<String>,
    pub create_at: u64,
    pub update_at: u64,
}

/// The ways a conversation operation refuses.
#[derive(PartialEq, Eq, Structural, Debug, Clone, Copy)]
pub enum ChatError {
    /// No confirmed website carries the site key.
    SiteNotFound,
    /// The room key exists under another site, so a second row cannot be
    /// created.
    RoomInit,
    /// Key generation kept colliding and gave up.
    KeyGenExhausted,
}

/// The in-memory persistence holding the three tables.
pub struct Persistence {
    pub sites: Vec<ChatWebsite>,
    pub rooms: Vec<ChatRoom>,
    pub messages: Vec<ChatMessage>,
    pub next_room_id: u64,
    pub next_message_id: u64,
}

/// Row identities are unique, room keys and site keys are unique columns,
/// and the id allocators sit above every existing row.
pub open spec fn store_wf(p: Persistence) -> bool {
    &&& forall|i: int, j: int|
        0 <= i < j < p.rooms@.len() ==> (#[trigger] p.rooms@[i]).id != (#[trigger] p.rooms@[j]).id
    &&& forall|i: int, j: int|
        0 <= i < j < p.rooms@.len() ==> (#[trigger] p.rooms@[i]).room_key@ != (
        #[trigger] p.rooms@[j]).room_key@
    &&& forall|i: int, j: int|
        0 <= i < j < p.sites@.len() ==> (#[trigger] p.sites@[i]).id != (#[trigger] p.sites@[j]).id
    &&& forall|i: int, j: int|
        0 <= i < j < p.sites@.len() ==> (#[trigger] p.sites@[i]).site_key@ != (
        #[trigger] p.sites@[j]).site_key@
    &&& forall|i: int| 0 <= i < p.rooms@.len() ==> (#[trigger] p.rooms@[i]).id < p.next_room_id
    &&& forall|i: int|
        0 <= i < p.messages@.len() ==> (#[trigger] p.messages@[i]).id < p.next_message_id
}

/// The position of the room carrying `key`, if any.
pub open spec fn room_index_by_key(rooms: Seq<ChatRoom>, key: Seq<char>) -> Option<int> {
    if exists|i: int| 0 <= i < rooms.len() && (#[trigger] rooms[i]).room_key@ == key {
        Some(choose|i: int| 0 <= i < rooms.len() && (#[trigger] rooms[i]).room_key@ == key)
    } else {
        None
    }
}

/// The position of the confirmed site carrying `key`, if any.
pub open spec fn confirmed_site_index(sites: Seq<ChatWebsite>, key: Seq<char>) -> Option<int> {
    if exists|i: int|
        0 <= i < sites.len() && (#[trigger] sites[i]).site_key@ == key && sites[i].status@
            == "confirmed"@ {
        Some(
            choose|i: int|
                0 <= i < sites.len() && (#[trigger] sites[i]).site_key@ == key && sites[i].status@
                    == "confirmed"@,
        )
    } else {
        None
    }
}

impl Persistence {
    pub fn new() -> (p: Persistence)
        ensures
            store_wf(p),
            p.sites@.len() == 0,
            p.rooms@.len() == 0,
            p.messages@.len() == 0,
            p.next_room_id == 0,
            p.next_message_id == 0,
    {
        Persistence {
            sites: Vec::new(),
            rooms: Vec::new(),
            messages: Vec::new(),
            next_room_id: 0,
            next_message_id: 0,
        }
    }

    /// Add a website row; its id and site key must be new to the table,
    /// as the website schema keys both columns uniquely.
    pub fn add_site(&mut self, site: ChatWebsite)
        requires
            store_wf(*old(self)),
            forall|i: int|
                0 <= i < old(self).sites@.len() ==> (#[trigger] old(self).sites@[i]).id != site.id
                    && old(self).sites@[i].site_key@ != site.site_key@,
        ensures
            store_wf(*final(self)),
            final(self).sites@ == old(self).sites@.push(site),
            final(self).rooms@ == old(self).rooms@,
            final(self).messages@ == old(self).messages@,
            final(self).next_room_id == old(self).next_room_id,
            final(self).next_message_id == old(self).next_message_id,
    {
        self.sites.push(site);
    }

    /// The position of the room carrying `key`, resolved executably.
    fn find_room_by_key(&self, key: &str) -> (r: Option<usize>)
        requires
            store_wf(*self),
        ensures
            match r {
                Some(i) => i < self.rooms@.len() && self.rooms@[i as int].room_key@ == key@
                    && room_index_by_key(self.rooms@, key@) == Some(i as int),
                None => room_index_by_key(self.rooms@, key@) is None,
            },
    {
        let n = self.rooms.len();
        let mut i: usize = 0;
        while i < n
            invariant
                i <= n,
                n == self.rooms@.len(),
                store_wf(*self),
                forall|j: int| 0 <= j < i ==> (#[trigger] self.rooms@[j]).room_key@ != key@,
            decreases n - i,
        {
            if str_eq(self.rooms[i].room_key.as_str(), key) {
                proof {
                    let w = choose|w: int|
                        0 <= w < self.rooms@.len() && (#[trigger] self.rooms@[w]).room_key@
                            == key@;
                    assert(w == i as int);
                }
                return Some(i);
            }
            i = i + 1;
        }
        None
    }

    /// The position of the confirmed site carrying `key`, resolved
    /// executably; the site-key column is unique, so at most one row can
    /// match.
    fn find_confirmed_site(&self, key: &str) -> (r: Option<usize>)
        requires
            store_wf(*self),
        ensures
            match r {
                Some(i) => i < self.sites@.len() && self.sites@[i as int].site_key@ == key@
                    && self.sites@[i as int].status@ == "confirmed"@ && confirmed_site_index(
                    self.sites@,
                    key@,
                ) == Some(i as int),
                None => confirmed_site_index(self.sites@, key@) is None,
            },
    {
        let n = self.sites.len();
        let mut i: usize = 0;
        while i < n
            invariant
                i <= n,
                n == self.sites@.len(),
                store_wf(*self),
                forall|j: int|
                    0 <= j < i ==> !((#[trigger] self.sites@[j]).site_key@ == key@
                        && self.sites@[j].status@ == "confirmed"@),
            decreases n - i,
        {
            if str_eq(self.sites[i].site_key.as_str(), key) && str_eq(
                self.sites[i].status.as_str(),
                "confirmed",
            ) {
                proof {
                    let w = choose|w: int|
                        0 <= w < self.sites@.len() && (#[trigger] self.sites@[w]).site_key@ == key@
                            && self.sites@[w].status@ == "confirmed"@;
                    assert(w == i as int);
                }
                return Some(i);
            }
            i = i + 1;
        }
        None
    }

    /// Set the status of the room with this id; true when the row exists.
    /// Only that row moves, and only its status and update stamp.
    pub fn set_room_status(&mut self, room_id: u64, status: &str, now: u64) -> (found: bool)
        requires
            store_wf(*old(self)),
        ensures
            store_wf(*final(self)),
            final(self).sites@ == old(self).sites@,
            final(self).messages@ == old(self).messages@,
            final(self).next_room_id == old(self).next_room_id,
            final(self).next_message_id == old(self).next_message_id,
            final(self).rooms@.len() == old(self).rooms@.len(),
            forall|i: int|
                0 <= i < old(self).rooms@.len() && (#[trigger] old(self).rooms@[i]).id != room_id
                    ==> final(self).rooms@[i] == old(self).rooms@[i],
            forall|i: int|
                0 <= i < old(self).rooms@.len() && (#[trigger] old(self).rooms@[i]).id == room_id
                    ==> final(self).rooms@[i].status@ == status@ && final(self).rooms@[i].update_at
                    == now && room_same_but_status(old(self).rooms@[i], final(self).rooms@[i]),
            found == exists|i: int|
                0 <= i < old(self).rooms@.len() && (#[trigger] old(self).rooms@[i]).id == room_id,
    {
        let n = self.rooms.len();
        let mut i: usize = 0;
        let mut found = false;
        while i < n
            invariant
                i <= n,
                n == self.rooms@.len(),
                self.sites@ == old(self).sites@,
                self.messages@ == old(self).messages@,
                self.next_room_id == old(self).next_room_id,
                self.next_message_id == old(self).next_message_id,
                self.rooms@.len() == old(self).rooms@.len(),
                forall|j: int|
                    0 <= j < old(self).rooms@.len() ==> (#[trigger] self.rooms@[j]).id == old(self).rooms@[j].id && self.rooms@[j].room_key@ == old(self).rooms@[j].room_key@,
                forall|j: int|
                    i <= j < old(self).rooms@.len() ==> #[trigger] self.rooms@[j] == old(self).rooms@[j],
                forall|j: int|
                    0 <= j < i && (#[trigger] old(self).rooms@[j]).id != room_id ==> self.rooms@[j]
                        == old(self).rooms@[j],
                forall|j: int|
                    0 <= j < i && (#[trigger] old(self).rooms@[j]).id == room_id ==> self.rooms@[
                        j
                    ].status@ == status@ && self.rooms@[j].update_at == now && room_same_but_status(
                        old(self).rooms@[j],
                        self.rooms@[j],
                    ),
                found == exists|j: int|
                    0 <= j < i && (#[trigger] old(self).rooms@[j]).id == room_id,
            decreases n - i,
        {
            if self.rooms[i].id == room_id {
                let updated = ChatRoom {
                    id: self.rooms[i].id,
                    room_key: self.rooms[i].room_key.clone(),
                    status: status.to_owned(),
                    room_site_id: self.rooms[i].room_site_id,
                    client_info: clone_opt_string(&self.rooms[i].client_info),
                    create_at: self.rooms[i].create_at,
                    update_at: now,
                };
                self.rooms[i] = updated;
                found = true;
            }
            i = i + 1;
        }
        found
    }
}

/// The two rows agree on everything but status and update stamp.
pub open spec fn room_same_but_status(a: ChatRoom, b: ChatRoom) -> bool {
    &&& a.id == b.id
    &&& a.room_key@ == b.room_key@
    &&& a.room_site_id == b.room_site_id
    &&& option_str_view(a.client_info) == option_str_view(b.client_info)
    &&& a.create_at == b.create_at
}

/// The view of an optional string.
pub open spec fn option_str_view(o: Option<String>) -> Option<Seq<char>> {
    match o {
        Some(s) => Some(s@),
        None => None,
    }
}

/// A copy of an optional string.
pub fn clone_opt_string(o: &Option<String>) -> (r: Option<String>)
    ensures
        option_str_view(r) == option_str_view(*o),
{
    match o {
        Some(s) => Some(s.clone()),
        None => None,
    }
}


/// The identity view of a room row.
pub open spec fn room_view(r: ChatRoom) -> (u64, Seq<char>, Seq<char>, u64, Option<Seq<char>>, u64, u64) {
    (r.id, r.room_key@, r.status@, r.room_site_id, option_str_view(r.client_info), r.create_at, r.update_at)
}

/// The identity view of a message row.
pub open spec fn msg_view(m: ChatMessage) -> (u64, Seq<char>, Option<u64>, Seq<char>, Seq<char>, u64, Option<Seq<char>>, u64, u64) {
    (m.id, m.name@, m.user_id, m.status@, m.content@, m.room_id, option_str_view(m.str_files), m.create_at, m.update_at)
}

/// The two rows agree on everything but status and update stamp.
pub open spec fn msg_same_but_status(a: ChatMessage, b: ChatMessage) -> bool {
    &&& a.id == b.id
    &&& a.name@ == b.name@
    &&& a.user_id == b.user_id
    &&& a.content@ == b.content@
    &&& a.room_id == b.room_id
    &&& option_str_view(a.str_files) == option_str_view(b.str_files)
    &&& a.create_at == b.create_at
}

/// A field-for-field copy of a room row.
pub fn clone_room(r: &ChatRoom) -> (c: ChatRoom)
    ensures
        room_view(c) == room_view(*r),
{
    ChatRoom {
        id: r.id,
        room_key: r.room_key.clone(),
        status: r.status.clone(),
        room_site_id: r.room_site_id,
        client_info: clone_opt_string(&r.client_info),
        create_at: r.create_at,
        update_at: r.update_at,
    }
}

/// A field-for-field copy of a message row.
pub fn clone_message(m: &ChatMessage) -> (c: ChatMessage)
    ensures
        msg_view(c) == msg_view(*m),
{
    ChatMessage {
        id: m.id,
        name: m.name.clone(),
        user_id: m.user_id,
        status: m.status.clone(),
        content: m.content.clone(),
        room_id: m.room_id,
        str_files: clone_opt_string(&m.str_files),
        create_at: m.create_at,
        update_at: m.update_at,
    }
}

/// The position of the site with row id `id`, if any; row ids are unique.
pub open spec fn site_index_by_id(sites: Seq<ChatWebsite>, id: u64) -> Option<int> {
    if exists|i: int| 0 <= i < sites.len() && (#[trigger] sites[i]).id == id {
        Some(choose|i: int| 0 <= i < sites.len() && (#[trigger] sites[i]).id == id)
    } else {
        None
    }
}

/// Whether a message row belongs to the room and is within the time bound.
pub open spec fn msg_selected(m: ChatMessage, room_id: u64, ts: u64) -> bool {
    m.room_id == room_id && m.create_at <= ts
}

impl Persistence {
    /// The position of the site with row id `id`, resolved executably.
    fn find_site_by_id(&self, id: u64) -> (r: Option<usize>)
        requires
            store_wf(*self),
        ensures
            match r {
                Some(i) => i < self.sites@.len() && self.sites@[i as int].id == id
                    && site_index_by_id(self.sites@, id) == Some(i as int),
                None => site_index_by_id(self.sites@, id) is None,
            },
    {
        let n = self.sites.len();
        let mut i: usize = 0;
        while i < n
            invariant
                i <= n,
                n == self.sites@.len(),
                store_wf(*self),
                forall|j: int| 0 <= j < i ==> (#[trigger] self.sites@[j]).id != id,
            decreases n - i,
        {
            if self.sites[i].id == id {
                proof {
                    let w = choose|w: int|
                        0 <= w < self.sites@.len() && (#[trigger] self.sites@[w]).id == id;
                    assert(w == i as int);
                }
                return Some(i);
            }
            i = i + 1;
        }
        None
    }
}

/// Whether `key` already labels a room of a site other than the confirmed
/// site matched by `site_key` — the one situation in which opening a
/// conversation under that key is refused, as the room-key column is
/// unique.
pub open spec fn key_conflicts(p: Persistence, site_key: Seq<char>, key: Seq<char>) -> bool {
    match (confirmed_site_index(p.sites@, site_key), room_index_by_key(p.rooms@, key)) {
        (Some(si), Some(ri)) => p.rooms@[ri].room_site_id != p.sites@[si].id,
        _ => false,
    }
}

/// The conversation operations, over the persistence and the counter store.
pub struct ChatService;

impl ChatService {
    /// Draw random fifteen-character room keys until one is unused; after
    /// five colliding draws give up. A returned key labels no existing room.
    pub fn gen_room_key(p: &Persistence) -> (r: Result<String, ChatError>)
        requires
            store_wf(*p),
        ensures
            match r {
                Ok(k) => k@.len() == 15 && (forall|i: int|
                    0 <= i < k@.len() ==> is_alphanumeric_char(#[trigger] k@[i]))
                    && room_index_by_key(p.rooms@, k@) is None,
                Err(e) => e == ChatError::KeyGenExhausted,
            },
    {
        let mut tries: u8 = 0;
        while tries < 5
            invariant
                store_wf(*p),
            decreases 5 - tries,
        {
            let key = generate_random_string(15);
            if p.find_room_by_key(key.as_str()).is_none() {
                return Ok(key);
            }
            tries = tries + 1;
        }
        Err(ChatError::KeyGenExhausted)
    }

    /// Draw random fifteen-character site keys until one is unused; after
    /// five colliding draws give up. A returned key labels no existing site.
    pub fn gen_site_key(p: &Persistence) -> (r: Result<String, ChatError>)
        requires
            store_wf(*p),
        ensures
            match r {
                Ok(k) => k@.len() == 15 && (forall|i: int|
                    0 <= i < k@.len() ==> is_alphanumeric_char(#[trigger] k@[i])) && (forall|i: int|
                    0 <= i < p.sites@.len() ==> (#[trigger] p.sites@[i]).site_key@ != k@),
                Err(e) => e == ChatError::KeyGenExhausted,
            },
    {
        let mut tries: u8 = 0;
        while tries < 5
            invariant
                store_wf(*p),
            decreases 5 - tries,
        {
            let key = generate_random_string(15);
            let mut i: usize = 0;
            let n = p.sites.len();
            let mut used = false;
            while i < n
                invariant
                    i <= n,
                    n == p.sites@.len(),
                    used == exists|j: int|
                        0 <= j < i && (#[trigger] p.sites@[j]).site_key@ == key@,
                decreases n - i,
            {
                if str_eq(p.sites[i].site_key.as_str(), key.as_str()) {
                    used = true;
                }
                i = i + 1;
            }
            if !used {
                return Ok(key);
            }
            tries = tries + 1;
        }
        Err(ChatError::KeyGenExhausted)
    }

    /// Open or resume a conversation: the one operation behind a visitor's
    /// arrival. With a confirmed site the call succeeds: a room already
    /// carrying the key is reactivated and returned — never duplicated —
    /// and a missing one is created under a fresh id; without a key one is
    /// generated (which alone may fail, on repeated random collisions). The
    /// one refusal left is a key held by another site's room, as the key
    /// column is unique.
    pub fn new_room(
        p: &mut Persistence,
        site_key: &str,
        room_key: Option<String>,
        now: u64,
    ) -> (r: Result<ChatRoom, ChatError>)
        requires
            store_wf(*old(p)),
            old(p).next_room_id < u64::MAX,
        ensures
            store_wf(*final(p)),
            final(p).sites@ == old(p).sites@,
            final(p).messages@ == old(p).messages@,
            final(p).next_message_id == old(p).next_message_id,
            r is Err ==> final(p).rooms@ == old(p).rooms@ && final(p).next_room_id == old(p).next_room_id,
            r == Err::<ChatRoom, ChatError>(ChatError::SiteNotFound) ==> confirmed_site_index(
                old(p).sites@,
                site_key@,
            ) is None,
            confirmed_site_index(old(p).sites@, site_key@) is None ==> r == Err::<
                ChatRoom,
                ChatError,
            >(ChatError::SiteNotFound) || r == Err::<ChatRoom, ChatError>(
                ChatError::KeyGenExhausted,
            ),
            confirmed_site_index(old(p).sites@, site_key@) is None && option_str_view(room_key)
                is Some ==> r == Err::<ChatRoom, ChatError>(ChatError::SiteNotFound),
            r == Err::<ChatRoom, ChatError>(ChatError::KeyGenExhausted) ==> option_str_view(
                room_key,
            ) is None,
            r == Err::<ChatRoom, ChatError>(ChatError::RoomInit) ==> (option_str_view(room_key)
                matches Some(k) && key_conflicts(*old(p), site_key@, k)),
            confirmed_site_index(old(p).sites@, site_key@) is Some ==> match option_str_view(
                room_key,
            ) {
                Some(k) => if key_conflicts(*old(p), site_key@, k) {
                    r == Err::<ChatRoom, ChatError>(ChatError::RoomInit)
                } else {
                    r is Ok
                },
                None => r is Ok || r == Err::<ChatRoom, ChatError>(ChatError::KeyGenExhausted),
            },
            r matches Ok(room) ==> ({
                &&& exists|si: int|
                    0 <= si < old(p).sites@.len() && (#[trigger] old(p).sites@[si]).site_key@
                        == site_key@ && old(p).sites@[si].status@ == "confirmed"@ && old(p).sites@[si].id == room.room_site_id
                &&& room.status@ == "active"@
                &&& (option_str_view(room_key) matches Some(k) ==> room.room_key@ == k)
                &&& match room_index_by_key(old(p).rooms@, room.room_key@) {
                    Some(i) => {
                        &&& old(p).rooms@[i].room_site_id == room.room_site_id
                        &&& room.id == old(p).rooms@[i].id
                        &&& final(p).rooms@.len() == old(p).rooms@.len()
                        &&& final(p).next_room_id == old(p).next_room_id
                        &&& forall|j: int|
                            0 <= j < old(p).rooms@.len() && j != i ==> final(p).rooms@[j] == old(p).rooms@[j]
                        &&& final(p).rooms@[i].status@ == "active"@
                        &&& final(p).rooms@[i].update_at == now
                        &&& room_same_but_status(old(p).rooms@[i], final(p).rooms@[i])
                        &&& room_view(room) == room_view(final(p).rooms@[i])
                    },
                    None => {
                        &&& room.id == old(p).next_room_id
                        &&& final(p).next_room_id == old(p).next_room_id + 1
                        &&& final(p).rooms@.len() == old(p).rooms@.len() + 1
                        &&& forall|j: int|
                            0 <= j < old(p).rooms@.len() ==> final(p).rooms@[j] == old(p).rooms@[j]
                        &&& room_view(room) == room_view(final(p).rooms@[old(p).rooms@.len() as int])
                        &&& room.create_at == now && room.update_at == now
                        &&& room.client_info is None
                    },
                }
            }),
            r matches Ok(room) && room_index_by_key(old(p).rooms@, room.room_key@) is Some
                ==> final(p).rooms@.len() == old(p).rooms@.len(),
    {
        let ghost given = option_str_view(room_key);
        let rkey: String = match room_key {
            Some(k) => k,
            None => {
                match Self::gen_room_key(p) {
                    Ok(k) => k,
                    Err(e) => {
                        return Err(e);
                    },
                }
            },
        };
        proof {
            if given is None {
                assert(room_index_by_key(p.rooms@, rkey@) is None);
            } else {
                assert(given == Some(rkey@));
            }
        }
        let si = match p.find_confirmed_site(site_key) {
            Some(i) => i,
            None => {
                return Err(ChatError::SiteNotFound);
            },
        };
        let site_id = p.sites[si].id;
        match p.find_room_by_key(rkey.as_str()) {
            Some(ri) => {
                proof {
                    assert(given == Some(rkey@));
                }
                if p.rooms[ri].room_site_id != site_id {
                    proof {
                        assert(key_conflicts(*p, site_key@, rkey@));
                    }
                    return Err(ChatError::RoomInit);
                }
                proof {
                    assert(!key_conflicts(*p, site_key@, rkey@));
                }
                let updated = ChatRoom {
                    id: p.rooms[ri].id,
                    room_key: p.rooms[ri].room_key.clone(),
                    status: "active".to_owned(),
                    room_site_id: p.rooms[ri].room_site_id,
                    client_info: clone_opt_string(&p.rooms[ri].client_info),
                    create_at: p.rooms[ri].create_at,
                    update_at: now,
                };
                let result = clone_room(&updated);
                p.rooms[ri] = updated;
                Ok(result)
            },
            None => {
                let id = p.next_room_id;
                p.next_room_id = p.next_room_id + 1;
                let row = ChatRoom {
                    id,
                    room_key: rkey,
                    status: "active".to_owned(),
                    room_site_id: site_id,
                    client_info: None,
                    create_at: now,
                    update_at: now,
                };
                let result = clone_room(&row);
                p.rooms.push(row);
                Ok(result)
            },
        }
    }

    /// Confirm a site on first load of its page script: some row carrying
    /// the key turns `confirmed`; true exactly when one exists.
    pub fn load_site(p: &mut Persistence, site_key: &str) -> (r: bool)
        requires
            store_wf(*old(p)),
        ensures
            store_wf(*final(p)),
            final(p).rooms@ == old(p).rooms@,
            final(p).messages@ == old(p).messages@,
            final(p).next_room_id == old(p).next_room_id,
            final(p).next_message_id == old(p).next_message_id,
            r == exists|i: int|
                0 <= i < old(p).sites@.len() && (#[trigger] old(p).sites@[i]).site_key@
                    == site_key@,
            !r ==> final(p).sites@ == old(p).sites@,
            r ==> exists|i: int|
                0 <= i < old(p).sites@.len() && (#[trigger] old(p).sites@[i]).site_key@ == site_key@
                    && final(p).sites@[i].status@ == "confirmed"@ && final(p).sites@[i].id == old(p).sites@[i].id && final(p).sites@[i].site_key@ == old(p).sites@[i].site_key@ && (
                forall|j: int|
                    0 <= j < old(p).sites@.len() && j != i ==> final(p).sites@[j] == old(p).sites@[j]),
    {
        let n = p.sites.len();
        let mut i: usize = 0;
        while i < n
            invariant
                i <= n,
                n == p.sites@.len(),
                store_wf(*p),
                p.sites@.len() == old(p).sites@.len(),
                p.rooms@ == old(p).rooms@,
                p.messages@ == old(p).messages@,
                p.next_room_id == old(p).next_room_id,
                p.next_message_id == old(p).next_message_id,
                p.sites@ == old(p).sites@,
                forall|j: int| 0 <= j < i ==> (#[trigger] p.sites@[j]).site_key@ != site_key@,
            decreases n - i,
        {
            if str_eq(p.sites[i].site_key.as_str(), site_key) {
                let updated = ChatWebsite {
                    id: p.sites[i].id,
                    site_key: p.sites[i].site_key.clone(),
                    status: "confirmed".to_owned(),
                    title: p.sites[i].title.clone(),
                };
                p.sites[i] = updated;
                return true;
            }
            i = i + 1;
        }
        false
    }

    /// Mark a room disconnected when its visitor drops.
    pub fn room_disconnect(p: &mut Persistence, room_id: u64, now: u64) -> (found: bool)
        requires
            store_wf(*old(p)),
        ensures
            store_wf(*final(p)),
            final(p).sites@ == old(p).sites@,
            final(p).messages@ == old(p).messages@,
            final(p).rooms@.len() == old(p).rooms@.len(),
            forall|i: int|
                0 <= i < old(p).rooms@.len() && (#[trigger] old(p).rooms@[i]).id != room_id ==>
                    final(p).rooms@[i] == old(p).rooms@[i],
            forall|i: int|
                0 <= i < old(p).rooms@.len() && (#[trigger] old(p).rooms@[i]).id == room_id ==>
                    final(p).rooms@[i].status@ == "disconnect"@ && final(p).rooms@[i].update_at
                    == now && room_same_but_status(old(p).rooms@[i], final(p).rooms@[i]),
            found == exists|i: int|
                0 <= i < old(p).rooms@.len() && (#[trigger] old(p).rooms@[i]).id == room_id,
    {
        p.set_room_status(room_id, "disconnect", now)
    }

    /// Persist one stamped message; the store assigns the row id.
    pub fn save_message(p: &mut Persistence, message: ChatMessage) -> (id: u64)
        requires
            store_wf(*old(p)),
            old(p).next_message_id < u64::MAX,
        ensures
            store_wf(*final(p)),
            final(p).sites@ == old(p).sites@,
            final(p).rooms@ == old(p).rooms@,
            final(p).next_room_id == old(p).next_room_id,
            final(p).next_message_id == old(p).next_message_id + 1,
            id == old(p).next_message_id,
            final(p).messages@.len() == old(p).messages@.len() + 1,
            forall|j: int|
                0 <= j < old(p).messages@.len() ==> final(p).messages@[j] == old(p).messages@[j],
            ({
                let stored = final(p).messages@.last();
                &&& stored.id == id
                &&& stored.name@ == message.name@
                &&& stored.user_id == message.user_id
                &&& stored.status@ == message.status@
                &&& stored.content@ == message.content@
                &&& stored.room_id == message.room_id
                &&& option_str_view(stored.str_files) == option_str_view(message.str_files)
                &&& stored.create_at == message.create_at
                &&& stored.update_at == message.update_at
            }),
    {
        let id = p.next_message_id;
        p.next_message_id = p.next_message_id + 1;
        let row = ChatMessage {
            id,
            name: message.name,
            user_id: message.user_id,
            status: message.status,
            content: message.content,
            room_id: message.room_id,
            str_files: message.str_files,
            create_at: message.create_at,
            update_at: message.update_at,
        };
        p.messages.push(row);
        id
    }

    /// An operator joins a room: every `sended` message of the room turns
    /// `readed`, and — when the room's site exists — the room's latest
    /// count is reset against the site's total unread. Nothing else moves.
    pub fn join_room(
        p: &mut Persistence,
        counter: &mut CounterStore,
        room: &ChatRoom,
        now: u64,
    ) -> (reset: bool)
        requires
            store_wf(*old(p)),
            old(counter).wf(),
            match site_index_by_id(old(p).sites@, room.room_site_id) {
                Some(i) => {
                    let sk = old(p).sites@[i].site_key@;
                    let rk = dec_str(room.id as nat);
                    &&& count_of(old(counter).counts_map(), latest_count_key_spec(sk, rk))
                        > i64::MIN
                    &&& i64::MIN <= count_of(
                        old(counter).counts_map(),
                        total_unread_key_spec(sk),
                    ) - count_of(old(counter).counts_map(), latest_count_key_spec(sk, rk))
                        <= i64::MAX
                },
                None => true,
            },
        ensures
            store_wf(*final(p)),
            final(counter).wf(),
            final(p).sites@ == old(p).sites@,
            final(p).rooms@ == old(p).rooms@,
            final(p).next_room_id == old(p).next_room_id,
            final(p).next_message_id == old(p).next_message_id,
            final(p).messages@.len() == old(p).messages@.len(),
            forall|i: int|
                0 <= i < old(p).messages@.len() && !((#[trigger] old(p).messages@[i]).room_id
                    == room.id && old(p).messages@[i].status@ == "sended"@) ==> final(p).messages@[i] == old(p).messages@[i],
            forall|i: int|
                0 <= i < old(p).messages@.len() && (#[trigger] old(p).messages@[i]).room_id
                    == room.id && old(p).messages@[i].status@ == "sended"@ ==> final(p).messages@[i].status@ == "readed"@ && final(p).messages@[i].update_at == now
                    && msg_same_but_status(old(p).messages@[i], final(p).messages@[i]),
            reset == site_index_by_id(old(p).sites@, room.room_site_id) is Some,
            match site_index_by_id(old(p).sites@, room.room_site_id) {
                Some(i) => {
                    let sk = old(p).sites@[i].site_key@;
                    let rk = dec_str(room.id as nat);
                    &&& final(counter).counts_map() == old(counter).counts_map().insert(
                        total_unread_key_spec(sk),
                        (count_of(old(counter).counts_map(), total_unread_key_spec(sk)) - count_of(
                            old(counter).counts_map(),
                            latest_count_key_spec(sk, rk),
                        )) as i64,
                    ).insert(latest_count_key_spec(sk, rk), 0)
                    &&& final(counter).texts_map() == old(counter).texts_map()
                },
                None => final(counter).counts_map() == old(counter).counts_map() && final(counter).texts_map() == old(counter).texts_map(),
            },
    {
        let n = p.messages.len();
        let mut i: usize = 0;
        while i < n
            invariant
                i <= n,
                n == p.messages@.len(),
                p.sites@ == old(p).sites@,
                p.rooms@ == old(p).rooms@,
                p.next_room_id == old(p).next_room_id,
                p.next_message_id == old(p).next_message_id,
                p.messages@.len() == old(p).messages@.len(),
                store_wf(*p),
                forall|j: int|
                    i <= j < old(p).messages@.len() ==> #[trigger] p.messages@[j] == old(p).messages@[j],
                forall|j: int|
                    0 <= j < i && !((#[trigger] old(p).messages@[j]).room_id == room.id && old(p).messages@[j].status@ == "sended"@) ==> p.messages@[j] == old(p).messages@[j],
                forall|j: int|
                    0 <= j < i && (#[trigger] old(p).messages@[j]).room_id == room.id && old(p).messages@[j].status@ == "sended"@ ==> p.messages@[j].status@ == "readed"@
                        && p.messages@[j].update_at == now && msg_same_but_status(
                        old(p).messages@[j],
                        p.messages@[j],
                    ),
            decreases n - i,
        {
            if p.messages[i].room_id == room.id && str_eq(p.messages[i].status.as_str(), "sended")
            {
                let updated = ChatMessage {
                    id: p.messages[i].id,
                    name: p.messages[i].name.clone(),
                    user_id: p.messages[i].user_id,
                    status: "readed".to_owned(),
                    content: p.messages[i].content.clone(),
                    room_id: p.messages[i].room_id,
                    str_files: clone_opt_string(&p.messages[i].str_files),
                    create_at: p.messages[i].create_at,
                    update_at: now,
                };
                p.messages[i] = updated;
            }
            i = i + 1;
        }
        match p.find_site_by_id(room.room_site_id) {
            Some(si) => {
                let room_id_str = u64_to_string(room.id);
                MessageStatusManager::reset_latest_count(
                    counter,
                    p.sites[si].site_key.as_str(),
                    room_id_str.as_str(),
                );
                true
            },
            None => false,
        }
    }
}

/// Whether a room row counts as recently active for a site: active status
/// and touched within the window before `now`.
pub open spec fn room_recently_active(r: ChatRoom, site_id: u64, now: u64, window: u64) -> bool {
    r.room_site_id == site_id && r.status@ == "active"@ && r.update_at + window >= now
}

impl Persistence {
    /// Record client metadata on the room with this id; true when the row
    /// exists. Only that row moves, and only its client info and update
    /// stamp.
    pub fn set_room_client_info(&mut self, room_id: u64, info: &str, now: u64) -> (found: bool)
        requires
            store_wf(*old(self)),
        ensures
            store_wf(*final(self)),
            final(self).sites@ == old(self).sites@,
            final(self).messages@ == old(self).messages@,
            final(self).next_room_id == old(self).next_room_id,
            final(self).next_message_id == old(self).next_message_id,
            final(self).rooms@.len() == old(self).rooms@.len(),
            forall|i: int|
                0 <= i < old(self).rooms@.len() && (#[trigger] old(self).rooms@[i]).id != room_id
                    ==> final(self).rooms@[i] == old(self).rooms@[i],
            forall|i: int|
                0 <= i < old(self).rooms@.len() && (#[trigger] old(self).rooms@[i]).id == room_id
                    ==> option_str_view(final(self).rooms@[i].client_info) == Some(info@) && final(self).rooms@[i].update_at == now && final(self).rooms@[i].id == old(self).rooms@[i].id
                    && final(self).rooms@[i].room_key@ == old(self).rooms@[i].room_key@ && final(self).rooms@[i].status@ == old(self).rooms@[i].status@ && final(self).rooms@[i].room_site_id == old(self).rooms@[i].room_site_id && final(self).rooms@[i].create_at == old(self).rooms@[i].create_at,
            found == exists|i: int|
                0 <= i < old(self).rooms@.len() && (#[trigger] old(self).rooms@[i]).id == room_id,
    {
        let n = self.rooms.len();
        let mut i: usize = 0;
        let mut found = false;
        while i < n
            invariant
                i <= n,
                n == self.rooms@.len(),
                self.sites@ == old(self).sites@,
                self.messages@ == old(self).messages@,
                self.next_room_id == old(self).next_room_id,
                self.next_message_id == old(self).next_message_id,
                self.rooms@.len() == old(self).rooms@.len(),
                forall|j: int|
                    0 <= j < old(self).rooms@.len() ==> (#[trigger] self.rooms@[j]).id == old(self).rooms@[j].id && self.rooms@[j].room_key@ == old(self).rooms@[j].room_key@,
                forall|j: int|
                    i <= j < old(self).rooms@.len() ==> #[trigger] self.rooms@[j] == old(self).rooms@[j],
                forall|j: int|
                    0 <= j < i && (#[trigger] old(self).rooms@[j]).id != room_id ==> self.rooms@[j]
                        == old(self).rooms@[j],
                forall|j: int|
                    0 <= j < i && (#[trigger] old(self).rooms@[j]).id == room_id ==>
                        option_str_view(self.rooms@[j].client_info) == Some(info@)
                        && self.rooms@[j].update_at == now && self.rooms@[j].id == old(self).rooms@[j].id && self.rooms@[j].room_key@ == old(self).rooms@[j].room_key@
                        && self.rooms@[j].status@ == old(self).rooms@[j].status@
                        && self.rooms@[j].room_site_id == old(self).rooms@[j].room_site_id
                        && self.rooms@[j].create_at == old(self).rooms@[j].create_at,
                found == exists|j: int|
                    0 <= j < i && (#[trigger] old(self).rooms@[j]).id == room_id,
            decreases n - i,
        {
            if self.rooms[i].id == room_id {
                let updated = ChatRoom {
                    id: self.rooms[i].id,
                    room_key: self.rooms[i].room_key.clone(),
                    status: self.rooms[i].status.clone(),
                    room_site_id: self.rooms[i].room_site_id,
                    client_info: Some(info.to_owned()),
                    create_at: self.rooms[i].create_at,
                    update_at: now,
                };
                self.rooms[i] = updated;
                found = true;
            }
            i = i + 1;
        }
        found
    }

    /// The hub keys — decimal row ids — of the site's recently active
    /// rooms, in table order: what the notification assembler enumerates.
    pub fn active_room_keys(&self, site_id: u64, now: u64, window: u64) -> (r: Vec<String>)
        requires
            store_wf(*self),
        ensures
            r@.map_values(|s: String| s@) == self.rooms@.filter(
                |rm: ChatRoom| room_recently_active(rm, site_id, now, window),
            ).map_values(|rm: ChatRoom| dec_str(rm.id as nat)),
    {
        let ghost pred = |rm: ChatRoom| room_recently_active(rm, site_id, now, window);
        let n = self.rooms.len();
        let mut r: Vec<String> = Vec::new();
        let mut i: usize = 0;
        proof {
            assert(self.rooms@.subrange(0, 0) =~= Seq::<ChatRoom>::empty());
            reveal(Seq::filter);
            assert(r@.map_values(|s: String| s@) =~= self.rooms@.subrange(0, 0).filter(
                pred,
            ).map_values(|rm: ChatRoom| dec_str(rm.id as nat)));
        }
        while i < n
            invariant
                i <= n,
                n == self.rooms@.len(),
                store_wf(*self),
                pred == (|rm: ChatRoom| room_recently_active(rm, site_id, now, window)),
                r@.map_values(|s: String| s@) == self.rooms@.subrange(0, i as int).filter(
                    pred,
                ).map_values(|rm: ChatRoom| dec_str(rm.id as nat)),
            decreases n - i,
        {
            proof {
                reveal(Seq::filter);
                assert(self.rooms@.subrange(0, i as int + 1).drop_last() =~= self.rooms@.subrange(
                    0,
                    i as int,
                ));
                assert(self.rooms@.subrange(0, i as int + 1).last() == self.rooms@[i as int]);
            }
            let rm = &self.rooms[i];
            if rm.room_site_id == site_id && str_eq(rm.status.as_str(), "active") && (
            rm.update_at >= now || now - rm.update_at <= window) {
                let ghost prev = r@.map_values(|s: String| s@);
                r.push(u64_to_string(rm.id));
                proof {
                    assert(pred(self.rooms@[i as int]));
                    assert(r@.map_values(|s: String| s@) =~= prev.push(
                        dec_str(self.rooms@[i as int].id as nat),
                    ));
                    assert(self.rooms@.subrange(0, i as int + 1).filter(pred).map_values(
                        |rm: ChatRoom| dec_str(rm.id as nat),
                    ) =~= prev.push(dec_str(self.rooms@[i as int].id as nat)));
                }
            } else {
                proof {
                    assert(!pred(self.rooms@[i as int]));
                }
            }
            i = i + 1;
        }
        proof {
            assert(self.rooms@.subrange(0, n as int) =~= self.rooms@);
        }
        r
    }
}

/// The messages of a room at or before the time bound, in table order.
pub open spec fn selected_messages(s: Seq<ChatMessage>, room_id: u64, ts: u64) -> Seq<
    ChatMessage,
> {
    s.filter(|m: ChatMessage| msg_selected(m, room_id, ts))
}

/// The rooms of a site, in table order.
pub open spec fn site_rooms_of(s: Seq<ChatRoom>, site_id: u64) -> Seq<ChatRoom> {
    s.filter(|rm: ChatRoom| rm.room_site_id == site_id)
}

/// Chronology survives selection: filtering a message table whose stamps
/// never decrease leaves the stamps never decreasing.
proof fn lemma_msgs_filter_chrono(s: Seq<ChatMessage>, room_id: u64, ts: u64)
    requires
        forall|i: int, j: int|
            0 <= i < j < s.len() ==> (#[trigger] s[i]).create_at <= (#[trigger] s[j]).create_at,
    ensures
        forall|i: int, j: int|
            0 <= i < j < selected_messages(s, room_id, ts).len() ==> (
            #[trigger] selected_messages(s, room_id, ts)[i]).create_at <= (
            #[trigger] selected_messages(s, room_id, ts)[j]).create_at,
    decreases s.len(),
{
    reveal(Seq::filter);
    if s.len() > 0 {
        let d = s.drop_last();
        assert(forall|i: int, j: int|
            0 <= i < j < d.len() ==> (#[trigger] d[i]).create_at <= (#[trigger] d[j]).create_at);
        lemma_msgs_filter_chrono(d, room_id, ts);
        let f = selected_messages(s, room_id, ts);
        let fd = selected_messages(d, room_id, ts);
        assert forall|i: int, j: int| 0 <= i < j < f.len() implies (#[trigger] f[i]).create_at <= (
        #[trigger] f[j]).create_at by {
            if j < fd.len() {
                assert(f[i] == fd[i] && f[j] == fd[j]);
            } else {
                assert(f[j] == s.last());
                assert(f[i] == fd[i]);
                assert(fd.contains(fd[i]));
                assert(d.contains(fd[i])) by {
                    lemma_msgs_filter_sub(d, room_id, ts);
                }
                let w = choose|w: int| 0 <= w < d.len() && d[w] == fd[i];
                assert(s[w] == fd[i]);
                assert(s[w].create_at <= s[s.len() - 1].create_at);
            }
        }
    }
}

/// Every selected message was in the table.
proof fn lemma_msgs_filter_sub(s: Seq<ChatMessage>, room_id: u64, ts: u64)
    ensures
        forall|i: int|
            0 <= i < selected_messages(s, room_id, ts).len() ==> s.contains(
                #[trigger] selected_messages(s, room_id, ts)[i],
            ),
    decreases s.len(),
{
    reveal(Seq::filter);
    if s.len() > 0 {
        let d = s.drop_last();
        lemma_msgs_filter_sub(d, room_id, ts);
        let f = selected_messages(s, room_id, ts);
        let fd = selected_messages(d, room_id, ts);
        assert forall|i: int| 0 <= i < f.len() implies s.contains(#[trigger] f[i]) by {
            if i < fd.len() {
                assert(f[i] == fd[i]);
                assert(d.contains(fd[i]));
                let w = choose|w: int| 0 <= w < d.len() && d[w] == fd[i];
                assert(s[w] == fd[i]);
            } else {
                assert(f[i] == s.last());
                assert(s[s.len() - 1] == s.last());
            }
        }
    }
}

/// Chronology survives selection on the room table as well.
proof fn lemma_rooms_filter_chrono(s: Seq<ChatRoom>, site_id: u64)
    requires
        forall|i: int, j: int|
            0 <= i < j < s.len() ==> (#[trigger] s[i]).create_at <= (#[trigger] s[j]).create_at,
    ensures
        forall|i: int, j: int|
            0 <= i < j < site_rooms_of(s, site_id).len() ==> (
            #[trigger] site_rooms_of(s, site_id)[i]).create_at <= (
            #[trigger] site_rooms_of(s, site_id)[j]).create_at,
    decreases s.len(),
{
    reveal(Seq::filter);
    if s.len() > 0 {
        let d = s.drop_last();
        assert(forall|i: int, j: int|
            0 <= i < j < d.len() ==> (#[trigger] d[i]).create_at <= (#[trigger] d[j]).create_at);
        lemma_rooms_filter_chrono(d, site_id);
        let f = site_rooms_of(s, site_id);
        let fd = site_rooms_of(d, site_id);
        assert forall|i: int, j: int| 0 <= i < j < f.len() implies (#[trigger] f[i]).create_at <= (
        #[trigger] f[j]).create_at by {
            if j < fd.len() {
                assert(f[i] == fd[i] && f[j] == fd[j]);
            } else {
                assert(f[j] == s.last());
                assert(f[i] == fd[i]);
                assert(fd.contains(fd[i]));
                assert(d.contains(fd[i])) by {
                    lemma_rooms_filter_sub(d, site_id);
                }
                let w = choose|w: int| 0 <= w < d.len() && d[w] == fd[i];
                assert(s[w] == fd[i]);
                assert(s[w].create_at <= s[s.len() - 1].create_at);
            }
        }
    }
}

/// Every selected room was in the table.
proof fn lemma_rooms_filter_sub(s: Seq<ChatRoom>, site_id: u64)
    ensures
        forall|i: int|
            0 <= i < site_rooms_of(s, site_id).len() ==> s.contains(
                #[trigger] site_rooms_of(s, site_id)[i],
            ),
    decreases s.len(),
{
    reveal(Seq::filter);
    if s.len() > 0 {
        let d = s.drop_last();
        lemma_rooms_filter_sub(d, site_id);
        let f = site_rooms_of(s, site_id);
        let fd = site_rooms_of(d, site_id);
        assert forall|i: int| 0 <= i < f.len() implies s.contains(#[trigger] f[i]) by {
            if i < fd.len() {
                assert(f[i] == fd[i]);
                assert(d.contains(fd[i]));
                let w = choose|w: int| 0 <= w < d.len() && d[w] == fd[i];
                assert(s[w] == fd[i]);
            } else {
                assert(f[i] == s.last());
                assert(s[s.len() - 1] == s.last());
            }
        }
    }
}

/// The views of a message table.
pub open spec fn msgs_views(s: Seq<ChatMessage>) -> Seq<
    (u64, Seq<char>, Option<u64>, Seq<char>, Seq<char>, u64, Option<Seq<char>>, u64, u64),
> {
    s.map_values(|m: ChatMessage| msg_view(m))
}

/// The views of a room table.
pub open spec fn rooms_views(s: Seq<ChatRoom>) -> Seq<
    (u64, Seq<char>, Seq<char>, u64, Option<Seq<char>>, u64, u64),
> {
    s.map_values(|r: ChatRoom| room_view(r))
}

/// Clamp `x` into `[0, n]`.
pub open spec fn clamp_to(x: int, n: int) -> int {
    if x > n {
        n
    } else {
        x
    }
}

impl ChatService {
    /// The page of a room's history at or before `ts`, newest first:
    /// the selected messages in reverse table order, skipping the earlier
    /// pages.
    pub fn list_messages(
        p: &Persistence,
        room_id: u64,
        page: usize,
        page_num: usize,
        ts: u64,
    ) -> (r: Vec<ChatMessage>)
        requires
            store_wf(*p),
            page >= 1,
            (page - 1) * page_num <= usize::MAX,
        ensures
            ({
                let des = msgs_views(selected_messages(p.messages@, room_id, ts)).reverse();
                let skip = clamp_to((page - 1) * page_num, des.len() as int);
                let end = clamp_to(skip + page_num, des.len() as int);
                msgs_views(r@) == des.subrange(skip, end)
            }),
            (forall|i: int, j: int|
                0 <= i < j < p.messages@.len() ==> (#[trigger] p.messages@[i]).create_at <= (
                #[trigger] p.messages@[j]).create_at) ==> forall|i: int, j: int|
                0 <= i < j < r@.len() ==> (#[trigger] r@[i]).create_at >= (
                #[trigger] r@[j]).create_at,
    {
        let ghost pred = |m: ChatMessage| msg_selected(m, room_id, ts);
        let n = p.messages.len();
        let mut full: Vec<ChatMessage> = Vec::new();
        let mut i: usize = 0;
        proof {
            assert(p.messages@.subrange(0, 0) =~= Seq::<ChatMessage>::empty());
            reveal(Seq::filter);
            assert(msgs_views(full@) =~= msgs_views(p.messages@.subrange(0, 0).filter(pred)));
        }
        while i < n
            invariant
                i <= n,
                n == p.messages@.len(),
                store_wf(*p),
                pred == (|m: ChatMessage| msg_selected(m, room_id, ts)),
                msgs_views(full@) == msgs_views(p.messages@.subrange(0, i as int).filter(pred)),
            decreases n - i,
        {
            proof {
                reveal(Seq::filter);
                assert(p.messages@.subrange(0, i as int + 1).drop_last() =~= p.messages@.subrange(
                    0,
                    i as int,
                ));
                assert(p.messages@.subrange(0, i as int + 1).last() == p.messages@[i as int]);
            }
            let m = &p.messages[i];
            if m.room_id == room_id && m.create_at <= ts {
                let ghost prev = msgs_views(full@);
                full.push(clone_message(m));
                proof {
                    assert(pred(p.messages@[i as int]));
                    assert(msgs_views(full@) =~= prev.push(msg_view(p.messages@[i as int])));
                    assert(msgs_views(p.messages@.subrange(0, i as int + 1).filter(pred))
                        =~= prev.push(msg_view(p.messages@[i as int])));
                }
            } else {
                proof {
                    assert(!pred(p.messages@[i as int]));
                }
            }
            i = i + 1;
        }
        proof {
            assert(p.messages@.subrange(0, n as int) =~= p.messages@);
        }
        let ghost des = msgs_views(p.messages@.filter(pred)).reverse();
        let des_len = full.len();
        proof {
            assert(msgs_views(full@).len() == des.len());
        }
        let skip: usize = (page - 1) * page_num;
        let mut out: Vec<ChatMessage> = Vec::new();
        let mut k: usize = 0;
        let ghost start = clamp_to(skip as int, des.len() as int);
        while k < page_num && skip + k < des_len && skip <= usize::MAX - k
            invariant
                k <= page_num,
                des_len == des.len(),
                des_len == full@.len(),
                msgs_views(full@) == msgs_views(p.messages@.filter(pred)),
                des == msgs_views(p.messages@.filter(pred)).reverse(),
                start == clamp_to(skip as int, des.len() as int),
                skip as int + k <= des.len() || k == 0,
                start + k <= des.len(),
                k > 0 ==> skip as int == start,
                msgs_views(out@) == des.subrange(start, start + k),
            decreases page_num - k,
        {
            let ghost prev = msgs_views(out@);
            let idx: usize = des_len - 1 - (skip + k);
            out.push(clone_message(&full[idx]));
            proof {
                assert(des[skip as int + k] == msgs_views(full@)[des.len() - 1 - (skip as int
                    + k)]);
                assert(msgs_views(out@) =~= prev.push(msg_view(full@[idx as int])));
                assert(msgs_views(out@) =~= des.subrange(start, start + k + 1));
            }
            k = k + 1;
        }
        proof {
            let end = clamp_to(start + page_num, des.len() as int);
            assert(msgs_views(out@) =~= des.subrange(start, end)) by {
                if k == page_num {
                    assert(start + k == end || (k > 0 && skip as int + k <= des.len() && start + k
                        <= end));
                    assert(start + k == end);
                } else {
                    assert(skip as int + k >= des.len() || skip > usize::MAX - k);
                    assert(start + k == end);
                }
            }
            if forall|i: int, j: int|
                0 <= i < j < p.messages@.len() ==> (#[trigger] p.messages@[i]).create_at <= (
                #[trigger] p.messages@[j]).create_at {
                lemma_msgs_filter_chrono(p.messages@, room_id, ts);
                let filtered = selected_messages(p.messages@, room_id, ts);
                assert forall|i: int, j: int| 0 <= i < j < out@.len() implies (
                #[trigger] out@[i]).create_at >= (#[trigger] out@[j]).create_at by {
                    let wi = des.len() - 1 - (start + i);
                    let wj = des.len() - 1 - (start + j);
                    assert(msgs_views(out@)[i] == msg_view(out@[i]));
                    assert(msgs_views(out@)[i] == des[start + i]);
                    assert(des[start + i] == msgs_views(filtered)[wi]);
                    assert(msg_view(out@[i]) == msg_view(filtered[wi]));
                    assert(msgs_views(out@)[j] == msg_view(out@[j]));
                    assert(msgs_views(out@)[j] == des[start + j]);
                    assert(des[start + j] == msgs_views(filtered)[wj]);
                    assert(msg_view(out@[j]) == msg_view(filtered[wj]));
                    assert(filtered[wj].create_at <= filtered[wi].create_at);
                }
            }
        }
        out
    }

    /// One page of a site's rooms in table order, and how many the site
    /// has in all.
    pub fn list_rooms(p: &Persistence, site_id: u64, page: usize, page_num: usize) -> (r: (
        Vec<ChatRoom>,
        usize,
    ))
        requires
            store_wf(*p),
            page >= 1,
            (page - 1) * page_num <= usize::MAX,
        ensures
            ({
                let all = rooms_views(site_rooms_of(p.rooms@, site_id));
                let skip = clamp_to((page - 1) * page_num, all.len() as int);
                let end = clamp_to(skip + page_num, all.len() as int);
                rooms_views(r.0@) == all.subrange(skip, end) && r.1 == all.len()
            }),
            (forall|i: int, j: int|
                0 <= i < j < p.rooms@.len() ==> (#[trigger] p.rooms@[i]).create_at <= (
                #[trigger] p.rooms@[j]).create_at) ==> forall|i: int, j: int|
                0 <= i < j < r.0@.len() ==> (#[trigger] r.0@[i]).create_at <= (
                #[trigger] r.0@[j]).create_at,
    {
        let ghost pred = |rm: ChatRoom| rm.room_site_id == site_id;
        let n = p.rooms.len();
        let mut full: Vec<ChatRoom> = Vec::new();
        let mut i: usize = 0;
        proof {
            assert(p.rooms@.subrange(0, 0) =~= Seq::<ChatRoom>::empty());
            reveal(Seq::filter);
            assert(rooms_views(full@) =~= rooms_views(p.rooms@.subrange(0, 0).filter(pred)));
        }
        while i < n
            invariant
                i <= n,
                n == p.rooms@.len(),
                store_wf(*p),
                pred == (|rm: ChatRoom| rm.room_site_id == site_id),
                rooms_views(full@) == rooms_views(p.rooms@.subrange(0, i as int).filter(pred)),
            decreases n - i,
        {
            proof {
                reveal(Seq::filter);
                assert(p.rooms@.subrange(0, i as int + 1).drop_last() =~= p.rooms@.subrange(
                    0,
                    i as int,
                ));
                assert(p.rooms@.subrange(0, i as int + 1).last() == p.rooms@[i as int]);
            }
            let rm = &p.rooms[i];
            if rm.room_site_id == site_id {
                let ghost prev = rooms_views(full@);
                full.push(clone_room(rm));
                proof {
                    assert(pred(p.rooms@[i as int]));
                    assert(rooms_views(full@) =~= prev.push(room_view(p.rooms@[i as int])));
                    assert(rooms_views(p.rooms@.subrange(0, i as int + 1).filter(pred))
                        =~= prev.push(room_view(p.rooms@[i as int])));
                }
            } else {
                proof {
                    assert(!pred(p.rooms@[i as int]));
                }
            }
            i = i + 1;
        }
        proof {
            assert(p.rooms@.subrange(0, n as int) =~= p.rooms@);
        }
        let ghost all = rooms_views(p.rooms@.filter(pred));
        let total = full.len();
        let skip: usize = (page - 1) * page_num;
        let mut out: Vec<ChatRoom> = Vec::new();
        let mut k: usize = 0;
        let ghost start = clamp_to(skip as int, all.len() as int);
        while k < page_num && skip + k < total && skip <= usize::MAX - k
            invariant
                k <= page_num,
                total == all.len(),
                total == full@.len(),
                rooms_views(full@) == rooms_views(p.rooms@.filter(pred)),
                all == rooms_views(p.rooms@.filter(pred)),
                start == clamp_to(skip as int, all.len() as int),
                skip as int + k <= all.len() || k == 0,
                start + k <= all.len(),
                k > 0 ==> skip as int == start,
                rooms_views(out@) == all.subrange(start, start + k),
            decreases page_num - k,
        {
            let ghost prev = rooms_views(out@);
            let idx: usize = skip + k;
            out.push(clone_room(&full[idx]));
            proof {
                assert(rooms_views(out@) =~= prev.push(room_view(full@[idx as int])));
                assert(rooms_views(out@) =~= all.subrange(start, start + k + 1));
            }
            k = k + 1;
        }
        proof {
            let end = clamp_to(start + page_num, all.len() as int);
            assert(rooms_views(out@) =~= all.subrange(start, end)) by {
                if k == page_num {
                    assert(start + k == end);
                } else {
                    assert(skip as int + k >= all.len() || skip > usize::MAX - k);
                    assert(start + k == end);
                }
            }
            if forall|i: int, j: int|
                0 <= i < j < p.rooms@.len() ==> (#[trigger] p.rooms@[i]).create_at <= (
                #[trigger] p.rooms@[j]).create_at {
                lemma_rooms_filter_chrono(p.rooms@, site_id);
                let filtered = site_rooms_of(p.rooms@, site_id);
                assert forall|i: int, j: int| 0 <= i < j < out@.len() implies (
                #[trigger] out@[i]).create_at <= (#[trigger] out@[j]).create_at by {
                    assert(rooms_views(out@)[i] == room_view(out@[i]));
                    assert(rooms_views(out@)[i] == all[start + i]);
                    assert(all[start + i] == room_view(filtered[start + i]));
                    assert(room_view(out@[i]) == room_view(filtered[start + i]));
                    assert(rooms_views(out@)[j] == room_view(out@[j]));
                    assert(rooms_views(out@)[j] == all[start + j]);
                    assert(all[start + j] == room_view(filtered[start + j]));
                    assert(room_view(out@[j]) == room_view(filtered[start + j]));
                    assert(filtered[start + i].create_at <= filtered[start + j].create_at);
                }
            }
        }
        (out, total)
    }
}
} // verus!
