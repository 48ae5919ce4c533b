//! The relay hub: the one serialized authority over connections, room
//! membership, the per-site operator binding, and the site-room cache.
//!
//! Every operation is specified as a pure transition on `HubState`, the
//! mathematical view of the hub; the executable methods are proved to
//! implement exactly those transitions, and the transition functions carry
//! the laws: registering and then unregistering a visitor leaves every map
//! as it was, and a site never holds more than one operator binding.

use vstd::prelude::*;

use crate::key_table::KeyTable;
use crate::util::{copy_ids, copy_strings, str_eq, vec_contains_str};

verus! {

/// The mathematical view of the hub.
pub struct HubState {
    /// The next connection id to hand out; ids already handed out are below.
    pub next_id: usize,
    /// The ids of the live connections.
    pub conns: Seq<usize>,
    /// Membership: room key to the member connection ids.
    pub rooms: Map<Seq<char>, Seq<usize>>,
    /// The operator binding: site key to the room watched and the operator's
    /// connection id.
    pub bindings: Map<Seq<char>, (Seq<char>, usize)>,
    /// The cache of rooms with a recently active visitor, per site.
    pub site_rooms: Map<Seq<char>, Seq<Seq<char>>>,
}

pub open spec fn ids_distinct(s: Seq<usize>) -> bool {
    forall|i: int, j: int| 0 <= i < j < s.len() ==> s[i] != s[j]
}

pub open spec fn keys_distinct(s: Seq<Seq<char>>) -> bool {
    forall|i: int, j: int| 0 <= i < j < s.len() ==> s[i] != s[j]
}

/// The hub invariant: ids are unique and below the allocator mark, every
/// membership list is non-empty, duplicate-free and made of live
/// connections, and every cached room list is non-empty and duplicate-free.
pub open spec fn wf_state(s: HubState) -> bool {
    &&& ids_distinct(s.conns)
    &&& forall|i: int| 0 <= i < s.conns.len() ==> (#[trigger] s.conns[i]) < s.next_id
    &&& forall|k: Seq<char>|
        #[trigger] s.rooms.contains_key(k) ==> s.rooms[k].len() > 0 && ids_distinct(s.rooms[k])
    &&& forall|k: Seq<char>, i: int|
        s.rooms.contains_key(k) && 0 <= i < s.rooms[k].len() ==> s.conns.contains(
            #[trigger] s.rooms[k][i],
        )
    &&& forall|k: Seq<char>|
        #[trigger] s.site_rooms.contains_key(k) ==> s.site_rooms[k].len() > 0 && keys_distinct(
            s.site_rooms[k],
        )
}

/// The members of room `k`, or nothing where the room has no entry.
pub open spec fn members_or_empty(m: Map<Seq<char>, Seq<usize>>, k: Seq<char>) -> Seq<usize> {
    if m.contains_key(k) {
        m[k]
    } else {
        Seq::empty()
    }
}

/// `s` with every occurrence of `id` gone.
pub open spec fn seq_without(s: Seq<usize>, id: usize) -> Seq<usize> {
    s.filter(|m: usize| m != id)
}

/// `s` with every occurrence of the name `k` gone.
pub open spec fn names_without(s: Seq<Seq<char>>, k: Seq<char>) -> Seq<Seq<char>> {
    s.filter(|n: Seq<char>| n != k)
}

/// Every membership list with `id` gone, entries left empty dropped.
pub open spec fn rooms_without(m: Map<Seq<char>, Seq<usize>>, id: usize) -> Map<
    Seq<char>,
    Seq<usize>,
> {
    Map::new(
        |k: Seq<char>| m.contains_key(k) && seq_without(m[k], id).len() > 0,
        |k: Seq<char>| seq_without(m[k], id),
    )
}

/// The site-room cache after a room is seen on a site: appended where new,
/// untouched where already cached.
pub open spec fn site_rooms_after_add(
    m: Map<Seq<char>, Seq<Seq<char>>>,
    site: Seq<char>,
    room: Seq<char>,
) -> Map<Seq<char>, Seq<Seq<char>>> {
    if !m.contains_key(site) {
        m.insert(site, seq![room])
    } else if m[site].contains(room) {
        m
    } else {
        m.insert(site, m[site].push(room))
    }
}

/// The site-room cache after a room leaves a site; an entry left empty is
/// dropped.
pub open spec fn site_rooms_after_remove(
    m: Map<Seq<char>, Seq<Seq<char>>>,
    site: Seq<char>,
    room: Seq<char>,
) -> Map<Seq<char>, Seq<Seq<char>>> {
    if m.contains_key(site) {
        if names_without(m[site], room).len() > 0 {
            m.insert(site, names_without(m[site], room))
        } else {
            m.remove(site)
        }
    } else {
        m
    }
}

/// Registration: a fresh id joins the connection set and the room's
/// membership, the room is cached for the site, and an operator's arrival
/// installs or overwrites the site's single binding.
pub open spec fn register_st(
    s: HubState,
    site: Seq<char>,
    room: Seq<char>,
    is_operator: bool,
) -> HubState {
    HubState {
        next_id: (s.next_id + 1) as usize,
        conns: s.conns.push(s.next_id),
        rooms: s.rooms.insert(room, members_or_empty(s.rooms, room).push(s.next_id)),
        bindings: if is_operator {
            s.bindings.insert(site, (room, s.next_id))
        } else {
            s.bindings
        },
        site_rooms: site_rooms_after_add(s.site_rooms, site, room),
    }
}

/// Deregistration: the id leaves the connection set and every membership
/// list; an operator's departure clears the site's binding only while it
/// still points at this very connection; a visitor's departure drops the
/// room from the site's cache.
pub open spec fn unregister_st(
    s: HubState,
    id: usize,
    site: Seq<char>,
    room: Seq<char>,
    is_operator: bool,
) -> HubState {
    HubState {
        next_id: s.next_id,
        conns: seq_without(s.conns, id),
        rooms: rooms_without(s.rooms, id),
        bindings: if is_operator && s.bindings.contains_key(site) && s.bindings[site].1 == id {
            s.bindings.remove(site)
        } else {
            s.bindings
        },
        site_rooms: if is_operator {
            s.site_rooms
        } else {
            site_rooms_after_remove(s.site_rooms, site, room)
        },
    }
}

/// Room switch: the id moves out of every membership list and into the new
/// room's; an operator's switch installs or overwrites the site's binding
/// to point at the new room — keeping the bound connection where one was
/// installed, and binding the switching connection otherwise.
pub open spec fn switch_st(
    s: HubState,
    id: usize,
    new_room: Seq<char>,
    is_operator: bool,
    site: Seq<char>,
) -> HubState {
    HubState {
        next_id: s.next_id,
        conns: s.conns,
        rooms: rooms_without(s.rooms, id).insert(
            new_room,
            seq_without(members_or_empty(s.rooms, new_room), id).push(id),
        ),
        bindings: if is_operator {
            s.bindings.insert(
                site,
                (
                    new_room,
                    if s.bindings.contains_key(site) {
                        s.bindings[site].1
                    } else {
                        id
                    },
                ),
            )
        } else {
            s.bindings
        },
        site_rooms: s.site_rooms,
    }
}

/// The hub itself.
pub struct Hub {
    next_id: usize,
    conns: Vec<usize>,
    rooms: KeyTable<Vec<usize>>,
    bindings: KeyTable<(String, usize)>,
    site_rooms: KeyTable<Vec<String>>,
}

impl Hub {
    /// The mathematical view of this hub.
    pub closed spec fn state(self) -> HubState {
        HubState {
            next_id: self.next_id,
            conns: self.conns@,
            rooms: self.rooms@.map_values(|v: Vec<usize>| v@),
            bindings: self.bindings@.map_values(|p: (String, usize)| (p.0@, p.1)),
            site_rooms: self.site_rooms@.map_values(
                |v: Vec<String>| v@.map_values(|s: String| s@),
            ),
        }
    }

    /// Representation well-formedness together with the state invariant.
    pub closed spec fn inv(self) -> bool {
        &&& self.rooms.wf()
        &&& self.bindings.wf()
        &&& self.site_rooms.wf()
        &&& wf_state(self.state())
    }

    pub fn new() -> (r: Hub)
        ensures
            r.inv(),
            r.state().next_id == 0,
            r.state().conns == Seq::<usize>::empty(),
            r.state().rooms == Map::<Seq<char>, Seq<usize>>::empty(),
            r.state().bindings == Map::<Seq<char>, (Seq<char>, usize)>::empty(),
            r.state().site_rooms == Map::<Seq<char>, Seq<Seq<char>>>::empty(),
    {
        let r = Hub {
            next_id: 0,
            conns: Vec::new(),
            rooms: KeyTable::new(),
            bindings: KeyTable::new(),
            site_rooms: KeyTable::new(),
        };
        proof {
            assert(r.state().rooms =~= Map::<Seq<char>, Seq<usize>>::empty());
            assert(r.state().bindings =~= Map::<Seq<char>, (Seq<char>, usize)>::empty());
            assert(r.state().site_rooms =~= Map::<Seq<char>, Seq<Seq<char>>>::empty());
        }
        r
    }

    /// Register a connection: allocate a fresh id, record membership, cache
    /// the room for the site, and for an operator install the site binding.
    /// Never fails.
    pub fn register(&mut self, site_key: &str, room_key: &str, is_operator: bool) -> (id: usize)
        requires
            old(self).inv(),
            old(self).state().next_id < usize::MAX,
        ensures
            final(self).inv(),
            id == old(self).state().next_id,
            !old(self).state().conns.contains(id),
            final(self).state() == register_st(
                old(self).state(),
                site_key@,
                room_key@,
                is_operator,
            ),
    {
        let ghost s0 = self.state();
        let id = self.next_id;
        proof {
            if s0.conns.contains(id) {
                let i = choose|i: int| 0 <= i < s0.conns.len() && s0.conns[i] == id;
            }
        }
        self.next_id = self.next_id + 1;
        self.conns.push(id);
        let mut members: Vec<usize> = match self.rooms.get(room_key) {
            Some(v) => copy_ids(v),
            None => Vec::new(),
        };
        members.push(id);
        self.rooms.insert(room_key.to_owned(), members);
        let cached: Option<&Vec<String>> = self.site_rooms.get(site_key);
        match cached {
            Some(v) => {
                let ghost base = v@;
                let ghost mapped = s0.site_rooms[site_key@];
                proof {
                    assert(mapped.len() == base.len());
                    assert(forall|i: int| 0 <= i < base.len() ==> mapped[i] == (#[trigger] base[i])@);
                }
                if !vec_contains_str(v, room_key) {
                    proof {
                        if mapped.contains(room_key@) {
                            let i = choose|i: int|
                                0 <= i < mapped.len() && mapped[i] == room_key@;
                            assert(base[i]@ == room_key@);
                        }
                    }
                    let mut v2 = copy_strings(v);
                    v2.push(room_key.to_owned());
                    let ghost gv2 = v2@;
                    self.site_rooms.insert(site_key.to_owned(), v2);
                    proof {
                        assert(self.site_rooms@[site_key@]@ == gv2);
                    }
                } else {
                    proof {
                        let i = choose|i: int|
                            0 <= i < base.len() && (#[trigger] base[i])@ == room_key@;
                        assert(mapped[i] == room_key@);
                        assert(mapped.contains(room_key@));
                    }
                }
            },
            None => {
                let mut v2: Vec<String> = Vec::new();
                v2.push(room_key.to_owned());
                self.site_rooms.insert(site_key.to_owned(), v2);
            },
        }
        if is_operator {
            self.bindings.insert(site_key.to_owned(), (room_key.to_owned(), id));
        }
        proof {
            let s1 = self.state();
            let t = register_st(s0, site_key@, room_key@, is_operator);
            assert(s1.rooms =~= t.rooms) by {
                assert(members_or_empty(s0.rooms, room_key@).push(id) =~= s1.rooms[room_key@]);
            }
            assert(s1.bindings =~= t.bindings);
            assert(s1.site_rooms =~= t.site_rooms) by {
                if s0.site_rooms.contains_key(site_key@) {
                    if s0.site_rooms[site_key@].contains(room_key@) {
                    } else {
                        assert(s1.site_rooms[site_key@] =~= s0.site_rooms[site_key@].push(
                            room_key@,
                        ));
                    }
                } else {
                    assert(s1.site_rooms[site_key@] =~= seq![room_key@]);
                }
            }
            assert(s1.conns =~= s0.conns.push(id));
            assert(s1 == t);
            lemma_register_wf(s0, site_key@, room_key@, is_operator);
        }
        id
    }
}

/// What a visitor's departure asks of the outside world: a fresh site-room
/// snapshot for the counter store, and the room marked offline in
/// persistence. An operator's departure asks nothing.
pub struct UnregisterEffects {
    pub save_site_rooms: Option<(String, Vec<String>)>,
    pub mark_room_offline: Option<String>,
}

impl Hub {
    /// Remove `id` from every room's membership list, dropping entries
    /// left empty.
    fn remove_from_all_rooms(&mut self, id: usize)
        requires
            old(self).inv(),
        ensures
            final(self).inv(),
            final(self).state() == (HubState {
                rooms: rooms_without(old(self).state().rooms, id),
                ..old(self).state()
            }),
    {
        let ghost sr = self.state();
        // Room membership: rebuild, dropping entries left empty.
        let ghost t0 = self.rooms;
        let mut new_rooms: KeyTable<Vec<usize>> = KeyTable::new();
        let rn = self.rooms.len();
        let mut i: usize = 0;
        while i < rn
            invariant
                i <= rn,
                rn == t0.pairs().len(),
                self.rooms == t0,
                t0.wf(),
                new_rooms.wf(),
                forall|k: Seq<char>|
                    #[trigger] new_rooms@.contains_key(k) ==> exists|j: int|
                        0 <= j < i && (#[trigger] t0.pairs()[j]).0@ == k,
                forall|j: int|
                    0 <= j < i ==> if seq_without((#[trigger] t0.pairs()[j]).1@, id).len() > 0 {
                        new_rooms@.contains_key(t0.pairs()[j].0@) && new_rooms@[t0.pairs()[j].0@]@
                            == seq_without(t0.pairs()[j].1@, id)
                    } else {
                        !new_rooms@.contains_key(t0.pairs()[j].0@)
                    },
            decreases rn - i,
        {
            let key = self.rooms.key_at(i).clone();
            let members = self.rooms.value_at(i);
            let ghost mseq = members@;
            let mut filtered: Vec<usize> = Vec::new();
            let mn = members.len();
            let mut j: usize = 0;
            proof {
                assert(mseq.subrange(0, 0) =~= Seq::<usize>::empty());
                reveal(Seq::filter);
            }
            while j < mn
                invariant
                    j <= mn,
                    mn == mseq.len(),
                    members@ == mseq,
                    filtered@ == seq_without(mseq.subrange(0, j as int), id),
                decreases mn - j,
            {
                proof {
                    lemma_seq_without_step(mseq, j as int, id);
                }
                let c = members[j];
                if c != id {
                    filtered.push(c);
                }
                j = j + 1;
            }
            proof {
                assert(mseq.subrange(0, mn as int) =~= mseq);
            }
            if filtered.len() > 0 {
                proof {
                    if new_rooms@.contains_key(key@) {
                        let j0 = choose|j0: int|
                            0 <= j0 < i && (#[trigger] t0.pairs()[j0]).0@ == key@;
                    }
                }
                new_rooms.insert(key, filtered);
            } else {
                proof {
                    if new_rooms@.contains_key(key@) {
                        let j0 = choose|j0: int|
                            0 <= j0 < i && (#[trigger] t0.pairs()[j0]).0@ == key@;
                    }
                }
            }
            i = i + 1;
        }
        self.rooms = new_rooms;
        proof {
            assert(self.state().rooms =~= rooms_without(sr.rooms, id)) by {
                assert forall|k: Seq<char>| #[trigger] self.state().rooms.contains_key(k) implies
                    rooms_without(sr.rooms, id).contains_key(k) && self.state().rooms[k]
                    == rooms_without(sr.rooms, id)[k] by {
                    let j = choose|j: int| 0 <= j < rn && (#[trigger] t0.pairs()[j]).0@ == k;
                    crate::key_table::lemma_pairs_map_index(t0.pairs(), j);
                    assert(sr.rooms.contains_key(k) && sr.rooms[k] == t0.pairs()[j].1@);
                }
                assert forall|k: Seq<char>| #[trigger] rooms_without(sr.rooms, id).contains_key(
                    k,
                ) implies self.state().rooms.contains_key(k) by {
                    crate::key_table::lemma_pairs_map_complete(t0.pairs(), k);
                    let j = choose|j: int|
                        0 <= j < t0.pairs().len() && (#[trigger] t0.pairs()[j]).0@ == k;
                    crate::key_table::lemma_pairs_map_index(t0.pairs(), j);
                }
            }
        }
        proof {
            let s1 = self.state();
            assert(s1 == (HubState { rooms: rooms_without(sr.rooms, id), ..sr }));
            lemma_seq_without_facts(sr.conns, id);
            assert forall|k: Seq<char>| #[trigger] s1.rooms.contains_key(k) implies s1.rooms[k].len()
                > 0 && ids_distinct(s1.rooms[k]) by {
                lemma_seq_without_facts(sr.rooms[k], id);
            }
            assert forall|k: Seq<char>, i: int|
                s1.rooms.contains_key(k) && 0 <= i < s1.rooms[k].len() implies s1.conns.contains(
                #[trigger] s1.rooms[k][i],
            ) by {
                lemma_seq_without_facts(sr.rooms[k], id);
                let x = s1.rooms[k][i];
                assert(s1.rooms[k].contains(x));
                assert(sr.rooms[k].contains(x) && x != id);
            }
        }
    }

    /// Drop a connection: the id leaves the connection set and every room's
    /// membership; an operator's binding is cleared only while it still
    /// points at this connection; a visitor's room leaves the site cache,
    /// and the effects carry the snapshot to persist and the room to mark
    /// offline.
    pub fn unregister(
        &mut self,
        id: usize,
        site_key: &str,
        room_key: &str,
        is_operator: bool,
    ) -> (e: UnregisterEffects)
        requires
            old(self).inv(),
        ensures
            final(self).inv(),
            final(self).state() == unregister_st(
                old(self).state(),
                id,
                site_key@,
                room_key@,
                is_operator,
            ),
            is_operator ==> e.save_site_rooms is None && e.mark_room_offline is None,
            !is_operator ==> (e.mark_room_offline matches Some(r) && r@ == room_key@),
            !is_operator ==> (e.save_site_rooms matches Some(p) && p.0@ == site_key@
                && p.1@.map_values(|s: String| s@) == site_rooms_or_empty(
                final(self).state().site_rooms,
                site_key@,
            )),
    {
        let ghost s0 = self.state();
        self.remove_from_all_rooms(id);
        // Connections.
        let mut kept: Vec<usize> = Vec::new();
        let n = self.conns.len();
        let mut i: usize = 0;
        proof {
            assert(self.conns@.subrange(0, 0) =~= Seq::<usize>::empty());
            reveal(Seq::filter);
        }
        while i < n
            invariant
                i <= n,
                n == self.conns@.len(),
                self.conns@ == s0.conns,
                kept@ == seq_without(s0.conns.subrange(0, i as int), id),
            decreases n - i,
        {
            proof {
                lemma_seq_without_step(s0.conns, i as int, id);
            }
            let c = self.conns[i];
            if c != id {
                kept.push(c);
            }
            i = i + 1;
        }
        proof {
            assert(s0.conns.subrange(0, n as int) =~= s0.conns);
        }
        self.conns = kept;
        // Binding: cleared only while it still points at this connection.
        if is_operator {
            let must_clear = match self.bindings.get(site_key) {
                Some(p) => p.1 == id,
                None => false,
            };
            proof {
                if s0.bindings.contains_key(site_key@) {
                    assert(s0.bindings[site_key@].1 == self.bindings@[site_key@].1);
                }
            }
            if must_clear {
                self.bindings.remove(site_key);
                proof {
                    assert(self.state().bindings =~= s0.bindings.remove(site_key@));
                }
            } else {
                proof {
                    assert(self.state().bindings =~= s0.bindings);
                }
            }
            let e = UnregisterEffects { save_site_rooms: None, mark_room_offline: None };
            proof {
                finish_unregister_proof(s0, self.state(), id, site_key@, room_key@, is_operator);
            }
            return e;
        }
        // Visitor: drop the room from the site cache and hand out effects.
        let remaining: Vec<String> = match self.site_rooms.get(site_key) {
            Some(v) => {
                let ghost base = v@;
                let ghost mapped = s0.site_rooms[site_key@];
                proof {
                    assert(mapped.len() == base.len());
                    assert(forall|i: int|
                        0 <= i < base.len() ==> mapped[i] == (#[trigger] base[i])@);
                    assert(mapped.subrange(0, 0) =~= Seq::<Seq<char>>::empty());
                    reveal(Seq::filter);
                }
                let mut f: Vec<String> = Vec::new();
                let bn = v.len();
                let mut j: usize = 0;
                while j < bn
                    invariant
                        j <= bn,
                        bn == base.len(),
                        bn == mapped.len(),
                        forall|x: int| 0 <= x < base.len() ==> mapped[x] == (#[trigger] base[x])@,
                        v@ == base,
                        f@.map_values(|s: String| s@) == names_without(
                            mapped.subrange(0, j as int),
                            room_key@,
                        ),
                    decreases bn - j,
                {
                    proof {
                        lemma_names_without_step(mapped, j as int, room_key@);
                    }
                    let ghost fprev = f@.map_values(|s: String| s@);
                    if !str_eq(v[j].as_str(), room_key) {
                        f.push(v[j].clone());
                        proof {
                            assert(f@.map_values(|s: String| s@) =~= fprev.push(mapped[j as int]));
                        }
                    }
                    j = j + 1;
                }
                proof {
                    assert(mapped.subrange(0, bn as int) =~= mapped);
                }
                f
            },
            None => Vec::new(),
        };
        let ghost rem_mapped = remaining@.map_values(|s: String| s@);
        if remaining.len() > 0 {
            let copy = copy_strings(&remaining);
            let ghost gcopy = copy@;
            self.site_rooms.insert(site_key.to_owned(), copy);
            proof {
                assert(self.site_rooms@[site_key@]@ == gcopy);
                assert(gcopy.map_values(|s: String| s@) =~~= rem_mapped);
                assert(self.state().site_rooms =~~= site_rooms_after_remove(
                    s0.site_rooms,
                    site_key@,
                    room_key@,
                ));
            }
        } else {
            self.site_rooms.remove(site_key);
            proof {
                assert(self.state().site_rooms =~~= site_rooms_after_remove(
                    s0.site_rooms,
                    site_key@,
                    room_key@,
                ));
            }
        }
        let e = UnregisterEffects {
            save_site_rooms: Some((site_key.to_owned(), remaining)),
            mark_room_offline: Some(room_key.to_owned()),
        };
        proof {
            finish_unregister_proof(s0, self.state(), id, site_key@, room_key@, is_operator);
        }
        e
    }
}

/// What a room switch hands back: the members of the new room still to be
/// told, and — for an operator — the "now servicing" notice to broadcast
/// to them.
pub struct SwitchEffects {
    pub targets: Vec<usize>,
    pub notice: Option<crate::dto::ChatMessageDto>,
}

/// The notice text an operator's arrival broadcasts into the room.
pub open spec fn servicing_notice_text(name: Option<Seq<char>>) -> Seq<char> {
    (match name {
        Some(n) => n,
        None => Seq::empty(),
    }) + " is now serving you"@
}

/// Whether the site's operator binding currently points at this room.
pub open spec fn live_decision(s: HubState, site: Seq<char>, room: Seq<char>) -> bool {
    s.bindings.contains_key(site) && s.bindings[site].0 == room
}

/// What message routing asks of the outside world once persistence has
/// been attempted: either a fan-out of the chat frame, or a counter
/// increment with an optional aggregate notification, or nothing at all.
pub struct RouteEffects {
    pub fanout: Option<Vec<usize>>,
    pub increment_counters: bool,
    pub notify_conn: Option<usize>,
}

impl Hub {
    /// The members of `room_key` other than `id`, in membership order.
    fn members_except(&self, room_key: &str, id: usize) -> (r: Vec<usize>)
        requires
            self.inv(),
        ensures
            r@ == seq_without(members_or_empty(self.state().rooms, room_key@), id),
    {
        let ghost base = members_or_empty(self.state().rooms, room_key@);
        match self.rooms.get(room_key) {
            Some(v) => {
                let ghost mseq = v@;
                let mut out: Vec<usize> = Vec::new();
                let n = v.len();
                let mut j: usize = 0;
                proof {
                    assert(mseq.subrange(0, 0) =~= Seq::<usize>::empty());
                    reveal(Seq::filter);
                }
                while j < n
                    invariant
                        j <= n,
                        n == mseq.len(),
                        v@ == mseq,
                        out@ == seq_without(mseq.subrange(0, j as int), id),
                    decreases n - j,
                {
                    proof {
                        lemma_seq_without_step(mseq, j as int, id);
                    }
                    let c = v[j];
                    if c != id {
                        out.push(c);
                    }
                    j = j + 1;
                }
                proof {
                    assert(mseq.subrange(0, n as int) =~= mseq);
                }
                out
            },
            None => {
                let out: Vec<usize> = Vec::new();
                proof {
                    reveal(Seq::filter);
                    assert(out@ =~= seq_without(base, id));
                }
                out
            },
        }
    }

    /// Switch a live connection into `new_room_key`: membership moves, an
    /// operator's binding follows, and for an operator the effects carry the
    /// "now servicing" notice together with the other current members of the
    /// new room it is to reach.
    pub fn switch_room(
        &mut self,
        id: usize,
        new_room_key: &str,
        is_operator: bool,
        operator_name: Option<String>,
        site_key: &str,
        now: crate::dates::CivilDateTime,
    ) -> (e: SwitchEffects)
        requires
            old(self).inv(),
            old(self).state().conns.contains(id),
        ensures
            final(self).inv(),
            final(self).state() == switch_st(
                old(self).state(),
                id,
                new_room_key@,
                is_operator,
                site_key@,
            ),
            e.targets@ == seq_without(
                members_or_empty(old(self).state().rooms, new_room_key@),
                id,
            ),
            !is_operator ==> e.notice is None,
            is_operator ==> (e.notice matches Some(n) && n.notify@ == servicing_notice_text(
                crate::dto::option_view(operator_name),
            ) && n.text@ == Seq::<char>::empty() && n.user == false && n.user_name
                == operator_name && n.time@ == crate::dates::ymdhms_seq(now) && (
            n.room_id matches Some(r) && r@ == new_room_key@)),
    {
        let ghost s0 = self.state();
        let targets = self.members_except(new_room_key, id);
        self.remove_from_all_rooms(id);
        let mut members = copy_ids(&targets);
        members.push(id);
        let ghost gmembers = members@;
        self.rooms.insert(new_room_key.to_owned(), members);
        proof {
            assert(self.rooms@[new_room_key@]@ == gmembers);
            assert(self.state().rooms =~= switch_st(
                s0,
                id,
                new_room_key@,
                is_operator,
                site_key@,
            ).rooms);
        }
        if is_operator {
            let bound_conn: Option<usize> = match self.bindings.get(site_key) {
                Some(p) => Some(p.1),
                None => None,
            };
            proof {
                if s0.bindings.contains_key(site_key@) {
                    assert(s0.bindings[site_key@].1 == self.bindings@[site_key@].1);
                }
            }
            let conn = match bound_conn {
                Some(conn) => conn,
                None => id,
            };
            self.bindings.insert(site_key.to_owned(), (new_room_key.to_owned(), conn));
            proof {
                assert(self.state().bindings =~= s0.bindings.insert(
                    site_key@,
                    (new_room_key@, conn),
                ));
            }
        }
        let notice = if is_operator {
            let mut text: String = match &operator_name {
                Some(n) => n.clone(),
                None => String::new(),
            };
            text.append(" is now serving you");
            Some(
                crate::dto::ChatMessageDto::new_notify_msg_at(
                    text.as_str(),
                    false,
                    operator_name,
                    Some(new_room_key.to_owned()),
                    now,
                ),
            )
        } else {
            None
        };
        proof {
            let t = switch_st(s0, id, new_room_key@, is_operator, site_key@);
            assert(self.state().site_rooms =~~= t.site_rooms);
            assert(self.state() == t);
            lemma_switch_wf(s0, id, new_room_key@, is_operator, site_key@);
        }
        SwitchEffects { targets, notice }
    }

    /// The live decision for a message into `room_key` of `site_key`: true
    /// exactly while the site's operator binding points at this room. Fixed
    /// before persistence and not re-evaluated.
    pub fn route_decide(&self, site_key: &str, room_key: &str) -> (live: bool)
        requires
            self.inv(),
        ensures
            live == live_decision(self.state(), site_key@, room_key@),
    {
        match self.bindings.get(site_key) {
            Some(p) => str_eq(p.0.as_str(), room_key),
            None => false,
        }
    }

    /// What follows the persistence attempt of a routed message. Nothing
    /// moves when persistence failed. On success a live message fans out to
    /// every other member of the room, and a non-live one asks for the
    /// counter increment and — for a visitor's message, when an operator is
    /// bound — the aggregate notification to the bound connection.
    pub fn route_finish(
        &self,
        live: bool,
        persist_ok: bool,
        sender_id: usize,
        sender_is_operator: bool,
        site_key: &str,
        room_key: &str,
    ) -> (e: RouteEffects)
        requires
            self.inv(),
        ensures
            !persist_ok ==> e.fanout is None && !e.increment_counters && e.notify_conn is None,
            persist_ok && live ==> (e.fanout matches Some(v) && v@ == seq_without(
                members_or_empty(self.state().rooms, room_key@),
                sender_id,
            )) && !e.increment_counters && e.notify_conn is None,
            persist_ok && !live ==> e.fanout is None && e.increment_counters && e.notify_conn == (
            if !sender_is_operator && self.state().bindings.contains_key(site_key@) {
                Some(self.state().bindings[site_key@].1)
            } else {
                None::<usize>
            }),
    {
        if !persist_ok {
            return RouteEffects { fanout: None, increment_counters: false, notify_conn: None };
        }
        if live {
            let targets = self.members_except(room_key, sender_id);
            return RouteEffects {
                fanout: Some(targets),
                increment_counters: false,
                notify_conn: None,
            };
        }
        let notify_conn = if sender_is_operator {
            None
        } else {
            match self.bindings.get(site_key) {
                Some(p) => Some(p.1),
                None => None,
            }
        };
        RouteEffects { fanout: None, increment_counters: true, notify_conn }
    }

    /// A diagnostic snapshot of the room keys with current members: every
    /// key once, and nothing else.
    pub fn list_rooms(&self) -> (r: Vec<String>)
        requires
            self.inv(),
        ensures
            forall|i: int|
                0 <= i < r@.len() ==> self.state().rooms.contains_key((#[trigger] r@[i])@),
            forall|k: Seq<char>|
                #[trigger] self.state().rooms.contains_key(k) ==> exists|i: int|
                    0 <= i < r@.len() && (#[trigger] r@[i])@ == k,
            forall|i: int, j: int| 0 <= i < j < r@.len() ==> (#[trigger] r@[i])@ != (
            #[trigger] r@[j])@,
    {
        let r = self.rooms.keys();
        proof {
            assert forall|i: int| 0 <= i < r@.len() implies self.state().rooms.contains_key(
                (#[trigger] r@[i])@,
            ) by {
                crate::key_table::lemma_pairs_map_index(self.rooms.pairs(), i);
            }
            assert forall|k: Seq<char>| #[trigger] self.state().rooms.contains_key(k) implies
                exists|i: int| 0 <= i < r@.len() && (#[trigger] r@[i])@ == k by {
                crate::key_table::lemma_pairs_map_complete(self.rooms.pairs(), k);
                let j = choose|j: int|
                    0 <= j < self.rooms.pairs().len() && (#[trigger] self.rooms.pairs()[j]).0@
                        == k;
                assert(r@[j]@ == k);
            }
        }
        r
    }

    /// The next connection id the hub would hand out.
    pub fn next_connection_id(&self) -> (r: usize)
        ensures
            r == self.state().next_id,
    {
        self.next_id
    }

    /// The room and connection the site's operator binding points at, if
    /// one exists.
    pub fn operator_binding(&self, site_key: &str) -> (r: Option<(String, usize)>)
        requires
            self.inv(),
        ensures
            match r {
                Some(p) => self.state().bindings.contains_key(site_key@)
                    && self.state().bindings[site_key@] == (p.0@, p.1),
                None => !self.state().bindings.contains_key(site_key@),
            },
    {
        match self.bindings.get(site_key) {
            Some(p) => Some((p.0.clone(), p.1)),
            None => None,
        }
    }
}

/// A room switch preserves the hub invariant, provided the switching
/// connection is live.
pub proof fn lemma_switch_wf(
    s: HubState,
    id: usize,
    new_room: Seq<char>,
    is_operator: bool,
    site: Seq<char>,
)
    requires
        wf_state(s),
        s.conns.contains(id),
    ensures
        wf_state(switch_st(s, id, new_room, is_operator, site)),
{
    let t = switch_st(s, id, new_room, is_operator, site);
    let base = members_or_empty(s.rooms, new_room);
    lemma_seq_without_facts(base, id);
    assert forall|k: Seq<char>| #[trigger] t.rooms.contains_key(k) implies t.rooms[k].len() > 0
        && ids_distinct(t.rooms[k]) by {
        if k == new_room {
            let v = t.rooms[k];
            assert forall|i: int, j: int| 0 <= i < j < v.len() implies v[i] != v[j] by {
                if j == v.len() - 1 {
                    assert(v[i] == seq_without(base, id)[i]);
                    assert(seq_without(base, id).contains(v[i]));
                }
            }
        } else {
            lemma_seq_without_facts(s.rooms[k], id);
        }
    }
    assert forall|k: Seq<char>, i: int|
        t.rooms.contains_key(k) && 0 <= i < t.rooms[k].len() implies t.conns.contains(
        #[trigger] t.rooms[k][i],
    ) by {
        if k == new_room {
            let f = seq_without(base, id);
            if i < f.len() {
                assert(t.rooms[k][i] == f[i]);
                assert(f.contains(f[i]));
                assert(base.contains(f[i]));
                if s.rooms.contains_key(new_room) {
                    let w = choose|w: int| 0 <= w < base.len() && base[w] == f[i];
                    assert(s.rooms[new_room][w] == f[i]);
                }
            } else {
                assert(t.rooms[k][i] == id);
            }
        } else {
            lemma_seq_without_facts(s.rooms[k], id);
            let x = t.rooms[k][i];
            assert(t.rooms[k].contains(x));
            assert(s.rooms[k].contains(x));
        }
    }
}

/// The cached room list of a site, or nothing where the site has no entry.
pub open spec fn site_rooms_or_empty(m: Map<Seq<char>, Seq<Seq<char>>>, k: Seq<char>) -> Seq<
    Seq<char>,
> {
    if m.contains_key(k) {
        m[k]
    } else {
        Seq::empty()
    }
}

/// Closing step of the deregistration proof: the reached state is the
/// specified transition and keeps the invariant.
proof fn finish_unregister_proof(
    s0: HubState,
    s1: HubState,
    id: usize,
    site: Seq<char>,
    room: Seq<char>,
    is_operator: bool,
)
    requires
        wf_state(s0),
        s1.next_id == s0.next_id,
        s1.conns == seq_without(s0.conns, id),
        s1.rooms == rooms_without(s0.rooms, id),
        s1.bindings == unregister_st(s0, id, site, room, is_operator).bindings,
        s1.site_rooms == unregister_st(s0, id, site, room, is_operator).site_rooms,
    ensures
        s1 == unregister_st(s0, id, site, room, is_operator),
        wf_state(s1),
{
    lemma_unregister_wf(s0, id, site, room, is_operator);
}

/// Deregistration preserves the hub invariant.
pub proof fn lemma_unregister_wf(
    s: HubState,
    id: usize,
    site: Seq<char>,
    room: Seq<char>,
    is_operator: bool,
)
    requires
        wf_state(s),
    ensures
        wf_state(unregister_st(s, id, site, room, is_operator)),
{
    let t = unregister_st(s, id, site, room, is_operator);
    lemma_seq_without_facts(s.conns, id);
    assert forall|i: int| 0 <= i < t.conns.len() implies (#[trigger] t.conns[i]) < s.next_id by {
        let x = t.conns[i];
        assert(t.conns.contains(x));
        assert(s.conns.contains(x));
        let w = choose|w: int| 0 <= w < s.conns.len() && s.conns[w] == x;
    }
    assert forall|k: Seq<char>| #[trigger] t.rooms.contains_key(k) implies t.rooms[k].len() > 0
        && ids_distinct(t.rooms[k]) by {
        lemma_seq_without_facts(s.rooms[k], id);
    }
    assert forall|k: Seq<char>| #[trigger] t.site_rooms.contains_key(k) implies t.site_rooms[k].len()
        > 0 && keys_distinct(t.site_rooms[k]) by {
        if !is_operator && k == site && s.site_rooms.contains_key(site) && names_without(
            s.site_rooms[site],
            room,
        ).len() > 0 {
            lemma_names_without_facts(s.site_rooms[site], room);
        }
    }
    assert forall|k: Seq<char>, i: int|
        t.rooms.contains_key(k) && 0 <= i < t.rooms[k].len() implies t.conns.contains(
        #[trigger] t.rooms[k][i],
    ) by {
        lemma_seq_without_facts(s.rooms[k], id);
        let x = t.rooms[k][i];
        assert(t.rooms[k].contains(x));
        assert(s.rooms[k].contains(x) && x != id);
    }
    if !is_operator && s.site_rooms.contains_key(site) && names_without(
        s.site_rooms[site],
        room,
    ).len() > 0 {
        lemma_names_without_facts(s.site_rooms[site], room);
    }
}

/// One step of removing an id from a prefix.
pub proof fn lemma_seq_without_step(s: Seq<usize>, i: int, id: usize)
    requires
        0 <= i < s.len(),
    ensures
        seq_without(s.subrange(0, i + 1), id) == if s[i] != id {
            seq_without(s.subrange(0, i), id).push(s[i])
        } else {
            seq_without(s.subrange(0, i), id)
        },
{
    reveal(Seq::filter);
    assert(s.subrange(0, i + 1).drop_last() =~= s.subrange(0, i));
    assert(s.subrange(0, i + 1).last() == s[i]);
}

/// One step of removing a name from a prefix.
pub proof fn lemma_names_without_step(s: Seq<Seq<char>>, i: int, k: Seq<char>)
    requires
        0 <= i < s.len(),
    ensures
        names_without(s.subrange(0, i + 1), k) == if s[i] != k {
            names_without(s.subrange(0, i), k).push(s[i])
        } else {
            names_without(s.subrange(0, i), k)
        },
{
    reveal(Seq::filter);
    assert(s.subrange(0, i + 1).drop_last() =~= s.subrange(0, i));
    assert(s.subrange(0, i + 1).last() == s[i]);
}

/// What survives removing an id: exactly the other elements, distinctness
/// kept.
pub proof fn lemma_seq_without_facts(s: Seq<usize>, id: usize)
    ensures
        forall|x: usize| seq_without(s, id).contains(x) <==> (s.contains(x) && x != id),
        ids_distinct(s) ==> ids_distinct(seq_without(s, id)),
        seq_without(s, id).len() <= s.len(),
    decreases s.len(),
{
    reveal(Seq::filter);
    if s.len() == 0 {
        assert forall|x: usize| seq_without(s, id).contains(x) implies (s.contains(x) && x
            != id) by {}
    } else {
        let d = s.drop_last();
        lemma_seq_without_facts(d, id);
        assert(ids_distinct(s) ==> ids_distinct(d));
        let f = seq_without(s, id);
        let fd = seq_without(d, id);
        assert(f == if s.last() != id {
            fd.push(s.last())
        } else {
            fd
        });
        assert forall|x: usize| f.contains(x) implies (s.contains(x) && x != id) by {
            let i = choose|i: int| 0 <= i < f.len() && f[i] == x;
            assert(0 <= i < f.len() && f[i] == x);
            if i < fd.len() {
                assert(f[i] == fd[i]);
                assert(fd[i] == x);
                assert(fd.contains(x));
                assert(d.contains(x) && x != id);
                let w = choose|w: int| 0 <= w < d.len() && d[w] == x;
                assert(d[w] == s[w]);
                assert(s[w] == x);
                assert(s.contains(x));
            } else {
                assert(x == s.last());
                assert(s[s.len() - 1] == x);
                assert(s.contains(x));
                assert(x != id);
            }
        }
        assert forall|x: usize| s.contains(x) && x != id implies f.contains(x) by {
            let i = choose|i: int| 0 <= i < s.len() && s[i] == x;
            if i < s.len() - 1 {
                assert(d[i] == x);
                assert(d.contains(x));
                assert(fd.contains(x));
                let w = choose|w: int| 0 <= w < fd.len() && fd[w] == x;
                assert(f[w] == x);
            } else {
                assert(f.last() == x);
            }
        }
        if ids_distinct(s) {
            assert forall|i: int, j: int| 0 <= i < j < f.len() implies f[i] != f[j] by {
                if j < fd.len() {
                } else if j == fd.len() && s.last() != id {
                    assert(f[j] == s.last());
                    assert(fd.contains(fd[i]));
                    assert(d.contains(fd[i]));
                    let w = choose|w: int| 0 <= w < d.len() && d[w] == fd[i];
                    assert(s[w] == fd[i]);
                    assert(s[w] != s[s.len() - 1]);
                }
            }
        }
    }
}

/// What survives removing a name: exactly the other names, distinctness
/// kept.
pub proof fn lemma_names_without_facts(s: Seq<Seq<char>>, k: Seq<char>)
    ensures
        forall|x: Seq<char>| names_without(s, k).contains(x) <==> (s.contains(x) && x != k),
        keys_distinct(s) ==> keys_distinct(names_without(s, k)),
        names_without(s, k).len() <= s.len(),
    decreases s.len(),
{
    reveal(Seq::filter);
    if s.len() == 0 {
        assert forall|x: Seq<char>| names_without(s, k).contains(x) implies (s.contains(x) && x
            != k) by {}
    } else {
        let d = s.drop_last();
        lemma_names_without_facts(d, k);
        assert(keys_distinct(s) ==> keys_distinct(d));
        let f = names_without(s, k);
        let fd = names_without(d, k);
        assert(f == if s.last() != k {
            fd.push(s.last())
        } else {
            fd
        });
        assert forall|x: Seq<char>| f.contains(x) implies (s.contains(x) && x != k) by {
            let i = choose|i: int| 0 <= i < f.len() && f[i] == x;
            assert(0 <= i < f.len() && f[i] == x);
            if i < fd.len() {
                assert(f[i] == fd[i]);
                assert(fd[i] == x);
                assert(fd.contains(x));
                assert(d.contains(x) && x != k);
                let w = choose|w: int| 0 <= w < d.len() && d[w] == x;
                assert(d[w] == s[w]);
                assert(s[w] == x);
                assert(s.contains(x));
            } else {
                assert(x == s.last());
                assert(s[s.len() - 1] == x);
                assert(s.contains(x));
                assert(x != k);
            }
        }
        assert forall|x: Seq<char>| s.contains(x) && x != k implies f.contains(x) by {
            let i = choose|i: int| 0 <= i < s.len() && s[i] == x;
            if i < s.len() - 1 {
                assert(d[i] == x);
                assert(d.contains(x));
                assert(fd.contains(x));
                let w = choose|w: int| 0 <= w < fd.len() && fd[w] == x;
                assert(f[w] == x);
            } else {
                assert(f.last() == x);
            }
        }
        if keys_distinct(s) {
            assert forall|i: int, j: int| 0 <= i < j < f.len() implies f[i] != f[j] by {
                if j < fd.len() {
                } else if j == fd.len() && s.last() != k {
                    assert(f[j] == s.last());
                    assert(fd.contains(fd[i]));
                    assert(d.contains(fd[i]));
                    let w = choose|w: int| 0 <= w < d.len() && d[w] == fd[i];
                    assert(s[w] == fd[i]);
                    assert(s[w] != s[s.len() - 1]);
                }
            }
        }
    }
}

/// Pushing keeps everything already contained.
pub proof fn lemma_push_contains<A>(s: Seq<A>, x: A)
    ensures
        forall|y: A| s.contains(y) ==> #[trigger] s.push(x).contains(y),
        s.push(x).contains(x),
{
    assert forall|y: A| s.contains(y) implies #[trigger] s.push(x).contains(y) by {
        let i = choose|i: int| 0 <= i < s.len() && s[i] == y;
        assert(s.push(x)[i] == y);
    }
    assert(s.push(x)[s.len() as int] == x);
}

/// Registration preserves the hub invariant.
pub proof fn lemma_register_wf(s: HubState, site: Seq<char>, room: Seq<char>, is_operator: bool)
    requires
        wf_state(s),
        s.next_id < usize::MAX,
    ensures
        wf_state(register_st(s, site, room, is_operator)),
{
    let t = register_st(s, site, room, is_operator);
    let id = s.next_id;
    lemma_push_contains(s.conns, id);
    assert(ids_distinct(t.conns)) by {
        assert forall|i: int, j: int| 0 <= i < j < t.conns.len() implies t.conns[i]
            != t.conns[j] by {
            if j == t.conns.len() - 1 {
                assert(t.conns[i] == s.conns[i]);
            }
        }
    }
    assert(forall|k: Seq<char>, i: int|
        s.rooms.contains_key(k) && 0 <= i < s.rooms[k].len() ==> (#[trigger] s.rooms[k][i])
            < s.next_id) by {
        assert forall|k: Seq<char>, i: int|
            s.rooms.contains_key(k) && 0 <= i < s.rooms[k].len() implies (#[trigger] s.rooms[k][i])
            < s.next_id by {
            assert(s.conns.contains(s.rooms[k][i]));
            let c = choose|c: int| 0 <= c < s.conns.len() && s.conns[c] == s.rooms[k][i];
        }
    }
    assert forall|k: Seq<char>| #[trigger] t.rooms.contains_key(k) implies t.rooms[k].len() > 0
        && ids_distinct(t.rooms[k]) by {
        if k == room {
            let base = members_or_empty(s.rooms, room);
            assert forall|i: int, j: int| 0 <= i < j < t.rooms[k].len() implies t.rooms[k][i]
                != t.rooms[k][j] by {
                if j == t.rooms[k].len() - 1 {
                    assert(t.rooms[k][i] == base[i]);
                    if s.rooms.contains_key(room) {
                        assert(base[i] < s.next_id);
                    }
                }
            }
        }
    }
    assert forall|k: Seq<char>, i: int|
        t.rooms.contains_key(k) && 0 <= i < t.rooms[k].len() implies t.conns.contains(
        #[trigger] t.rooms[k][i],
    ) by {
        if k == room {
            let base = members_or_empty(s.rooms, room);
            if i < base.len() {
                assert(t.rooms[k][i] == base[i]);
                assert(s.conns.contains(base[i]));
            } else {
                assert(t.rooms[k][i] == id);
            }
        } else {
            assert(s.rooms.contains_key(k) && s.rooms[k] == t.rooms[k]);
            assert(s.conns.contains(t.rooms[k][i]));
        }
    }
    assert forall|k: Seq<char>| #[trigger] t.site_rooms.contains_key(k) implies t.site_rooms[k].len()
        > 0 && keys_distinct(t.site_rooms[k]) by {
        if k == site && !(s.site_rooms.contains_key(site) && s.site_rooms[site].contains(room)) {
            if s.site_rooms.contains_key(site) {
                let base = s.site_rooms[site];
                assert forall|i: int, j: int| 0 <= i < j < t.site_rooms[k].len() implies
                    t.site_rooms[k][i] != t.site_rooms[k][j] by {
                    if j == t.site_rooms[k].len() - 1 {
                        assert(t.site_rooms[k][i] == base[i]);
                        assert(base.contains(base[i]));
                    }
                }
            }
        }
    }
}


/// Removing an id that does not occur changes nothing.
pub proof fn lemma_seq_without_absent(s: Seq<usize>, id: usize)
    requires
        !s.contains(id),
    ensures
        seq_without(s, id) == s,
    decreases s.len(),
{
    reveal(Seq::filter);
    if s.len() > 0 {
        let d = s.drop_last();
        assert(!d.contains(id)) by {
            if d.contains(id) {
                let w = choose|w: int| 0 <= w < d.len() && d[w] == id;
                assert(s[w] == id);
            }
        }
        lemma_seq_without_absent(d, id);
        assert(s[s.len() - 1] == s.last());
        assert(s.last() != id);
        assert(seq_without(s, id) =~= d.push(s.last()));
        assert(d.push(s.last()) =~= s);
    }
}

/// Removing a name that does not occur changes nothing.
pub proof fn lemma_names_without_absent(s: Seq<Seq<char>>, k: Seq<char>)
    requires
        !s.contains(k),
    ensures
        names_without(s, k) == s,
    decreases s.len(),
{
    reveal(Seq::filter);
    if s.len() > 0 {
        let d = s.drop_last();
        assert(!d.contains(k)) by {
            if d.contains(k) {
                let w = choose|w: int| 0 <= w < d.len() && d[w] == k;
                assert(s[w] == k);
            }
        }
        lemma_names_without_absent(d, k);
        assert(s[s.len() - 1] == s.last());
        assert(s.last() != k);
        assert(names_without(s, k) =~= d.push(s.last()));
        assert(d.push(s.last()) =~= s);
    }
}

/// Law: a visitor registration followed at once by its deregistration
/// restores every hub map — connections, membership, bindings and the
/// site-room cache — with no membership leaked and no binding dangling.
/// The one proviso: the room must not already sit in the site's cache, as
/// the visitor's departure always drops it from there.
pub proof fn lemma_register_then_unregister_restores(
    s: HubState,
    site: Seq<char>,
    room: Seq<char>,
)
    requires
        wf_state(s),
        s.next_id < usize::MAX,
        !(s.site_rooms.contains_key(site) && s.site_rooms[site].contains(room)),
    ensures
        ({
            let u = unregister_st(register_st(s, site, room, false), s.next_id, site, room, false);
            u.conns == s.conns && u.rooms == s.rooms && u.bindings == s.bindings && u.site_rooms
                == s.site_rooms
        }),
{
    let id = s.next_id;
    let t = register_st(s, site, room, false);
    let u = unregister_st(t, id, site, room, false);
    assert(!s.conns.contains(id)) by {
        if s.conns.contains(id) {
            let w = choose|w: int| 0 <= w < s.conns.len() && s.conns[w] == id;
        }
    }
    // Connections: dropping the id it pushed gives the original list back.
    assert(u.conns == s.conns) by {
        reveal(Seq::filter);
        assert(t.conns.drop_last() =~= s.conns);
        assert(t.conns.last() == id);
        lemma_seq_without_absent(s.conns, id);
    }
    // No membership list of the original state holds the fresh id.
    assert(forall|k: Seq<char>|
        #[trigger] s.rooms.contains_key(k) ==> !s.rooms[k].contains(id)) by {
        assert forall|k: Seq<char>| #[trigger] s.rooms.contains_key(k) implies !s.rooms[k].contains(
            id,
        ) by {
            if s.rooms[k].contains(id) {
                let w = choose|w: int| 0 <= w < s.rooms[k].len() && s.rooms[k][w] == id;
                assert(s.conns.contains(id));
            }
        }
    }
    assert(u.rooms =~= s.rooms) by {
        let base = members_or_empty(s.rooms, room);
        assert(!base.contains(id)) by {
            if s.rooms.contains_key(room) && base.contains(id) {
                assert(s.rooms[room].contains(id));
            }
        }
        assert(seq_without(base.push(id), id) == base) by {
            reveal(Seq::filter);
            assert(base.push(id).drop_last() =~= base);
            assert(base.push(id).last() == id);
            lemma_seq_without_absent(base, id);
        }
        assert forall|k: Seq<char>| #[trigger] u.rooms.contains_key(k) implies s.rooms.contains_key(
            k,
        ) && u.rooms[k] == s.rooms[k] by {
            if k != room {
                lemma_seq_without_absent(s.rooms[k], id);
            }
        }
        assert forall|k: Seq<char>| #[trigger] s.rooms.contains_key(k) implies u.rooms.contains_key(
            k,
        ) by {
            if k == room {
                assert(t.rooms[k] == base.push(id));
                assert(seq_without(t.rooms[k], id) == base);
                assert(base.len() > 0);
            } else {
                lemma_seq_without_absent(s.rooms[k], id);
                assert(s.rooms[k].len() > 0);
            }
        }
    }
    assert(u.site_rooms =~= s.site_rooms) by {
        if !s.site_rooms.contains_key(site) {
            assert(t.site_rooms == s.site_rooms.insert(site, seq![room]));
            assert(names_without(seq![room], room).len() == 0) by {
                reveal_with_fuel(Seq::filter, 2);
                assert(seq![room].drop_last() =~= Seq::<Seq<char>>::empty());
                assert(seq![room].last() == room);
            }
        } else {
            let base = s.site_rooms[site];
            assert(!base.contains(room));
            assert(t.site_rooms == s.site_rooms.insert(site, base.push(room)));
            assert(names_without(base.push(room), room) == base) by {
                reveal(Seq::filter);
                assert(base.push(room).drop_last() =~= base);
                assert(base.push(room).last() == room);
                lemma_names_without_absent(base, room);
            }
            assert(base.len() > 0);
        }
    }
}

/// Law: an operator registration followed at once by its deregistration
/// also restores every hub map, under its own provisos: the site held no
/// binding before (registering overwrites any older one, and the departure
/// then clears the new one, not restores the old), and the room was
/// already in the site's cache (registration caches it and an operator's
/// departure never uncaches).
pub proof fn lemma_operator_register_then_unregister_restores(
    s: HubState,
    site: Seq<char>,
    room: Seq<char>,
)
    requires
        wf_state(s),
        s.next_id < usize::MAX,
        !s.bindings.contains_key(site),
        s.site_rooms.contains_key(site) && s.site_rooms[site].contains(room),
    ensures
        ({
            let u = unregister_st(register_st(s, site, room, true), s.next_id, site, room, true);
            u.conns == s.conns && u.rooms == s.rooms && u.bindings == s.bindings && u.site_rooms
                == s.site_rooms
        }),
{
    let id = s.next_id;
    let t = register_st(s, site, room, true);
    let u = unregister_st(t, id, site, room, true);
    assert(!s.conns.contains(id)) by {
        if s.conns.contains(id) {
            let w = choose|w: int| 0 <= w < s.conns.len() && s.conns[w] == id;
        }
    }
    assert(u.conns == s.conns) by {
        reveal(Seq::filter);
        assert(t.conns.drop_last() =~= s.conns);
        assert(t.conns.last() == id);
        lemma_seq_without_absent(s.conns, id);
    }
    assert(forall|k: Seq<char>|
        #[trigger] s.rooms.contains_key(k) ==> !s.rooms[k].contains(id)) by {
        assert forall|k: Seq<char>| #[trigger] s.rooms.contains_key(k) implies !s.rooms[k].contains(
            id,
        ) by {
            if s.rooms[k].contains(id) {
                let w = choose|w: int| 0 <= w < s.rooms[k].len() && s.rooms[k][w] == id;
                assert(s.conns.contains(id));
            }
        }
    }
    assert(u.rooms =~= s.rooms) by {
        let base = members_or_empty(s.rooms, room);
        assert(!base.contains(id)) by {
            if s.rooms.contains_key(room) && base.contains(id) {
                assert(s.rooms[room].contains(id));
            }
        }
        assert(seq_without(base.push(id), id) == base) by {
            reveal(Seq::filter);
            assert(base.push(id).drop_last() =~= base);
            assert(base.push(id).last() == id);
            lemma_seq_without_absent(base, id);
        }
        assert forall|k: Seq<char>| #[trigger] u.rooms.contains_key(k) implies s.rooms.contains_key(
            k,
        ) && u.rooms[k] == s.rooms[k] by {
            if k != room {
                lemma_seq_without_absent(s.rooms[k], id);
            }
        }
        assert forall|k: Seq<char>| #[trigger] s.rooms.contains_key(k) implies u.rooms.contains_key(
            k,
        ) by {
            if k == room {
                assert(t.rooms[k] == base.push(id));
                assert(seq_without(t.rooms[k], id) == base);
                assert(base.len() > 0);
            } else {
                lemma_seq_without_absent(s.rooms[k], id);
                assert(s.rooms[k].len() > 0);
            }
        }
    }
    assert(u.bindings =~= s.bindings) by {
        assert(t.bindings == s.bindings.insert(site, (room, id)));
        assert(t.bindings[site].1 == id);
    }
    assert(u.site_rooms == s.site_rooms) by {
        assert(site_rooms_after_add(s.site_rooms, site, room) == s.site_rooms);
    }
}

/// Whether `b` is the operator binding the state holds for `site`.
pub open spec fn is_bound(s: HubState, site: Seq<char>, b: (Seq<char>, usize)) -> bool {
    s.bindings.contains_key(site) && s.bindings[site] == b
}

/// Law: at most one operator binding exists per site at any observation
/// point — any two bindings observed for one site are the same one. The
/// binding relation is a map keyed by the site, and every transition above
/// keeps it one.
pub proof fn lemma_at_most_one_binding_per_site(
    s: HubState,
    site: Seq<char>,
    b1: (Seq<char>, usize),
    b2: (Seq<char>, usize),
)
    requires
        is_bound(s, site, b1),
        is_bound(s, site, b2),
    ensures
        b1 == b2,
{
}

/// Law: however operator registrations for one site interleave, the site
/// ends with exactly the binding of the latest one, and no other site's
/// binding moves.
pub proof fn lemma_operator_registration_overwrites(
    s: HubState,
    site: Seq<char>,
    room1: Seq<char>,
    room2: Seq<char>,
)
    requires
        s.next_id + 1 < usize::MAX,
    ensures
        ({
            let t1 = register_st(s, site, room1, true);
            let t2 = register_st(t1, site, room2, true);
            &&& is_bound(t2, site, (room2, t1.next_id))
            &&& forall|k: Seq<char>|
                k != site ==> (t2.bindings.contains_key(k) == s.bindings.contains_key(k)) && (
                s.bindings.contains_key(k) ==> t2.bindings[k] == s.bindings[k])
        }),
{
}

/// Law: a room switch broadcasts to every other current member of the new
/// room and to no one else — never back to the switching connection, and
/// to no member of a prior room who is not also in the new room.
pub proof fn lemma_switch_broadcast_targets(
    s: HubState,
    id: usize,
    new_room: Seq<char>,
    prior_room: Seq<char>,
)
    requires
        wf_state(s),
    ensures
        forall|m: usize|
            #[trigger] seq_without(members_or_empty(s.rooms, new_room), id).contains(m) <==> (
            members_or_empty(s.rooms, new_room).contains(m) && m != id),
        !seq_without(members_or_empty(s.rooms, new_room), id).contains(id),
        forall|m: usize|
            s.rooms.contains_key(prior_room) && s.rooms[prior_room].contains(m)
                && !members_or_empty(s.rooms, new_room).contains(m) ==> !seq_without(
                members_or_empty(s.rooms, new_room),
                id,
            ).contains(m),
{
    lemma_seq_without_facts(members_or_empty(s.rooms, new_room), id);
}

} // verus!
// The laws below are stated over the transition functions, so they speak
// about every hub the executable methods can reach.
