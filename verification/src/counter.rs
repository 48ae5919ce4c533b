//! The counter store and the unread-counter bookkeeping.
//!
//! The store models the external key-value service the relay uses for unread
//! counts: integer cells under string keys, plus a text cell per site that
//! caches the site's active room set as a comma-separated snapshot. The
//! bookkeeping keeps the pairing the relay relies on: the per-room latest
//! count, the per-room total count and the per-site total unread move
//! together, and a room join resets the latest count while subtracting
//! exactly that amount from the site total.

use vstd::prelude::*;

use crate::key_table::KeyTable;

verus! {

pub struct CounterStore {
    counts: KeyTable<i64>,
    texts: KeyTable<String>,
}

/// An absent integer cell reads as zero.
pub open spec fn count_of(m: Map<Seq<char>, i64>, k: Seq<char>) -> int {
    if m.contains_key(k) {
        m[k] as int
    } else {
        0
    }
}

impl CounterStore {
    pub open spec fn wf(self) -> bool {
        self.counts_table().wf() && self.texts_table().wf()
    }

    pub closed spec fn counts_table(self) -> KeyTable<i64> {
        self.counts
    }

    pub closed spec fn texts_table(self) -> KeyTable<String> {
        self.texts
    }

    /// The integer cells.
    pub open spec fn counts_map(self) -> Map<Seq<char>, i64> {
        self.counts_table()@
    }

    /// The text cells.
    pub open spec fn texts_map(self) -> Map<Seq<char>, String> {
        self.texts_table()@
    }

    pub fn new() -> (r: Self)
        ensures
            r.wf(),
            r.counts_map() == Map::<Seq<char>, i64>::empty(),
            r.texts_map() == Map::<Seq<char>, String>::empty(),
    {
        CounterStore { counts: KeyTable::new(), texts: KeyTable::new() }
    }

    /// Read an integer cell; an absent cell reads as zero.
    pub fn get_count(&self, key: &str) -> (r: i64)
        requires
            self.wf(),
        ensures
            r as int == count_of(self.counts_map(), key@),
    {
        match self.counts.get(key) {
            Some(v) => *v,
            None => 0,
        }
    }

    /// Overwrite an integer cell.
    pub fn set_count(&mut self, key: &str, value: i64)
        requires
            old(self).wf(),
        ensures
            final(self).wf(),
            final(self).counts_map() == old(self).counts_map().insert(key@, value),
            final(self).texts_map() == old(self).texts_map(),
    {
        self.counts.insert(key.to_owned(), value);
    }

    /// Add `delta` to an integer cell, treating an absent cell as zero.
    pub fn incr(&mut self, key: &str, delta: i64)
        requires
            old(self).wf(),
            i64::MIN <= count_of(old(self).counts_map(), key@) + delta <= i64::MAX,
        ensures
            final(self).wf(),
            final(self).counts_map() == old(self).counts_map().insert(
                key@,
                (count_of(old(self).counts_map(), key@) + delta) as i64,
            ),
            final(self).texts_map() == old(self).texts_map(),
    {
        let cur = self.get_count(key);
        self.counts.insert(key.to_owned(), cur + delta);
    }

    /// Read a text cell.
    pub fn get_text(&self, key: &str) -> (r: Option<&String>)
        requires
            self.wf(),
        ensures
            match r {
                Some(v) => self.texts_map().contains_key(key@) && v == self.texts_map()[key@],
                None => !self.texts_map().contains_key(key@),
            },
    {
        self.texts.get(key)
    }

    /// Overwrite a text cell.
    pub fn set_text(&mut self, key: &str, value: String)
        requires
            old(self).wf(),
        ensures
            final(self).wf(),
            final(self).texts_map() == old(self).texts_map().insert(key@, value),
            final(self).counts_map() == old(self).counts_map(),
    {
        self.texts.insert(key.to_owned(), value);
    }
}

pub open spec fn latest_count_key_spec(site: Seq<char>, room: Seq<char>) -> Seq<char> {
    "site:"@ + site + ":room:"@ + room + ":latest_count"@
}

pub open spec fn total_count_key_spec(site: Seq<char>, room: Seq<char>) -> Seq<char> {
    "site:"@ + site + ":room:"@ + room + ":total_count"@
}

pub open spec fn total_unread_key_spec(site: Seq<char>) -> Seq<char> {
    "site:"@ + site + ":total_unread"@
}

pub open spec fn site_rooms_key_spec(site: Seq<char>) -> Seq<char> {
    "site:"@ + site + ":rooms"@
}

pub fn latest_count_key(site: &str, room: &str) -> (r: String)
    ensures
        r@ == latest_count_key_spec(site@, room@),
{
    let mut r = "site:".to_owned();
    r.append(site);
    r.append(":room:");
    r.append(room);
    r.append(":latest_count");
    r
}

pub fn total_count_key(site: &str, room: &str) -> (r: String)
    ensures
        r@ == total_count_key_spec(site@, room@),
{
    let mut r = "site:".to_owned();
    r.append(site);
    r.append(":room:");
    r.append(room);
    r.append(":total_count");
    r
}

pub fn total_unread_key(site: &str) -> (r: String)
    ensures
        r@ == total_unread_key_spec(site@),
{
    let mut r = "site:".to_owned();
    r.append(site);
    r.append(":total_unread");
    r
}

pub fn site_rooms_key(site: &str) -> (r: String)
    ensures
        r@ == site_rooms_key_spec(site@),
{
    let mut r = "site:".to_owned();
    r.append(site);
    r.append(":rooms");
    r
}

/// The three counter keys of one `(site, room)` pair, and the site's room-set
/// key, are pairwise distinct: their fixed parts force different lengths.
pub proof fn lemma_counter_keys_distinct(site: Seq<char>, room: Seq<char>)
    ensures
        latest_count_key_spec(site, room) != total_count_key_spec(site, room),
        latest_count_key_spec(site, room) != total_unread_key_spec(site),
        total_count_key_spec(site, room) != total_unread_key_spec(site),
{
    reveal_strlit("site:");
    reveal_strlit(":room:");
    reveal_strlit(":latest_count");
    reveal_strlit(":total_count");
    reveal_strlit(":total_unread");
    assert(latest_count_key_spec(site, room).len() == 24 + site.len() + room.len());
    assert(total_count_key_spec(site, room).len() == 23 + site.len() + room.len());
    assert(total_unread_key_spec(site).len() == 18 + site.len());
}

/// The unread-count bookkeeping over the counter store.
pub struct MessageStatusManager;

impl MessageStatusManager {
    /// A new unread message in `room_id` of `site`: the room's latest count,
    /// the room's total count and the site's total unread each grow by
    /// `count`, and no other cell moves.
    pub fn increase_latest_count(store: &mut CounterStore, site: &str, room_id: &str, count: i64)
        requires
            old(store).wf(),
            count >= 0,
            count_of(old(store).counts_map(), latest_count_key_spec(site@, room_id@)) + count
                <= i64::MAX,
            count_of(old(store).counts_map(), total_count_key_spec(site@, room_id@)) + count
                <= i64::MAX,
            count_of(old(store).counts_map(), total_unread_key_spec(site@)) + count <= i64::MAX,
        ensures
            final(store).wf(),
            final(store).counts_map() == old(store).counts_map().insert(
                latest_count_key_spec(site@, room_id@),
                (count_of(old(store).counts_map(), latest_count_key_spec(site@, room_id@))
                    + count) as i64,
            ).insert(
                total_count_key_spec(site@, room_id@),
                (count_of(old(store).counts_map(), total_count_key_spec(site@, room_id@))
                    + count) as i64,
            ).insert(
                total_unread_key_spec(site@),
                (count_of(old(store).counts_map(), total_unread_key_spec(site@)) + count) as i64,
            ),
            final(store).texts_map() == old(store).texts_map(),
    {
        proof {
            lemma_counter_keys_distinct(site@, room_id@);
        }
        let latest_key = latest_count_key(site, room_id);
        let total_key = total_count_key(site, room_id);
        let unread_key = total_unread_key(site);
        store.incr(latest_key.as_str(), count);
        store.incr(total_key.as_str(), count);
        store.incr(unread_key.as_str(), count);
    }

    /// A room join was completed: the room's latest count returns to zero and
    /// the site's total unread drops by exactly the amount that was pending;
    /// the room's total count and every other cell stay put.
    pub fn reset_latest_count(store: &mut CounterStore, site: &str, room_id: &str)
        requires
            old(store).wf(),
            count_of(old(store).counts_map(), latest_count_key_spec(site@, room_id@))
                > i64::MIN,
            i64::MIN <= count_of(old(store).counts_map(), total_unread_key_spec(site@))
                - count_of(
                old(store).counts_map(),
                latest_count_key_spec(site@, room_id@),
            ) <= i64::MAX,
        ensures
            final(store).wf(),
            final(store).counts_map() == old(store).counts_map().insert(
                total_unread_key_spec(site@),
                (count_of(old(store).counts_map(), total_unread_key_spec(site@)) - count_of(
                    old(store).counts_map(),
                    latest_count_key_spec(site@, room_id@),
                )) as i64,
            ).insert(latest_count_key_spec(site@, room_id@), 0),
            final(store).texts_map() == old(store).texts_map(),
    {
        proof {
            lemma_counter_keys_distinct(site@, room_id@);
        }
        let latest_key = latest_count_key(site, room_id);
        let unread_key = total_unread_key(site);
        let latest = store.get_count(latest_key.as_str());
        store.incr(unread_key.as_str(), -latest);
        store.set_count(latest_key.as_str(), 0);
    }

    /// The room's `(latest, total)` counts, absent cells reading as zero.
    pub fn get_room_message_counts(store: &CounterStore, site: &str, room_id: &str) -> (r: (
        i64,
        i64,
    ))
        requires
            store.wf(),
        ensures
            r.0 as int == count_of(store.counts_map(), latest_count_key_spec(site@, room_id@)),
            r.1 as int == count_of(store.counts_map(), total_count_key_spec(site@, room_id@)),
    {
        let latest_key = latest_count_key(site, room_id);
        let total_key = total_count_key(site, room_id);
        (store.get_count(latest_key.as_str()), store.get_count(total_key.as_str()))
    }

    /// The site's total unread count, an absent cell reading as zero.
    pub fn get_total_unread(store: &CounterStore, site: &str) -> (r: i64)
        requires
            store.wf(),
        ensures
            r as int == count_of(store.counts_map(), total_unread_key_spec(site@)),
    {
        let unread_key = total_unread_key(site);
        store.get_count(unread_key.as_str())
    }

    /// Snapshot the site's room set into its text cell, comma-separated.
    pub fn set_site_rooms(store: &mut CounterStore, site: &str, rooms: &Vec<String>)
        requires
            old(store).wf(),
        ensures
            final(store).wf(),
            final(store).texts_map() == old(store).texts_map().insert(
                site_rooms_key_spec(site@),
                final(store).texts_map()[site_rooms_key_spec(site@)],
            ),
            final(store).texts_map()[site_rooms_key_spec(site@)]@ == join_csv(
                rooms@.map_values(|s: String| s@),
            ),
            final(store).counts_map() == old(store).counts_map(),
    {
        let key = site_rooms_key(site);
        let joined = join_rooms(rooms);
        store.set_text(key.as_str(), joined);
    }

    /// Read the site's room-set snapshot back; an absent cell is an empty set.
    pub fn get_site_rooms(store: &CounterStore, site: &str) -> (r: Vec<String>)
        requires
            store.wf(),
        ensures
            r@.map_values(|s: String| s@) == if store.texts_map().contains_key(
                site_rooms_key_spec(site@),
            ) {
                split_csv(store.texts_map()[site_rooms_key_spec(site@)]@)
            } else {
                Seq::<Seq<char>>::empty()
            },
    {
        let key = site_rooms_key(site);
        match store.get_text(key.as_str()) {
            Some(text) => split_rooms(text.as_str()),
            None => {
                let r: Vec<String> = Vec::new();
                proof {
                    assert(r@.map_values(|s: String| s@) =~= Seq::<Seq<char>>::empty());
                }
                r
            },
        }
    }
}

/// The comma-separated form of a sequence of names.
pub open spec fn join_csv(rs: Seq<Seq<char>>) -> Seq<char>
    decreases rs.len(),
{
    if rs.len() == 0 {
        Seq::empty()
    } else if rs.len() == 1 {
        rs[0]
    } else {
        join_csv(rs.drop_last()) + seq![','] + rs.last()
    }
}

/// The position of the first comma of `s`, or `s.len()` if there is none.
pub open spec fn comma_index(s: Seq<char>) -> int
    decreases s.len(),
{
    if s.len() == 0 {
        0
    } else if s[0] == ',' {
        0
    } else {
        1 + comma_index(s.subrange(1, s.len() as int))
    }
}

/// The names of a comma-separated string, in order; empty input is no names.
pub open spec fn split_csv(s: Seq<char>) -> Seq<Seq<char>>
    decreases s.len(),
{
    if s.len() == 0 {
        Seq::empty()
    } else {
        let i = comma_index_clipped(s);
        if i == s.len() {
            seq![s]
        } else {
            seq![s.subrange(0, i)] + split_csv(s.subrange(i + 1, s.len() as int))
        }
    }
}

/// `comma_index`, clipped into `[0, s.len()]` so that recursion on it is
/// visibly well-founded.
pub open spec fn comma_index_clipped(s: Seq<char>) -> int {
    if 0 <= comma_index(s) <= s.len() {
        comma_index(s)
    } else {
        0
    }
}

/// Join names with commas.
pub fn join_rooms(rooms: &Vec<String>) -> (r: String)
    ensures
        r@ == join_csv(rooms@.map_values(|s: String| s@)),
{
    let ghost views = rooms@.map_values(|s: String| s@);
    let mut r = String::new();
    let n = rooms.len();
    let mut i: usize = 0;
    while i < n
        invariant
            i <= n,
            n == rooms@.len(),
            views == rooms@.map_values(|s: String| s@),
            r@ == join_csv(views.subrange(0, i as int)),
        decreases n - i,
    {
        if i > 0 {
            r.append(",");
            proof {
                reveal_strlit(",");
            }
        }
        r.append(rooms[i].as_str());
        proof {
            let pre = views.subrange(0, i as int);
            let cur = views.subrange(0, i as int + 1);
            assert(cur.drop_last() =~= pre);
            if i > 0 {
                assert(r@ =~= join_csv(pre) + seq![','] + views[i as int]);
            } else {
                assert(r@ =~= views[0]);
            }
        }
        i = i + 1;
    }
    proof {
        assert(views.subrange(0, n as int) =~= views);
    }
    r
}

/// Split a comma-separated string into its names, in order.
pub fn split_rooms(s: &str) -> (r: Vec<String>)
    ensures
        r@.map_values(|x: String| x@) == split_csv(s@),
{
    let len = s.unicode_len();
    let mut r: Vec<String> = Vec::new();
    let mut start: usize = 0;
    let mut i: usize = 0;
    proof {
        assert(s@.subrange(0, len as int) =~= s@);
        assert(r@.map_values(|x: String| x@) + split_csv(s@) =~= split_csv(s@));
    }
    while i < len
        invariant
            start <= i <= len,
            len == s@.len(),
            forall|j: int| start <= j < i ==> s@[j] != ',',
            split_csv(s@) == r@.map_values(|x: String| x@) + split_csv(
                s@.subrange(start as int, len as int),
            ),
        decreases len - i,
    {
        if s.get_char(i) == ',' {
            let ghost prev = r@.map_values(|x: String| x@);
            let piece = s.substring_char(start, i);
            r.push(piece.to_owned());
            proof {
                let tail = s@.subrange(start as int, len as int);
                lemma_comma_at(tail, i - start);
                assert(tail.subrange(0, i - start) =~= s@.subrange(start as int, i as int));
                assert(tail.subrange(i - start + 1, tail.len() as int) =~= s@.subrange(
                    i as int + 1,
                    len as int,
                ));
                assert(split_csv(tail) == seq![piece@] + split_csv(
                    s@.subrange(i as int + 1, len as int),
                ));
                assert(r@.map_values(|x: String| x@) =~= prev.push(piece@));
                assert(prev + seq![piece@] =~= prev.push(piece@));
                assert(prev + (seq![piece@] + split_csv(s@.subrange(i as int + 1, len as int)))
                    =~= (prev + seq![piece@]) + split_csv(s@.subrange(i as int + 1, len as int)));
            }
            start = i + 1;
        }
        i = i + 1;
    }
    if start < len {
        let ghost prev = r@.map_values(|x: String| x@);
        let piece = s.substring_char(start, len);
        r.push(piece.to_owned());
        proof {
            let tail = s@.subrange(start as int, len as int);
            lemma_comma_missing(tail);
            assert(tail.subrange(0, tail.len() as int) =~= tail);
            assert(split_csv(tail) == seq![tail]);
            assert(r@.map_values(|x: String| x@) =~= prev.push(piece@));
            assert(prev + seq![tail] =~= prev.push(piece@));
        }
    } else {
        proof {
            assert(s@.subrange(start as int, len as int).len() == 0);
            assert(r@.map_values(|x: String| x@) + split_csv(
                s@.subrange(start as int, len as int),
            ) =~= r@.map_values(|x: String| x@));
        }
    }
    r
}

/// If position `k` of `s` holds the first comma, `comma_index(s)` is `k`.
pub proof fn lemma_comma_at(s: Seq<char>, k: int)
    requires
        0 <= k < s.len(),
        s[k] == ',',
        forall|j: int| 0 <= j < k ==> s[j] != ',',
    ensures
        comma_index(s) == k,
    decreases k,
{
    if k > 0 {
        let t = s.subrange(1, s.len() as int);
        assert(forall|j: int| 0 <= j < k - 1 ==> t[j] == s[j + 1] && t[j] != ',');
        assert(t[k - 1] == s[k]);
        lemma_comma_at(t, k - 1);
    }
}

/// Without a comma, `comma_index(s)` is the length of `s`.
pub proof fn lemma_comma_missing(s: Seq<char>)
    requires
        forall|j: int| 0 <= j < s.len() ==> s[j] != ',',
    ensures
        comma_index(s) == s.len(),
    decreases s.len(),
{
    if s.len() > 0 {
        let t = s.subrange(1, s.len() as int);
        assert(forall|j: int| 0 <= j < t.len() ==> t[j] == s[j + 1] && t[j] != ',');
        lemma_comma_missing(t);
    }
}


/// A well-formed name set: every name has content and no commas, as the
/// generated room keys do.
pub open spec fn joinable_names(rs: Seq<Seq<char>>) -> bool {
    forall|i: int|
        0 <= i < rs.len() ==> (#[trigger] rs[i]).len() > 0 && (forall|j: int|
            0 <= j < rs[i].len() ==> rs[i][j] != ',')
}

/// Splitting off the first name: with at least two names, the joined form
/// is the first name, a comma, and the joined rest.
proof fn lemma_join_csv_cons(rs: Seq<Seq<char>>)
    requires
        rs.len() >= 2,
    ensures
        join_csv(rs) == rs[0] + seq![','] + join_csv(rs.subrange(1, rs.len() as int)),
    decreases rs.len(),
{
    if rs.len() == 2 {
        assert(rs.drop_last() =~= seq![rs[0]]);
        assert(join_csv(seq![rs[0]]) == rs[0]);
        assert(rs.subrange(1, 2) =~= seq![rs[1]]);
        assert(join_csv(seq![rs[1]]) == rs[1]);
    } else {
        let dl = rs.drop_last();
        lemma_join_csv_cons(dl);
        let tail = rs.subrange(1, rs.len() as int);
        assert(tail.drop_last() =~= dl.subrange(1, dl.len() as int));
        assert(tail.len() >= 2 || tail.len() == 1);
        assert(join_csv(tail) == join_csv(tail.drop_last()) + seq![','] + tail.last());
        assert(tail.last() == rs.last());
        assert(dl[0] == rs[0]);
        assert(join_csv(rs) =~= rs[0] + seq![','] + join_csv(tail));
    }
}

/// Law: the site-room snapshot survives its round trip — splitting the
/// comma-joined form yields the names again, name for name — for any set
/// of names that are non-empty and comma-free, as generated keys are.
pub proof fn lemma_site_rooms_round_trip(rs: Seq<Seq<char>>)
    requires
        joinable_names(rs),
    ensures
        split_csv(join_csv(rs)) == rs,
    decreases rs.len(),
{
    if rs.len() == 0 {
        assert(split_csv(join_csv(rs)) =~= rs);
    } else if rs.len() == 1 {
        let s = join_csv(rs);
        assert(s == rs[0]);
        lemma_comma_missing(s);
        assert(split_csv(s) == seq![s]);
        assert(seq![s] =~= rs);
    } else {
        lemma_join_csv_cons(rs);
        let s = join_csv(rs);
        let head = rs[0];
        let tail = rs.subrange(1, rs.len() as int);
        assert(s == head + seq![','] + join_csv(tail));
        assert(s.len() == head.len() + 1 + join_csv(tail).len());
        assert(s[head.len() as int] == ',');
        assert(forall|j: int| 0 <= j < head.len() ==> s[j] == head[j] && s[j] != ',');
        lemma_comma_at(s, head.len() as int);
        assert(s.subrange(0, head.len() as int) =~= head);
        assert(s.subrange(head.len() + 1 as int, s.len() as int) =~= join_csv(tail));
        assert(joinable_names(tail)) by {
            assert(forall|i: int| 0 <= i < tail.len() ==> tail[i] == rs[i + 1]);
        }
        lemma_site_rooms_round_trip(tail);
        assert(split_csv(s) == seq![head] + tail);
        assert(seq![head] + tail =~= rs);
    }
}

/// The latest-count keys of one site separate its rooms: equal keys mean
/// equal room names.
proof fn lemma_latest_key_injective(site: Seq<char>, r1: Seq<char>, r2: Seq<char>)
    requires
        latest_count_key_spec(site, r1) == latest_count_key_spec(site, r2),
    ensures
        r1 == r2,
{
    reveal_strlit("site:");
    reveal_strlit(":room:");
    reveal_strlit(":latest_count");
    let k1 = latest_count_key_spec(site, r1);
    let k2 = latest_count_key_spec(site, r2);
    assert(k1.len() == 24 + site.len() + r1.len());
    assert(k2.len() == 24 + site.len() + r2.len());
    assert(r1.len() == r2.len());
    assert forall|j: int| 0 <= j < r1.len() implies r1[j] == r2[j] by {
        assert(k1[11 + site.len() + j] == r1[j]);
        assert(k2[11 + site.len() + j] == r2[j]);
    }
    assert(r1 =~= r2);
}

/// A total-count key never reads as a latest-count key: eleven characters
/// from the end the one holds `t` and the other `a`.
proof fn lemma_total_key_is_no_latest_key(site: Seq<char>, r1: Seq<char>, r2: Seq<char>)
    ensures
        total_count_key_spec(site, r1) != latest_count_key_spec(site, r2),
{
    reveal_strlit("site:");
    reveal_strlit(":room:");
    reveal_strlit(":latest_count");
    reveal_strlit(":total_count");
    let k1 = total_count_key_spec(site, r1);
    let k2 = latest_count_key_spec(site, r2);
    if k1 == k2 {
        assert(k1.len() == 23 + site.len() + r1.len());
        assert(k2.len() == 24 + site.len() + r2.len());
        assert(k1[k1.len() - 11] == ":total_count"@[1]);
        assert(k2[k2.len() - 11] == ":latest_count"@[2]);
        assert(":total_count"@[1] == 't');
        assert(":latest_count"@[2] == 'a');
    }
}

/// A site's total-unread key never reads as one of its latest-count keys:
/// the fixed parts force different lengths.
proof fn lemma_unread_key_is_no_latest_key(site: Seq<char>, r: Seq<char>)
    ensures
        total_unread_key_spec(site) != latest_count_key_spec(site, r),
{
    reveal_strlit("site:");
    reveal_strlit(":room:");
    reveal_strlit(":latest_count");
    reveal_strlit(":total_unread");
    assert(total_unread_key_spec(site).len() == 18 + site.len());
    assert(latest_count_key_spec(site, r).len() == 24 + site.len() + r.len());
}

/// The sum of the latest counts of the rooms `rs` of `site`.
pub open spec fn latest_sum(m: Map<Seq<char>, i64>, site: Seq<char>, rs: Seq<Seq<char>>) -> int
    decreases rs.len(),
{
    if rs.len() == 0 {
        0
    } else {
        latest_sum(m, site, rs.drop_last()) + count_of(m, latest_count_key_spec(site, rs.last()))
    }
}

/// The sum reads only the latest-count cells of its rooms.
proof fn lemma_latest_sum_congruence(
    m0: Map<Seq<char>, i64>,
    m1: Map<Seq<char>, i64>,
    site: Seq<char>,
    rs: Seq<Seq<char>>,
)
    requires
        forall|i: int|
            0 <= i < rs.len() ==> count_of(m1, latest_count_key_spec(site, #[trigger] rs[i]))
                == count_of(m0, latest_count_key_spec(site, rs[i])),
    ensures
        latest_sum(m1, site, rs) == latest_sum(m0, site, rs),
    decreases rs.len(),
{
    if rs.len() > 0 {
        assert(forall|i: int| 0 <= i < rs.drop_last().len() ==> rs.drop_last()[i] == rs[i]);
        lemma_latest_sum_congruence(m0, m1, site, rs.drop_last());
        assert(rs.last() == rs[rs.len() - 1]);
    }
}

/// Moving one room's latest count by `delta` moves the sum by `delta`,
/// provided the room list is duplicate-free and holds the room.
proof fn lemma_latest_sum_update(
    m0: Map<Seq<char>, i64>,
    m1: Map<Seq<char>, i64>,
    site: Seq<char>,
    rs: Seq<Seq<char>>,
    room: Seq<char>,
    delta: int,
)
    requires
        forall|i: int, j: int| 0 <= i < j < rs.len() ==> rs[i] != rs[j],
        rs.contains(room),
        count_of(m1, latest_count_key_spec(site, room)) == count_of(
            m0,
            latest_count_key_spec(site, room),
        ) + delta,
        forall|i: int|
            0 <= i < rs.len() && rs[i] != room ==> count_of(
                m1,
                latest_count_key_spec(site, #[trigger] rs[i]),
            ) == count_of(m0, latest_count_key_spec(site, rs[i])),
    ensures
        latest_sum(m1, site, rs) == latest_sum(m0, site, rs) + delta,
    decreases rs.len(),
{
    let d = rs.drop_last();
    assert(forall|i: int| 0 <= i < d.len() ==> d[i] == rs[i]);
    if rs.last() == room {
        assert(!d.contains(room)) by {
            if d.contains(room) {
                let w = choose|w: int| 0 <= w < d.len() && d[w] == room;
                assert(rs[w] == room && rs[rs.len() - 1] == room);
            }
        }
        assert forall|i: int|
            0 <= i < d.len() implies count_of(
            m1,
            latest_count_key_spec(site, #[trigger] d[i]),
        ) == count_of(m0, latest_count_key_spec(site, d[i])) by {
            assert(d[i] == rs[i] && rs[i] != room);
        }
        lemma_latest_sum_congruence(m0, m1, site, d);
        assert(rs.last() == rs[rs.len() - 1]);
    } else {
        assert(d.contains(room)) by {
            let w = choose|w: int| 0 <= w < rs.len() && rs[w] == room;
            assert(w < rs.len() - 1);
            assert(d[w] == room);
        }
        lemma_latest_sum_update(m0, m1, site, d, room, delta);
        assert(rs.last() == rs[rs.len() - 1]);
        assert(rs[rs.len() - 1] != room);
    }
}

/// Law: the paired increment keeps the unread invariant. Where the site
/// total equalled the sum of the latest counts over the site's rooms, it
/// still does after a message raises one cached room's pair of counts and
/// the site total together.
pub proof fn lemma_increase_preserves_unread_sum(
    m0: Map<Seq<char>, i64>,
    site: Seq<char>,
    room: Seq<char>,
    rs: Seq<Seq<char>>,
    count: int,
)
    requires
        forall|i: int, j: int| 0 <= i < j < rs.len() ==> rs[i] != rs[j],
        rs.contains(room),
        count_of(m0, total_unread_key_spec(site)) == latest_sum(m0, site, rs),
        i64::MIN <= count_of(m0, latest_count_key_spec(site, room)) + count <= i64::MAX,
        i64::MIN <= count_of(m0, total_unread_key_spec(site)) + count <= i64::MAX,
    ensures
        ({
            let m1 = m0.insert(
                latest_count_key_spec(site, room),
                (count_of(m0, latest_count_key_spec(site, room)) + count) as i64,
            ).insert(
                total_count_key_spec(site, room),
                (count_of(m0, total_count_key_spec(site, room)) + count) as i64,
            ).insert(
                total_unread_key_spec(site),
                (count_of(m0, total_unread_key_spec(site)) + count) as i64,
            );
            count_of(m1, total_unread_key_spec(site)) == latest_sum(m1, site, rs)
        }),
{
    let m1 = m0.insert(
        latest_count_key_spec(site, room),
        (count_of(m0, latest_count_key_spec(site, room)) + count) as i64,
    ).insert(
        total_count_key_spec(site, room),
        (count_of(m0, total_count_key_spec(site, room)) + count) as i64,
    ).insert(
        total_unread_key_spec(site),
        (count_of(m0, total_unread_key_spec(site)) + count) as i64,
    );
    lemma_counter_keys_distinct(site, room);
    lemma_unread_key_is_no_latest_key(site, room);
    assert(count_of(m1, latest_count_key_spec(site, room)) == count_of(
        m0,
        latest_count_key_spec(site, room),
    ) + count) by {
        lemma_total_key_is_no_latest_key(site, room, room);
    }
    assert forall|i: int|
        0 <= i < rs.len() && rs[i] != room implies count_of(
        m1,
        latest_count_key_spec(site, #[trigger] rs[i]),
    ) == count_of(m0, latest_count_key_spec(site, rs[i])) by {
        if latest_count_key_spec(site, rs[i]) == latest_count_key_spec(site, room) {
            lemma_latest_key_injective(site, rs[i], room);
        }
        lemma_total_key_is_no_latest_key(site, room, rs[i]);
        lemma_unread_key_is_no_latest_key(site, rs[i]);
    }
    lemma_latest_sum_update(m0, m1, site, rs, room, count);
}

/// Law: the room-join reset keeps the unread invariant. Where the site
/// total equalled the sum of the latest counts over the site's rooms,
/// zeroing a cached room's latest count while subtracting exactly that
/// amount from the site total leaves the two sides equal again.
pub proof fn lemma_reset_preserves_unread_sum(
    m0: Map<Seq<char>, i64>,
    site: Seq<char>,
    room: Seq<char>,
    rs: Seq<Seq<char>>,
)
    requires
        forall|i: int, j: int| 0 <= i < j < rs.len() ==> rs[i] != rs[j],
        rs.contains(room),
        count_of(m0, total_unread_key_spec(site)) == latest_sum(m0, site, rs),
        i64::MIN <= count_of(m0, total_unread_key_spec(site)) - count_of(
            m0,
            latest_count_key_spec(site, room),
        ) <= i64::MAX,
    ensures
        ({
            let m1 = m0.insert(
                total_unread_key_spec(site),
                (count_of(m0, total_unread_key_spec(site)) - count_of(
                    m0,
                    latest_count_key_spec(site, room),
                )) as i64,
            ).insert(latest_count_key_spec(site, room), 0);
            count_of(m1, total_unread_key_spec(site)) == latest_sum(m1, site, rs)
        }),
{
    let before = count_of(m0, latest_count_key_spec(site, room));
    let m1 = m0.insert(
        total_unread_key_spec(site),
        (count_of(m0, total_unread_key_spec(site)) - before) as i64,
    ).insert(latest_count_key_spec(site, room), 0);
    lemma_unread_key_is_no_latest_key(site, room);
    assert(count_of(m1, latest_count_key_spec(site, room)) == 0);
    assert forall|i: int|
        0 <= i < rs.len() && rs[i] != room implies count_of(
        m1,
        latest_count_key_spec(site, #[trigger] rs[i]),
    ) == count_of(m0, latest_count_key_spec(site, rs[i])) by {
        if latest_count_key_spec(site, rs[i]) == latest_count_key_spec(site, room) {
            lemma_latest_key_injective(site, rs[i], room);
        }
        lemma_unread_key_is_no_latest_key(site, rs[i]);
    }
    lemma_latest_sum_update(m0, m1, site, rs, room, 0 - before);
}
} // verus!
