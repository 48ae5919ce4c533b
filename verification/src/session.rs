//! One live connection's protocol logic: its lifecycle, the heartbeat
//! deadline, the parsing of inbound text frames into commands, and the
//! server-side stamping of an inbound chat message. The transport itself
//! stays outside; these functions decide, and the caller performs.

use vstd::prelude::*;

use crate::store::{option_str_view, ChatMessage};
use crate::util::str_eq;

verus! {

/// How often a heartbeat ping goes out, in milliseconds.
pub const HEARTBEAT_INTERVAL_MS: u64 = 5000;

/// How long a silent peer is tolerated, in milliseconds.
pub const CLIENT_TIMEOUT_MS: u64 = 20000;

/// The liveness check only works because the timeout outlasts the ping
/// interval: a healthy peer always gets a chance to answer in time.
pub proof fn lemma_timeout_outlasts_interval()
    ensures
        CLIENT_TIMEOUT_MS > HEARTBEAT_INTERVAL_MS,
{
}

/// A connection's lifecycle. `Closed` is terminal.
#[derive(PartialEq, Eq, Structural, Debug, Clone, Copy)]
pub enum SessionState {
    Connecting,
    Active,
    Closed,
}

/// The connection-local state of one session.
pub struct WsChatSession {
    pub site_key: String,
    pub id: usize,
    pub hb_ms: u64,
    pub room: String,
    pub room_id: u64,
    pub user_id: Option<u64>,
    pub user_name: Option<String>,
    pub name: Option<String>,
    pub user_type: usize,
    pub state: SessionState,
}

impl WsChatSession {
    /// A session is an operator's exactly when it carries an identity.
    pub open spec fn is_operator(self) -> bool {
        self.user_id is Some
    }

    /// A fresh session, not yet registered with the hub.
    pub fn new(
        site_key: String,
        room: String,
        room_id: u64,
        user_id: Option<u64>,
        user_name: Option<String>,
        now_ms: u64,
    ) -> (s: WsChatSession)
        ensures
            s.state == SessionState::Connecting,
            s.site_key@ == site_key@,
            s.room@ == room@,
            s.room_id == room_id,
            s.user_id == user_id,
            s.user_name == user_name,
            s.name is None,
            s.hb_ms == now_ms,
            s.user_type == (if user_id is Some {
                0usize
            } else {
                1usize
            }),
    {
        let user_type: usize = if user_id.is_some() {
            0
        } else {
            1
        };
        WsChatSession {
            site_key,
            id: 0,
            hb_ms: now_ms,
            room,
            room_id,
            user_id,
            user_name,
            name: None,
            user_type,
            state: SessionState::Connecting,
        }
    }

    /// The hub accepted the registration: the session turns active under
    /// its assigned id.
    pub fn on_registered(&mut self, id: usize)
        requires
            old(self).state == SessionState::Connecting,
        ensures
            *final(self) == (WsChatSession { id, state: SessionState::Active, ..*old(self) }),
    {
        self.id = id;
        self.state = SessionState::Active;
    }

    /// The transport closed, errored, or registration failed: terminal.
    pub fn on_closed(&mut self)
        ensures
            *final(self) == (WsChatSession { state: SessionState::Closed, ..*old(self) }),
    {
        self.state = SessionState::Closed;
    }

    /// A ping or pong arrived: the liveness deadline moves forward.
    pub fn on_heartbeat(&mut self, now_ms: u64)
        ensures
            *final(self) == (WsChatSession { hb_ms: now_ms, ..*old(self) }),
    {
        self.hb_ms = now_ms;
    }

    /// A command named the peer.
    pub fn set_name(&mut self, name: String)
        ensures
            *final(self) == (WsChatSession { name: Some(name), ..*old(self) }),
    {
        self.name = Some(name);
    }

    /// Whether the peer has been silent past the timeout at `now_ms`.
    pub fn hb_timed_out(&self, now_ms: u64) -> (r: bool)
        ensures
            r == (now_ms > self.hb_ms + CLIENT_TIMEOUT_MS),
    {
        if self.hb_ms > u64::MAX - CLIENT_TIMEOUT_MS {
            false
        } else {
            now_ms > self.hb_ms + CLIENT_TIMEOUT_MS
        }
    }
}

pub open spec fn is_space_char(c: char) -> bool {
    c == ' ' || c == '\t' || c == '\n' || c == '\r'
}

/// `s` with leading spaces gone.
pub open spec fn trim_start_of(s: Seq<char>) -> Seq<char>
    decreases s.len(),
{
    if s.len() > 0 && is_space_char(s[0]) {
        trim_start_of(s.subrange(1, s.len() as int))
    } else {
        s
    }
}

/// `s` with trailing spaces gone.
pub open spec fn trim_end_of(s: Seq<char>) -> Seq<char>
    decreases s.len(),
{
    if s.len() > 0 && is_space_char(s.last()) {
        trim_end_of(s.drop_last())
    } else {
        s
    }
}

/// `s` with spaces gone from both ends.
pub open spec fn trim_of(s: Seq<char>) -> Seq<char> {
    trim_end_of(trim_start_of(s))
}

/// Skipping any number of leading spaces does not change the trim.
proof fn lemma_trim_start_skip(s: Seq<char>, k: int)
    requires
        0 <= k <= s.len(),
        forall|j: int| 0 <= j < k ==> is_space_char(s[j]),
    ensures
        trim_start_of(s) == trim_start_of(s.subrange(k, s.len() as int)),
    decreases k,
{
    if k > 0 {
        let t = s.subrange(1, s.len() as int);
        assert(forall|j: int| 0 <= j < k - 1 ==> is_space_char(#[trigger] t[j]));
        lemma_trim_start_skip(t, k - 1);
        assert(t.subrange(k - 1, t.len() as int) =~= s.subrange(k, s.len() as int));
    } else {
        assert(s.subrange(0, s.len() as int) =~= s);
    }
}

/// Dropping any number of trailing spaces does not change the trim.
proof fn lemma_trim_end_skip(s: Seq<char>, k: int)
    requires
        0 <= k <= s.len(),
        forall|j: int| k <= j < s.len() ==> is_space_char(s[j]),
    ensures
        trim_end_of(s) == trim_end_of(s.subrange(0, k)),
    decreases s.len() - k,
{
    if k < s.len() {
        lemma_trim_end_skip(s.drop_last(), k);
        assert(s.drop_last().subrange(0, k) =~= s.subrange(0, k));
    } else {
        assert(s.subrange(0, k) =~= s);
    }
}

/// Trim spaces from both ends of a text frame.
pub fn trim_spaces<'a>(s: &'a str) -> (r: &'a str)
    ensures
        r@ == trim_of(s@),
{
    let len = s.unicode_len();
    let mut start: usize = 0;
    while start < len && is_space(s.get_char(start))
        invariant
            start <= len,
            len == s@.len(),
            forall|j: int| 0 <= j < start ==> is_space_char(s@[j]),
        decreases len - start,
    {
        start = start + 1;
    }
    let mut end: usize = len;
    while end > start && is_space(s.get_char(end - 1))
        invariant
            start <= end <= len,
            len == s@.len(),
            forall|j: int| 0 <= j < start ==> is_space_char(s@[j]),
            forall|j: int| end <= j < len ==> is_space_char(s@[j]),
        decreases end,
    {
        end = end - 1;
    }
    let r = s.substring_char(start, end);
    proof {
        lemma_trim_start_skip(s@, start as int);
        let tail = s@.subrange(start as int, len as int);
        assert(trim_start_of(tail) == tail) by {
            if tail.len() > 0 {
                assert(tail[0] == s@[start as int]);
            }
        }
        assert(forall|j: int|
            end - start <= j < tail.len() ==> is_space_char(#[trigger] tail[j]));
        lemma_trim_end_skip(tail, end - start);
        assert(trim_end_of(tail.subrange(0, end - start)) == tail.subrange(0, end - start)) by {
            let cut = tail.subrange(0, end - start);
            if cut.len() > 0 {
                assert(cut.last() == s@[end - 1]);
            }
        }
        assert(tail.subrange(0, end - start) =~= s@.subrange(start as int, end as int));
    }
    r
}

fn is_space(c: char) -> (r: bool)
    ensures
        r == is_space_char(c),
{
    c == ' ' || c == '\t' || c == '\n' || c == '\r'
}

/// What an inbound text frame asks for.
pub enum Command {
    /// `/list`: the room snapshot.
    List,
    /// `/join <room>`: switch into the room.
    Join(String),
    /// `/join` with no argument: ignored.
    JoinNoArg,
    /// `/name <label>`: label the peer.
    Name(String),
    /// `/name` with no argument: answered with an error frame.
    NameNoArg,
    /// An unrecognised slash command: answered with an error frame.
    Unknown,
    /// Anything else: a chat payload, to be read as a message object.
    Chat(String),
}

/// The specification-level mirror of `Command`.
pub enum CommandView {
    List,
    Join(Seq<char>),
    JoinNoArg,
    Name(Seq<char>),
    NameNoArg,
    Unknown,
    Chat(Seq<char>),
}

pub open spec fn command_view(c: Command) -> CommandView {
    match c {
        Command::List => CommandView::List,
        Command::Join(s) => CommandView::Join(s@),
        Command::JoinNoArg => CommandView::JoinNoArg,
        Command::Name(s) => CommandView::Name(s@),
        Command::NameNoArg => CommandView::NameNoArg,
        Command::Unknown => CommandView::Unknown,
        Command::Chat(s) => CommandView::Chat(s@),
    }
}

/// The position of the first blank of `s`, or `s.len()` if there is none.
pub open spec fn space_index(s: Seq<char>) -> int
    decreases s.len(),
{
    if s.len() == 0 {
        0
    } else if s[0] == ' ' {
        0
    } else {
        1 + space_index(s.subrange(1, s.len() as int))
    }
}

/// `space_index`, clipped into `[0, s.len()]`.
pub open spec fn space_index_clipped(s: Seq<char>) -> int {
    if 0 <= space_index(s) <= s.len() {
        space_index(s)
    } else {
        0
    }
}

/// What a trimmed-and-parsed text frame means: slash commands split at the
/// first blank, everything else a chat payload.
pub open spec fn command_of(s: Seq<char>) -> CommandView {
    let t = trim_of(s);
    if t.len() == 0 || t[0] != '/' {
        CommandView::Chat(t)
    } else {
        let sp = space_index_clipped(t);
        let head = t.subrange(0, sp);
        let arg = t.subrange(clamp_index(sp + 1, t.len() as int), t.len() as int);
        if head == "/list"@ {
            CommandView::List
        } else if head == "/join"@ {
            if sp < t.len() {
                CommandView::Join(arg)
            } else {
                CommandView::JoinNoArg
            }
        } else if head == "/name"@ {
            if sp < t.len() {
                CommandView::Name(arg)
            } else {
                CommandView::NameNoArg
            }
        } else {
            CommandView::Unknown
        }
    }
}

/// Clamp `x` into `[0, n]`.
pub open spec fn clamp_index(x: int, n: int) -> int {
    if x < 0 {
        0
    } else if x > n {
        n
    } else {
        x
    }
}

/// If position `k` of `s` holds the first blank, `space_index(s)` is `k`.
proof fn lemma_space_index_prefix(s: Seq<char>, k: int)
    requires
        0 <= k < s.len(),
        s[k] == ' ',
        forall|j: int| 0 <= j < k ==> s[j] != ' ',
    ensures
        space_index(s) == k,
    decreases k,
{
    if k > 0 {
        let t = s.subrange(1, s.len() as int);
        assert(forall|j: int| 0 <= j < k - 1 ==> t[j] == s[j + 1] && t[j] != ' ');
        assert(t[k - 1] == s[k]);
        lemma_space_index_prefix(t, k - 1);
    }
}

/// Without a blank, `space_index(s)` is the length of `s`.
proof fn lemma_space_index_none(s: Seq<char>)
    requires
        forall|j: int| 0 <= j < s.len() ==> s[j] != ' ',
    ensures
        space_index(s) == s.len(),
    decreases s.len(),
{
    if s.len() > 0 {
        let t = s.subrange(1, s.len() as int);
        assert(forall|j: int| 0 <= j < t.len() ==> t[j] == s[j + 1] && t[j] != ' ');
        lemma_space_index_none(t);
    }
}

/// Parse one inbound text frame.
pub fn parse_frame(text: &str) -> (c: Command)
    ensures
        command_view(c) == command_of(text@),
{
    let t = trim_spaces(text);
    let len = t.unicode_len();
    if len == 0 || t.get_char(0) != '/' {
        return Command::Chat(t.to_owned());
    }
    let mut sp: usize = 0;
    while sp < len && t.get_char(sp) != ' '
        invariant
            sp <= len,
            len == t@.len(),
            forall|j: int| 0 <= j < sp ==> t@[j] != ' ',
        decreases len - sp,
    {
        sp = sp + 1;
    }
    proof {
        if sp < len {
            lemma_space_index_prefix(t@, sp as int);
        } else {
            lemma_space_index_none(t@);
        }
    }
    let head = t.substring_char(0, sp);
    let has_arg = sp < len;
    if str_eq(head, "/list") {
        Command::List
    } else if str_eq(head, "/join") {
        if has_arg {
            Command::Join(t.substring_char(sp + 1, len).to_owned())
        } else {
            Command::JoinNoArg
        }
    } else if str_eq(head, "/name") {
        if has_arg {
            Command::Name(t.substring_char(sp + 1, len).to_owned())
        } else {
            Command::NameNoArg
        }
    } else {
        Command::Unknown
    }
}

/// Stamp an inbound chat payload with the server-assigned fields: the
/// session's own room, the send status, the clock, and the sender identity
/// — absent for a visitor. The row id is left for the store to assign;
/// whatever room or status the client supplied is discarded here by
/// construction.
pub fn stamp_message(
    content: &str,
    str_files: Option<String>,
    sender_label: Option<String>,
    room_id: u64,
    user_id: Option<u64>,
    now: u64,
) -> (m: ChatMessage)
    ensures
        m.id == 0,
        m.name@ == (match option_str_view(sender_label) {
            Some(n) => n,
            None => Seq::<char>::empty(),
        }),
        m.user_id == user_id,
        m.status@ == "sended"@,
        m.content@ == content@,
        m.room_id == room_id,
        option_str_view(m.str_files) == option_str_view(str_files),
        m.create_at == now,
        m.update_at == now,
{
    let name = match sender_label {
        Some(n) => n,
        None => String::new(),
    };
    ChatMessage {
        id: 0,
        name,
        user_id,
        status: "sended".to_owned(),
        content: content.to_owned(),
        room_id,
        str_files,
        create_at: now,
        update_at: now,
    }
}

} // verus!
