//! The relay entry decisions: validating the upgrade parameters, resolving
//! the operator's room (degrading to a placeholder when the key names no
//! row), extracting the bearer token, and choosing the client address to
//! record. The HTTP plumbing around them performs what these decide.

use vstd::prelude::*;

use crate::counter::comma_index_clipped;
use crate::session::{trim_of, trim_spaces};
use crate::store::{option_str_view, room_view, ChatRoom};

verus! {

/// Who is connecting.
#[derive(PartialEq, Eq, Structural, Debug, Clone, Copy)]
pub enum Role {
    Operator,
    Visitor,
}

/// Why an upgrade request is rejected before any session exists.
#[derive(PartialEq, Eq, Structural, Debug, Clone, Copy)]
pub enum HandshakeError {
    /// No site key parameter.
    MissingSiteKey,
    /// No role parameter.
    MissingClient,
    /// A role parameter other than the two known ones.
    InvalidRole,
    /// An operator connected without naming a room.
    MissingRoomKey,
}

/// A validated upgrade request: the site, the caller's role, and the room
/// key — present for sure when the caller is an operator.
pub struct HandshakeRequest {
    pub site_key: String,
    pub role: Role,
    pub room_key: Option<String>,
}

/// Validate the upgrade parameters: the site key and role are required,
/// the role must read `0` (operator) or `1` (visitor), and an operator
/// must name a room. Exactly the requests meeting that go through.
pub fn handshake_params(
    site_key: Option<String>,
    client: Option<String>,
    room_key: Option<String>,
) -> (r: Result<HandshakeRequest, HandshakeError>)
    ensures
        match r {
            Ok(req) => {
                &&& option_str_view(site_key) == Some(req.site_key@)
                &&& (option_str_view(client) == Some("0"@) || option_str_view(client) == Some(
                    "1"@,
                ))
                &&& req.role == (if option_str_view(client) == Some("0"@) {
                    Role::Operator
                } else {
                    Role::Visitor
                })
                &&& option_str_view(req.room_key) == option_str_view(room_key)
                &&& (req.role == Role::Operator ==> req.room_key is Some)
            },
            Err(e) => match e {
                HandshakeError::MissingSiteKey => option_str_view(site_key) is None,
                HandshakeError::MissingClient => option_str_view(site_key) is Some
                    && option_str_view(client) is None,
                HandshakeError::InvalidRole => option_str_view(site_key) is Some && (
                option_str_view(client) matches Some(c) && c != "0"@ && c != "1"@),
                HandshakeError::MissingRoomKey => option_str_view(site_key) is Some
                    && option_str_view(client) == Some("0"@) && option_str_view(room_key) is None,
            },
        },
{
    let site_key = match site_key {
        Some(k) => k,
        None => {
            return Err(HandshakeError::MissingSiteKey);
        },
    };
    let client = match client {
        Some(c) => c,
        None => {
            return Err(HandshakeError::MissingClient);
        },
    };
    let role = if crate::util::str_eq(client.as_str(), "0") {
        Role::Operator
    } else if crate::util::str_eq(client.as_str(), "1") {
        Role::Visitor
    } else {
        return Err(HandshakeError::InvalidRole);
    };
    proof {
        reveal_strlit("0");
        reveal_strlit("1");
    }
    if matches!(role, Role::Operator) && room_key.is_none() {
        return Err(HandshakeError::MissingRoomKey);
    }
    Ok(HandshakeRequest { site_key, role, room_key })
}

/// The placeholder room an operator falls back to when the named key has
/// no row: empty identity, nothing persisted about it.
pub open spec fn placeholder_room_view() -> (
    u64,
    Seq<char>,
    Seq<char>,
    u64,
    Option<Seq<char>>,
    u64,
    u64,
) {
    (0, Seq::empty(), Seq::empty(), 0, None, 0, 0)
}

/// The room an operator session attaches to: the looked-up row, or the
/// placeholder when the key named none — the handshake degrades rather
/// than fails.
pub fn operator_room(lookup: Option<ChatRoom>) -> (r: ChatRoom)
    ensures
        match lookup {
            Some(room) => room_view(r) == room_view(room),
            None => room_view(r) == placeholder_room_view(),
        },
{
    match lookup {
        Some(room) => room,
        None => {
            proof {
                reveal_strlit("");
            }
            ChatRoom {
                id: 0,
                room_key: "".to_owned(),
                status: "".to_owned(),
                room_site_id: 0,
                client_info: None,
                create_at: 0,
                update_at: 0,
            }
        },
    }
}

/// What `strip_bearer` leaves of an authorization header value.
pub open spec fn bearer_token_of(s: Seq<char>) -> Seq<char> {
    if s.len() >= 7 && s.subrange(0, 7) == "Bearer "@ {
        s.subrange(7, s.len() as int)
    } else {
        s
    }
}

/// The bearer token of an authorization header: the value with its
/// `Bearer ` prefix gone, or nothing when no header came or it was empty.
pub fn get_token(authorization: Option<&str>) -> (r: Option<String>)
    ensures
        match authorization {
            None => r is None,
            Some(h) => if bearer_token_of(h@).len() == 0 {
                r is None
            } else {
                r matches Some(t) && t@ == bearer_token_of(h@)
            },
        },
{
    let h = match authorization {
        Some(h) => h,
        None => {
            return None;
        },
    };
    let len = h.unicode_len();
    let stripped: &str = if len >= 7 && crate::util::str_eq(h.substring_char(0, 7), "Bearer ") {
        h.substring_char(7, len)
    } else {
        h
    };
    if stripped.unicode_len() == 0 {
        None
    } else {
        Some(stripped.to_owned())
    }
}

/// The address the visitor's room records: the first entry of the
/// forwarded-for header when one came with content, else the transport's
/// own peer address.
pub open spec fn chosen_client_ip(forwarded: Option<Seq<char>>, real_ip: Seq<char>) -> Seq<char> {
    match forwarded {
        Some(f) => if f.len() > 0 {
            trim_of(f.subrange(0, comma_index_clipped(f)))
        } else {
            real_ip
        },
        None => real_ip,
    }
}

/// See `chosen_client_ip`.
pub fn select_client_ip(forwarded: Option<&str>, real_ip: &str) -> (r: String)
    ensures
        r@ == chosen_client_ip(
            match forwarded {
                Some(f) => Some(f@),
                None => None,
            },
            real_ip@,
        ),
{
    match forwarded {
        Some(f) => {
            let len = f.unicode_len();
            if len == 0 {
                return real_ip.to_owned();
            }
            let mut i: usize = 0;
            while i < len && f.get_char(i) != ','
                invariant
                    i <= len,
                    len == f@.len(),
                    forall|j: int| 0 <= j < i ==> f@[j] != ',',
                decreases len - i,
            {
                i = i + 1;
            }
            proof {
                if i < len {
                    crate::counter::lemma_comma_at(f@, i as int);
                } else {
                    crate::counter::lemma_comma_missing(f@);
                }
            }
            let first = f.substring_char(0, i);
            trim_spaces(first).to_owned()
        },
        None => real_ip.to_owned(),
    }
}

} // verus!
