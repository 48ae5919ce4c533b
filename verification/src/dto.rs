//! The frames the relay delivers: chat-message echoes and aggregate unread
//! notifications, together with their constructors.

use vstd::prelude::*;

use crate::counter::{count_of, latest_count_key_spec, CounterStore, MessageStatusManager};
use crate::dates::{civil_of_epoch, current_date, date_ymdhms, ymdhms_seq, CivilDateTime};

verus! {

/// A chat-message echo frame.
#[derive(Debug)]
pub struct ChatMessageDto {
    pub text: String,
    pub time: String,
    pub user: bool,
    pub user_name: Option<String>,
    pub str_files: Option<String>,
    pub notify: String,
    pub room_id: Option<String>,
}

/// One attachment reference inside a chat-message frame.
#[derive(Debug)]
pub struct ChatMessageFileDto {
    pub url: String,
    pub name: String,
}

/// An attachment record as persisted alongside a message.
#[derive(Debug)]
pub struct ChatFiles {
    file_key: String,
    url: String,
    file_name: String,
}

impl ChatFiles {
    pub fn new(file_key: String, url: String, file_name: String) -> (r: ChatFiles)
        ensures
            r.view() == (file_key@, url@, file_name@),
    {
        ChatFiles { file_key, url, file_name }
    }

    pub closed spec fn view(self) -> (Seq<char>, Seq<char>, Seq<char>) {
        (self.file_key@, self.url@, self.file_name@)
    }
}

/// The sender flag a frame carries: the flag handed in, flipped when no
/// sender name is known, so an anonymous frame reads as the peer's.
pub open spec fn displayed_user_flag(from_user: bool, user_name: Option<Seq<char>>) -> bool {
    if user_name is None {
        !from_user
    } else {
        from_user
    }
}

impl ChatMessageDto {
    /// A text frame stamped with the given moment.
    pub fn new_text_msg_at(
        text: &str,
        from_user: bool,
        user_name: Option<String>,
        room_id: Option<String>,
        time: CivilDateTime,
    ) -> (r: ChatMessageDto)
        ensures
            r.text@ == text@,
            r.time@ == ymdhms_seq(time),
            r.user == displayed_user_flag(from_user, option_view(user_name)),
            r.user_name == user_name,
            option_view(r.str_files) == Some(Seq::<char>::empty()),
            r.notify@ == Seq::<char>::empty(),
            r.room_id == room_id,
    {
        let user = if user_name.is_none() {
            !from_user
        } else {
            from_user
        };
        proof {
            reveal_strlit("");
        }
        ChatMessageDto {
            text: text.to_owned(),
            time: date_ymdhms(time),
            user,
            user_name,
            str_files: Some("".to_owned()),
            notify: "".to_owned(),
            room_id,
        }
    }

    /// A text frame stamped with the current wall clock.
    pub fn new_text_msg(
        text: &str,
        from_user: bool,
        user_name: Option<String>,
        room_id: Option<String>,
    ) -> (r: ChatMessageDto)
        ensures
            r.text@ == text@,
            r.user == displayed_user_flag(from_user, option_view(user_name)),
            r.user_name == user_name,
            option_view(r.str_files) == Some(Seq::<char>::empty()),
            r.notify@ == Seq::<char>::empty(),
            r.room_id == room_id,
            exists|s: int| 0 <= s && r.time@ == ymdhms_seq(civil_of_epoch(s, 0)),
    {
        let now = current_date(0);
        Self::new_text_msg_at(text, from_user, user_name, room_id, now)
    }

    /// A service-notice frame stamped with the given moment.
    pub fn new_notify_msg_at(
        notify: &str,
        from_user: bool,
        user_name: Option<String>,
        room_id: Option<String>,
        time: CivilDateTime,
    ) -> (r: ChatMessageDto)
        ensures
            r.text@ == Seq::<char>::empty(),
            r.time@ == ymdhms_seq(time),
            r.user == from_user,
            r.user_name == user_name,
            option_view(r.str_files) == Some(Seq::<char>::empty()),
            r.notify@ == notify@,
            r.room_id == room_id,
    {
        proof {
            reveal_strlit("");
        }
        ChatMessageDto {
            text: "".to_owned(),
            time: date_ymdhms(time),
            user: from_user,
            user_name,
            str_files: Some("".to_owned()),
            notify: notify.to_owned(),
            room_id,
        }
    }

    /// A service-notice frame stamped with the current wall clock.
    pub fn new_notify_msg(
        notify: &str,
        from_user: bool,
        user_name: Option<String>,
        room_id: Option<String>,
    ) -> (r: ChatMessageDto)
        ensures
            r.text@ == Seq::<char>::empty(),
            r.user == from_user,
            r.user_name == user_name,
            option_view(r.str_files) == Some(Seq::<char>::empty()),
            r.notify@ == notify@,
            r.room_id == room_id,
            exists|s: int| 0 <= s && r.time@ == ymdhms_seq(civil_of_epoch(s, 0)),
    {
        let now = current_date(0);
        Self::new_notify_msg_at(notify, from_user, user_name, room_id, now)
    }

    /// A text frame carrying an attachment list, stamped with the given
    /// moment.
    pub fn new_text_str_files_msg_at(
        text: &str,
        files: Option<String>,
        from_user: bool,
        user_name: Option<String>,
        room_id: Option<String>,
        time: CivilDateTime,
    ) -> (r: ChatMessageDto)
        ensures
            r.text@ == text@,
            r.time@ == ymdhms_seq(time),
            r.user == displayed_user_flag(from_user, option_view(user_name)),
            r.user_name == user_name,
            r.str_files == files,
            r.notify@ == Seq::<char>::empty(),
            r.room_id == room_id,
    {
        let user = if user_name.is_none() {
            !from_user
        } else {
            from_user
        };
        proof {
            reveal_strlit("");
        }
        ChatMessageDto {
            text: text.to_owned(),
            time: date_ymdhms(time),
            user,
            user_name,
            str_files: files,
            notify: "".to_owned(),
            room_id,
        }
    }

    /// A text frame carrying an attachment list, stamped with the current
    /// wall clock.
    pub fn new_text_str_files_msg(
        text: &str,
        files: Option<String>,
        from_user: bool,
        user_name: Option<String>,
        room_id: Option<String>,
    ) -> (r: ChatMessageDto)
        ensures
            r.text@ == text@,
            r.user == displayed_user_flag(from_user, option_view(user_name)),
            r.user_name == user_name,
            r.str_files == files,
            r.notify@ == Seq::<char>::empty(),
            r.room_id == room_id,
            exists|s: int| 0 <= s && r.time@ == ymdhms_seq(civil_of_epoch(s, 0)),
    {
        let now = current_date(0);
        Self::new_text_str_files_msg_at(text, files, from_user, user_name, room_id, now)
    }
}

/// The view of an optional string.
pub open spec fn option_view(o: Option<String>) -> Option<Seq<char>> {
    match o {
        Some(s) => Some(s@),
        None => None,
    }
}

/// An aggregate unread notification.
#[derive(Debug)]
pub struct ChatNotify {
    pub to_server: bool,
    pub message: ChatNotifyMessageDto,
}

/// The body of an aggregate unread notification: the site total and one
/// latest count per room.
#[derive(Debug)]
pub struct ChatNotifyMessageDto {
    pub total_unread: i64,
    pub new_message: bool,
    pub message_counts: Vec<(String, i64)>,
}

impl ChatNotify {
    /// Assemble the site's unread snapshot from the counter store: the
    /// site's total unread and, for each of the rooms handed in, that
    /// room's latest count.
    pub fn new_from_redis(store: &CounterStore, site_key: &str, rooms: &Vec<String>) -> (r:
        ChatNotify)
        requires
            store.wf(),
        ensures
            r.to_server,
            r.message.new_message,
            r.message.total_unread as int == count_of(
                store.counts_map(),
                crate::counter::total_unread_key_spec(site_key@),
            ),
            r.message.message_counts@.len() == rooms@.len(),
            forall|i: int|
                0 <= i < rooms@.len() ==> (#[trigger] r.message.message_counts@[i]).0@
                    == rooms@[i]@ && r.message.message_counts@[i].1 as int == count_of(
                    store.counts_map(),
                    latest_count_key_spec(site_key@, rooms@[i]@),
                ),
    {
        let total_unread = MessageStatusManager::get_total_unread(store, site_key);
        let mut message_counts: Vec<(String, i64)> = Vec::new();
        let n = rooms.len();
        let mut i: usize = 0;
        while i < n
            invariant
                i <= n,
                n == rooms@.len(),
                store.wf(),
                message_counts@.len() == i as int,
                forall|j: int|
                    0 <= j < i ==> (#[trigger] message_counts@[j]).0@ == rooms@[j]@
                        && message_counts@[j].1 as int == count_of(
                        store.counts_map(),
                        latest_count_key_spec(site_key@, rooms@[j]@),
                    ),
            decreases n - i,
        {
            let (latest, _total) = MessageStatusManager::get_room_message_counts(
                store,
                site_key,
                rooms[i].as_str(),
            );
            message_counts.push((rooms[i].clone(), latest));
            i = i + 1;
        }
        ChatNotify {
            to_server: true,
            message: ChatNotifyMessageDto { total_unread, new_message: true, message_counts },
        }
    }
}

} // verus!
