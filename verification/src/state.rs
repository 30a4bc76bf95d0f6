//! The chat state machine: line editing, command dispatch, message history
//! and persistence.
use crate::serial::SerialPort;
use crate::state::render::{
    about_bytes, active_users_bytes, empty_line_bytes, init_viewport, message_bytes,
    prompt_bytes, render_about, render_active_users, render_empty_line, render_message,
    render_prompt, render_status, render_system_message, render_time_info, render_welcome,
    status_bytes, system_message_bytes, text, time_info_bytes, viewport_bytes, welcome_bytes,
    write_str,
};
use crate::state::ansi::{CRC_MISMATCH_WARNING, CURSOR_SCROLL_BOTTOM, RESTORE_CURSOR, SAVE_CURSOR};
use crate::storage::{
    decode_exact, decode_history_block, decode_image, decode_users_block, encode_header,
    encode_history, encode_users, header_ok, image, lemma_four_blocks, lemma_wrote_concat,
    history_block_len, history_block_size, image_len, lemma_word, normalized, persisted_wf,
    slot_wf, user_wf, users_block_len, users_block_size, wrote, zeros, PersistedView, Storage,
    CRC_LEN, HEADER_LEN,
};
use crate::types::{
    keep_last, lemma_fixed_string_len, message_views, ring_aligned, ring_layout, ring_wf,
    slot_views, user_views,
    FixedString, Message, MessageView, RingBuffer, User, UserView, MAX_HISTORY, MAX_USERS,
};
use crate::utils::{lemma_crc_fold_concat, parse_u16, parse_u16_spec, Crc32};
use vstd::prelude::*;

pub mod ansi;
pub mod render;

verus! {

/// The complete state of a chat session.
pub struct AppState {
    /// User registry; a slot with status 1 is free.
    pub users: [User; MAX_USERS],
    /// Message history, oldest first, in 64 slots.
    pub history: RingBuffer<Message, MAX_HISTORY>,
    /// The user messages are sent as, if any.
    pub current_user_id: Option<u16>,
    /// The line being edited.
    pub input_buffer: FixedString<256>,
    /// Number of submitted lines since boot, wrapping.
    pub relative_tick: u32,
    /// Host clock at first boot.
    pub boot_epoch: u32,
    /// Set once `init` or `factory_reset` has run.
    pub initialized: bool,
    /// Set by `/exit`.
    pub should_exit: bool,
}

/// The value of an `AppState`.
#[verifier::ext_equal]
pub struct AppView {
    pub users: Seq<UserView>,
    /// The messages, oldest first.
    pub history: Seq<MessageView>,
    /// The history's slots as they lie.
    pub history_slots: Seq<Option<MessageView>>,
    /// The slot of the oldest message.
    pub history_head: nat,
    /// The slot the next message goes to.
    pub history_tail: nat,
    pub current_user_id: Option<u16>,
    pub input: Seq<u8>,
    pub relative_tick: u32,
    pub boot_epoch: u32,
    pub initialized: bool,
    pub should_exit: bool,
}

impl View for AppState {
    type V = AppView;

    open spec fn view(&self) -> AppView {
        AppView {
            users: user_views(self.users@),
            history: message_views(self.history@),
            history_slots: slot_views(self.history.slots()),
            history_head: self.history.head(),
            history_tail: self.history.tail(),
            current_user_id: self.current_user_id,
            input: self.input_buffer@,
            relative_tick: self.relative_tick,
            boot_epoch: self.boot_epoch,
            initialized: self.initialized,
            should_exit: self.should_exit,
        }
    }
}

/// A free user slot.
pub open spec fn free_user() -> UserView {
    UserView { id: 0, status: 1, padding: 0, name: Seq::empty(), name_buffer: zeros(32) }
}

/// The state before initialization: every user slot free, no history and
/// every history slot unwritten.
pub open spec fn uninit_view() -> AppView {
    AppView {
        users: Seq::new(MAX_USERS as nat, |i: int| free_user()),
        history: Seq::empty(),
        history_slots: Seq::new(MAX_HISTORY as nat, |j: int| None),
        history_head: 0,
        history_tail: 0,
        current_user_id: None,
        input: Seq::empty(),
        relative_tick: 0,
        boot_epoch: 0,
        initialized: false,
        should_exit: false,
    }
}

impl AppState {
    /// The state before initialization.
    pub fn uninit() -> (s: Self)
        ensures
            s@ == uninit_view(),
    {
        let empty_user = User { id: 0, status: 1, padding: 0, name: FixedString::new() };
        let s = AppState {
            users: [empty_user; MAX_USERS],
            history: RingBuffer::new(),
            current_user_id: None,
            input_buffer: FixedString::new(),
            relative_tick: 0,
            boot_epoch: 0,
            initialized: false,
            should_exit: false,
        };
        assert forall|i: int| 0 <= i < MAX_USERS implies #[trigger] s@.users[i] == free_user() by {
            assert(s@.users[i].name_buffer =~= zeros(32));
        }
        assert(s@.users =~= uninit_view().users);
        assert(s@.history =~= Seq::<MessageView>::empty());
        assert(s@.history_slots =~= uninit_view().history_slots);
        s
    }

    /// Sets the boot epoch, e.g. from the host clock after a factory reset.
    pub fn set_boot_epoch(&mut self, epoch: u32)
        ensures
            final(self)@ == (AppView { boot_epoch: epoch, ..old(self)@ }),
    {
        self.boot_epoch = epoch;
    }
}

/// The state right after a factory reset.
pub open spec fn reset_view() -> AppView {
    AppView { initialized: true, ..uninit_view() }
}

/// The warning line a factory reset shows in the scroll region.
pub open spec fn reset_warning_bytes() -> Seq<u8> {
    text(SAVE_CURSOR) + text(CURSOR_SCROLL_BOTTOM) + text(CRC_MISMATCH_WARNING) + text(
        RESTORE_CURSOR,
    )
}

/// What a factory reset shows.
pub open spec fn reset_screen() -> Seq<u8> {
    viewport_bytes() + welcome_bytes() + empty_line_bytes() + reset_warning_bytes()
        + empty_line_bytes() + prompt_bytes(reset_view().users, None, Seq::empty())
}

/// The persisted part of a state.
pub open spec fn persisted(v: AppView) -> PersistedView {
    PersistedView {
        boot_epoch: v.boot_epoch,
        users: v.users,
        slots: v.history_slots,
        head: v.history_head,
        tail: v.history_tail,
        history: v.history,
    }
}

impl AppState {
    /// Discards the whole state, marks it initialized and shows the
    /// factory-reset screen with the CRC-mismatch warning.
    #[verifier::rlimit(40)]
    pub fn factory_reset<P: SerialPort>(&mut self, port: &mut P) -> (r: Result<(), &'static str>)
        ensures
            r == Ok::<(), &'static str>(()),
            final(self)@ == reset_view(),
            final(port).sent() == old(port).sent() + reset_screen(),
    {
        *self = AppState::uninit();
        self.initialized = true;
        init_viewport(port);
        render_welcome(port);
        render_empty_line(port);
        write_str(port, SAVE_CURSOR);
        write_str(port, CURSOR_SCROLL_BOTTOM);
        write_str(port, CRC_MISMATCH_WARNING);
        write_str(port, RESTORE_CURSOR);
        render_empty_line(port);
        render_prompt(self, port);
        proof {
            crate::serial::lemma_bytes_concat_assoc(old(port).sent(), viewport_bytes(), welcome_bytes());
        }
        assert(self@ =~= reset_view());
        assert(port.sent() =~= old(port).sent() + reset_screen());
        Ok(())
    }

    /// Writes the header, the user block, the history block and their
    /// CRC32 to `storage`, then flushes it so that the image is permanent.
    /// The blocks are the records as they lie: whole name and content
    /// buffers, and the history's slots with its head, tail and count.
    ///
    /// Whether it succeeds is up to `storage`: every write and the final
    /// flush can fail, and the first error they report is returned. The
    /// contract therefore says what a success leaves on the medium, and
    /// nothing of when a failure comes.
    pub fn flush<S: Storage>(&self, storage: &mut S) -> (r: Result<(), &'static str>)
        ensures
            persisted_wf(persisted(self@)),
            r is Ok ==> wrote(
                old(storage).medium(),
                final(storage).medium(),
                0,
                image(persisted(self@)),
            ),
            r is Ok ==> final(storage).durable() == final(storage).medium(),
    {
        self.history.len();
        proof {
            self.lemma_persistable();
        }
        let ghost m0 = storage.medium();
        let mut crc = Crc32::new();
        let header = encode_header(self.boot_epoch);
        match storage.write(0, header.as_slice()) {
            Ok(()) => {},
            Err(e) => return Err(e),
        }
        crc.update(header.as_slice());
        let ghost m1 = storage.medium();
        proof {
            lemma_word();
        }
        let users = encode_users(&self.users);
        match storage.write(HEADER_LEN, users.as_slice()) {
            Ok(()) => {},
            Err(e) => return Err(e),
        }
        crc.update(users.as_slice());
        let ghost m2 = storage.medium();
        proof {
            lemma_wrote_concat(m0, m1, m2, header@, users@);
            lemma_crc_fold_concat(0xFFFF_FFFFu32, header@, users@);
        }
        let history = encode_history(&self.history);
        match storage.write(HEADER_LEN + users.len(), history.as_slice()) {
            Ok(()) => {},
            Err(e) => return Err(e),
        }
        crc.update(history.as_slice());
        let ghost m3 = storage.medium();
        let ghost body = header@ + users@ + history@;
        proof {
            lemma_wrote_concat(m0, m2, m3, header@ + users@, history@);
            lemma_crc_fold_concat(0xFFFF_FFFFu32, header@ + users@, history@);
        }
        let crc_bytes = vstd::bytes::u32_to_le_bytes(crc.finalize());
        match storage.write(HEADER_LEN + users.len() + history.len(), crc_bytes.as_slice()) {
            Ok(()) => {},
            Err(e) => return Err(e),
        }
        let ghost m4 = storage.medium();
        proof {
            lemma_wrote_concat(m0, m3, m4, body, crc_bytes@);
            assert(body + crc_bytes@ == image(persisted(self@)));
        }
        match storage.flush() {
            Ok(()) => {},
            Err(e) => return Err(e),
        }
        Ok(())
    }
}

/// Whether `s` starts with `p`.
pub open spec fn has_prefix(s: Seq<u8>, p: Seq<u8>) -> bool {
    p.len() <= s.len() && s.subrange(0, p.len() as int) == p
}

/// Whether `u` is an active user with identifier `id`.
pub open spec fn is_active_user(u: UserView, id: u16) -> bool {
    u.id == id && u.status == 0
}

/// Whether some user is active with identifier `id`.
pub open spec fn has_active(users: Seq<UserView>, id: u16) -> bool {
    exists|i: int| 0 <= i < users.len() && #[trigger] is_active_user(users[i], id)
}

/// Whether `i` is the first active user with identifier `id`.
pub open spec fn is_first_active(users: Seq<UserView>, id: u16, i: int) -> bool {
    &&& 0 <= i < users.len()
    &&& is_active_user(users[i], id)
    &&& forall|k: int| 0 <= k < i ==> !#[trigger] is_active_user(users[k], id)
}

/// Whether `j` is the first free slot.
pub open spec fn is_first_free(users: Seq<UserView>, j: int) -> bool {
    &&& 0 <= j < users.len()
    &&& users[j].status == 1
    &&& forall|k: int| 0 <= k < j ==> #[trigger] users[k].status != 1
}

/// The registry after switching to user `id`: unless `id` is already
/// active, the first free slot (if any) becomes an active user `id` with
/// no name.
pub open spec fn registered(users: Seq<UserView>, id: u16) -> Seq<UserView> {
    if has_active(users, id) {
        users
    } else if exists|j: int| is_first_free(users, j) {
        let j = choose|j: int| is_first_free(users, j);
        users.update(
            j,
            UserView {
                id,
                status: 0,
                padding: users[j].padding,
                name: Seq::empty(),
                name_buffer: users[j].name_buffer,
            },
        )
    } else {
        users
    }
}

/// A name cut to the 32 bytes a user name holds.
pub open spec fn bounded_name(name: Seq<u8>) -> Seq<u8> {
    if name.len() <= 32 {
        name
    } else {
        name.subrange(0, 32)
    }
}

/// A name buffer once `name` is written over its front.
pub open spec fn renamed_buffer(buffer: Seq<u8>, name: Seq<u8>) -> Seq<u8> {
    bounded_name(name) + buffer.subrange(bounded_name(name).len() as int, buffer.len() as int)
}

/// The registry after naming user `id`: the first active user `id`, if
/// any, gets the name, written over the front of its name buffer.
pub open spec fn renamed(users: Seq<UserView>, id: u16, name: Seq<u8>) -> Seq<UserView> {
    if has_active(users, id) {
        let i = choose|i: int| is_first_active(users, id, i);
        users.update(
            i,
            UserView {
                name: bounded_name(name),
                name_buffer: renamed_buffer(users[i].name_buffer, name),
                ..users[i]
            },
        )
    } else {
        users
    }
}

/// The text of `/help`.
pub open spec fn help_text() -> Seq<u8> {
    text(
        "Commands: /user <id>, /switch <id>, /name <str>, /users, /status, /time, /ping, /about, /clear, /exit, /help",
    )
}

/// The state after the command in `v.input` (the tick already advanced).
pub open spec fn command_state(v: AppView) -> AppView {
    let b = v.input;
    if b == text("/exit") {
        AppView { should_exit: true, ..v }
    } else if b == text("/clear") {
        v
    } else if has_prefix(b, text("/user ")) || has_prefix(b, text("/switch ")) {
        let skip = if has_prefix(b, text("/user ")) {
            text("/user ").len()
        } else {
            text("/switch ").len()
        };
        match parse_u16_spec(b.subrange(skip as int, b.len() as int)) {
            Some(id) => AppView {
                current_user_id: Some(id),
                users: registered(v.users, id),
                ..v
            },
            None => v,
        }
    } else if has_prefix(b, text("/name ")) {
        match v.current_user_id {
            Some(id) => AppView {
                users: renamed(
                    v.users,
                    id,
                    b.subrange(text("/name ").len() as int, b.len() as int),
                ),
                ..v
            },
            None => v,
        }
    } else {
        v
    }
}

/// A system line at the current tick, framed by empty lines.
pub open spec fn framed(v: AppView, msg: Seq<u8>) -> Seq<u8> {
    empty_line_bytes() + system_message_bytes(v.relative_tick, msg) + empty_line_bytes()
}

/// What the command in `v.input` shows (the tick already advanced).
pub open spec fn command_output(v: AppView) -> Seq<u8> {
    let b = v.input;
    let t = v.relative_tick;
    if b == text("/exit") {
        Seq::empty()
    } else if b == text("/clear") {
        viewport_bytes() + welcome_bytes() + empty_line_bytes()
    } else if has_prefix(b, text("/user ")) || has_prefix(b, text("/switch ")) {
        let skip = if has_prefix(b, text("/user ")) {
            text("/user ").len()
        } else {
            text("/switch ").len()
        };
        match parse_u16_spec(b.subrange(skip as int, b.len() as int)) {
            Some(id) => framed(v, text("User switched successfully.")),
            None => framed(v, text("Error: Invalid user ID.")),
        }
    } else if has_prefix(b, text("/name ")) {
        match v.current_user_id {
            Some(id) => framed(v, text("Display name updated.")),
            None => framed(v, text("Error: Please switch to a user first.")),
        }
    } else {
        empty_line_bytes() + (if b == text("/help") {
            system_message_bytes(t, help_text())
        } else if b == text("/users") {
            active_users_bytes(t, v.users)
        } else if b == text("/status") {
            status_bytes(t, v.history.len())
        } else if b == text("/ping") {
            system_message_bytes(t, text("Pong! System is responsive."))
        } else if b == text("/time") {
            time_info_bytes(t, v.boot_epoch)
        } else if b == text("/about") {
            about_bytes(t)
        } else {
            system_message_bytes(t, text("Unknown command. Type /help for a list of commands."))
        }) + empty_line_bytes()
    }
}

/// Switching to a user registers it at most once: switching to the same
/// user again leaves the registry as it is, and afterwards the user is
/// active unless the registry had no room for it.
pub proof fn lemma_register_once(users: Seq<UserView>, id: u16)
    ensures
        registered(registered(users, id), id) == registered(users, id),
        has_active(registered(users, id), id) || registered(users, id) == users,
{
    if !has_active(users, id) && exists|j: int| is_first_free(users, j) {
        let j = choose|j: int| is_first_free(users, j);
        let after = registered(users, id);
        assert(is_active_user(after[j], id));
    }
}

/// Whether two byte strings are equal.
fn same_bytes(a: &[u8], b: &[u8]) -> (r: bool)
    ensures
        r == (a@ == b@),
{
    if a.len() != b.len() {
        return false;
    }
    let mut i: usize = 0;
    while i < a.len()
        invariant
            i <= a@.len() == b@.len(),
            a@.subrange(0, i as int) == b@.subrange(0, i as int),
        decreases a@.len() - i,
    {
        if a[i] != b[i] {
            assert(a@[i as int] != b@[i as int]);
            return false;
        }
        assert(a@.subrange(0, i + 1) =~= a@.subrange(0, i as int).push(a@[i as int]));
        assert(b@.subrange(0, i + 1) =~= b@.subrange(0, i as int).push(b@[i as int]));
        i = i + 1;
    }
    assert(a@ =~= a@.subrange(0, i as int));
    assert(b@ =~= b@.subrange(0, i as int));
    true
}

/// Whether `a` starts with `p`.
fn starts_with(a: &[u8], p: &[u8]) -> (r: bool)
    ensures
        r == has_prefix(a@, p@),
{
    if p.len() > a.len() {
        return false;
    }
    same_bytes(vstd::slice::slice_subrange(a, 0, p.len()), p)
}

/// Registers user `id` as `registered` says.
fn register_user(users: &mut [User; MAX_USERS], id: u16)
    ensures
        user_views(final(users)@) == registered(user_views(old(users)@), id),
{
    let ghost views = user_views(users@);
    let mut found = false;
    let mut empty_slot: Option<usize> = None;
    let mut i: usize = 0;
    while i < MAX_USERS && !found
        invariant
            i <= MAX_USERS,
            views == user_views(users@),
            views.len() == MAX_USERS,
            users@ == old(users)@,
            !found ==> forall|k: int| 0 <= k < i ==> !#[trigger] is_active_user(views[k], id),
            found ==> i < MAX_USERS && is_first_active(views, id, i as int),
            empty_slot is None ==> forall|k: int| 0 <= k < i ==> #[trigger] views[k].status != 1,
            empty_slot matches Some(j) ==> j < i && is_first_free(views, j as int),
        decreases MAX_USERS - i + if found { 0int } else { 1int },
    {
        let user = &users[i];
        assert(views[i as int] == user@);
        if user.id == id && user.status == 0 {
            found = true;
        } else {
            if user.status == 1 && empty_slot.is_none() {
                empty_slot = Some(i);
            }
            i = i + 1;
        }
    }
    if found {
        assert(is_active_user(views[i as int], id));
        return;
    }
    assert(!has_active(views, id));
    match empty_slot {
        Some(index) => {
            let ghost j = choose|j: int| is_first_free(views, j);
            assert(j == index) by {
                if j < index {
                    assert(views[j].status != 1);
                }
                if index < j {
                    assert(views[index as int].status != 1);
                }
            }
            users[index].id = id;
            users[index].status = 0;
            users[index].name.clear();
            assert(user_views(users@) =~= registered(views, id));
        },
        None => {
            assert(!exists|j: int| is_first_free(views, j));
        },
    }
}

/// Gives user `id` the name `name` as `renamed` says.
fn rename_user(users: &mut [User; MAX_USERS], id: u16, name: &[u8])
    ensures
        user_views(final(users)@) == renamed(user_views(old(users)@), id, name@),
{
    let ghost views = user_views(users@);
    let mut i: usize = 0;
    while i < MAX_USERS
        invariant
            i <= MAX_USERS,
            views == user_views(users@),
            views.len() == MAX_USERS,
            users@ == old(users)@,
            forall|k: int| 0 <= k < i ==> !#[trigger] is_active_user(views[k], id),
        decreases MAX_USERS - i,
    {
        assert(views[i as int] == users@[i as int]@);
        if users[i].id == id && users[i].status == 0 {
            assert(is_first_active(views, id, i as int));
            let ghost first = choose|j: int| is_first_active(views, id, j);
            assert(first == i) by {
                if first < i {
                    assert(!is_active_user(views[first], id));
                }
                if i < first {
                    assert(!is_active_user(views[i as int], id));
                }
            }
            let ghost old_buffer = users@[i as int].name.raw();
            proof {
                lemma_fixed_string_len(users@[i as int].name);
            }
            users[i].name.clear();
            let mut k: usize = 0;
            while k < name.len() && !users[i].name.is_full()
                invariant
                    i < MAX_USERS,
                    k <= name@.len(),
                    k <= 32,
                    old_buffer.len() == 32,
                    users@[i as int].name@ == name@.subrange(0, k as int),
                    users@[i as int].name.raw() == name@.subrange(0, k as int)
                        + old_buffer.subrange(k as int, 32),
                    forall|j: int| 0 <= j < MAX_USERS && j != i ==> users@[j] == old(users)@[j],
                    users@[i as int].id == old(users)@[i as int].id,
                    users@[i as int].status == old(users)@[i as int].status,
                    users@[i as int].padding == old(users)@[i as int].padding,
                decreases name@.len() - k,
            {
                users[i].name.push(name[k]);
                assert(name@.subrange(0, k + 1) =~= name@.subrange(0, k as int).push(name@[k as int]));
                assert(users@[i as int].name.raw() =~= name@.subrange(0, k + 1)
                    + old_buffer.subrange(k + 1, 32));
                k = k + 1;
            }
            proof {
                lemma_fixed_string_len(users@[i as int].name);
            }
            assert(users@[i as int].name@ =~= bounded_name(name@));
            assert(users@[i as int].name.raw() =~= renamed_buffer(old_buffer, name@));
            assert(user_views(users@) =~= renamed(views, id, name@));
            return;
        }
        i = i + 1;
    }
    assert(!has_active(views, id));
}

/// The message a submitted line becomes (the tick already advanced).
pub open spec fn new_message(v: AppView) -> MessageView {
    MessageView {
        user_id: match v.current_user_id {
            Some(id) => id,
            None => 0,
        },
        padding: 0,
        tick: v.relative_tick,
        content: v.input,
        content_buffer: v.input + zeros((256 - v.input.len()) as nat),
    }
}

/// The messages the `count` slots from `head` on hold.
pub open spec fn ring_items(slots: Seq<Option<MessageView>>, head: nat, count: nat) -> Seq<
    MessageView,
> {
    Seq::new(count, |i: int| slots[(head + i) % (MAX_HISTORY as int)].unwrap())
}

/// The state after the line in `v.input` is sent as a message: it goes to
/// slot `tail`, which moves on, and when the history was full the oldest
/// message is dropped. When `tail` is the slot after the newest message,
/// as in every state that did not load an image saying otherwise, the
/// history is then the last 64 messages sent.
pub open spec fn message_state(v: AppView) -> AppView {
    let full = v.history.len() == MAX_HISTORY;
    let slots = v.history_slots.update(v.history_tail as int, Some(new_message(v)));
    let head = if full {
        (v.history_head + 1) % (MAX_HISTORY as nat)
    } else {
        v.history_head
    };
    let count = if full {
        MAX_HISTORY as nat
    } else {
        v.history.len() + 1
    };
    AppView {
        history: if ring_aligned(v.history_head, v.history_tail, v.history.len(), MAX_HISTORY as nat) {
            keep_last(v.history.push(new_message(v)), MAX_HISTORY as nat)
        } else {
            ring_items(slots, head, count)
        },
        history_slots: slots,
        history_head: head,
        history_tail: (v.history_tail + 1) % (MAX_HISTORY as nat),
        ..v
    }
}

/// Keeping the last items commutes with taking their values.
proof fn lemma_keep_last_views(h: Seq<Message>, m: Message)
    ensures
        message_views(keep_last(h.push(m), MAX_HISTORY as nat)) == keep_last(
            message_views(h).push(m@),
            MAX_HISTORY as nat,
        ),
{
    assert(message_views(h.push(m)) =~= message_views(h).push(m@));
    let a = h.push(m);
    if a.len() > MAX_HISTORY {
        assert(message_views(a.subrange(a.len() - MAX_HISTORY, a.len() as int)) =~= message_views(
            a,
        ).subrange(a.len() - MAX_HISTORY, a.len() as int));
    }
}

impl AppState {
    /// Runs the command in the input line (its tick already advanced).
    fn dispatch_command<P: SerialPort>(&mut self, port: &mut P)
        ensures
            final(self)@ == command_state(old(self)@),
            final(port).sent() == old(port).sent() + command_output(old(self)@),
    {
        let ghost v = self@;
        let bytes = self.input_buffer.as_bytes();
        if same_bytes(bytes, "/exit".as_bytes()) {
            self.should_exit = true;
            assert(self@ =~= command_state(v));
            return;
        }
        if same_bytes(bytes, "/clear".as_bytes()) {
            init_viewport(port);
            render_welcome(port);
            render_empty_line(port);
            return;
        }
        let user_prefix = "/user ".as_bytes();
        let switch_prefix = "/switch ".as_bytes();
        let is_user = starts_with(bytes, user_prefix);
        if is_user || starts_with(bytes, switch_prefix) {
            let prefix_len = if is_user {
                user_prefix.len()
            } else {
                switch_prefix.len()
            };
            self.switch_user(prefix_len, port);
            return;
        }
        if starts_with(bytes, "/name ".as_bytes()) {
            self.name_user(port);
            return;
        }
        self.show_info(port);
    }

    /// The `/user <id>` and `/switch <id>` commands; the identifier starts
    /// at `prefix_len`.
    fn switch_user<P: SerialPort>(&mut self, prefix_len: usize, port: &mut P)
        requires
            old(self)@.input != text("/exit"),
            old(self)@.input != text("/clear"),
            has_prefix(old(self)@.input, text("/user ")) || has_prefix(
                old(self)@.input,
                text("/switch "),
            ),
            prefix_len == if has_prefix(old(self)@.input, text("/user ")) {
                text("/user ").len()
            } else {
                text("/switch ").len()
            },
        ensures
            final(self)@ == command_state(old(self)@),
            final(port).sent() == old(port).sent() + command_output(old(self)@),
    {
        let ghost v = self@;
        render_empty_line(port);
        let bytes = self.input_buffer.as_bytes();
        let id_bytes = vstd::slice::slice_subrange(bytes, prefix_len, bytes.len());
        match parse_u16(id_bytes) {
            None => {
                render_system_message(port, self.relative_tick, "Error: Invalid user ID.");
                render_empty_line(port);
            },
            Some(id) => {
                self.current_user_id = Some(id);
                register_user(&mut self.users, id);
                render_system_message(port, self.relative_tick, "User switched successfully.");
                render_empty_line(port);
                assert(self@ =~= command_state(v));
            },
        }
    }

    /// The `/name <str>` command.
    fn name_user<P: SerialPort>(&mut self, port: &mut P)
        requires
            old(self)@.input != text("/exit"),
            old(self)@.input != text("/clear"),
            !has_prefix(old(self)@.input, text("/user ")),
            !has_prefix(old(self)@.input, text("/switch ")),
            has_prefix(old(self)@.input, text("/name ")),
        ensures
            final(self)@ == command_state(old(self)@),
            final(port).sent() == old(port).sent() + command_output(old(self)@),
    {
        let ghost v = self@;
        render_empty_line(port);
        match self.current_user_id {
            None => {
                render_system_message(
                    port,
                    self.relative_tick,
                    "Error: Please switch to a user first.",
                );
                render_empty_line(port);
            },
            Some(user_id) => {
                let name_prefix = "/name ".as_bytes();
                let bytes = self.input_buffer.as_bytes();
                let name_bytes = vstd::slice::slice_subrange(bytes, name_prefix.len(), bytes.len());
                rename_user(&mut self.users, user_id, name_bytes);
                render_system_message(port, self.relative_tick, "Display name updated.");
                render_empty_line(port);
                assert(self@ =~= command_state(v));
            },
        }
    }

    /// The commands that only show something: `/help`, `/users`,
    /// `/status`, `/ping`, `/time`, `/about`, and unknown commands.
    fn show_info<P: SerialPort>(&self, port: &mut P)
        requires
            self@.input != text("/exit"),
            self@.input != text("/clear"),
            !has_prefix(self@.input, text("/user ")),
            !has_prefix(self@.input, text("/switch ")),
            !has_prefix(self@.input, text("/name ")),
        ensures
            command_state(self@) == self@,
            final(port).sent() == old(port).sent() + command_output(self@),
    {
        render_empty_line(port);
        let bytes = self.input_buffer.as_bytes();
        if same_bytes(bytes, "/help".as_bytes()) {
            render_system_message(
                port,
                self.relative_tick,
                "Commands: /user <id>, /switch <id>, /name <str>, /users, /status, /time, /ping, /about, /clear, /exit, /help",
            );
        } else if same_bytes(bytes, "/users".as_bytes()) {
            render_active_users(self, port);
        } else if same_bytes(bytes, "/status".as_bytes()) {
            render_status(self, port);
        } else if same_bytes(bytes, "/ping".as_bytes()) {
            render_system_message(port, self.relative_tick, "Pong! System is responsive.");
        } else if same_bytes(bytes, "/time".as_bytes()) {
            render_time_info(self, port);
        } else if same_bytes(bytes, "/about".as_bytes()) {
            render_about(self, port);
        } else {
            render_system_message(
                port,
                self.relative_tick,
                "Unknown command. Type /help for a list of commands.",
            );
        }
        render_empty_line(port);
    }

    /// Sends the input line as a message from the current user (the guest,
    /// 0, when there is none).
    fn dispatch_message<P: SerialPort>(&mut self, port: &mut P)
        ensures
            final(self)@ == message_state(old(self)@),
            final(port).sent() == old(port).sent() + message_bytes(
                old(self)@.users,
                new_message(old(self)@),
            ),
    {
        let user_id = match self.current_user_id {
            Some(id) => id,
            None => 0,
        };
        let mut message = Message {
            user_id,
            padding: 0,
            tick: self.relative_tick,
            content: FixedString::new(),
        };
        let bytes = self.input_buffer.as_bytes();
        proof {
            lemma_fixed_string_len(self.input_buffer);
        }
        assert(message.content.raw() =~= bytes@.subrange(0, 0) + zeros(256));
        let mut i: usize = 0;
        while i < bytes.len()
            invariant
                i <= bytes@.len() <= 256,
                message.content@ == bytes@.subrange(0, i as int),
                message.content.raw() == bytes@.subrange(0, i as int) + zeros((256 - i) as nat),
                message.user_id == user_id,
                message.padding == 0,
                message.tick == self.relative_tick,
            decreases bytes@.len() - i,
        {
            message.content.push(bytes[i]);
            assert(bytes@.subrange(0, i + 1) =~= bytes@.subrange(0, i as int).push(bytes@[i as int]));
            assert(message.content.raw() =~= bytes@.subrange(0, i + 1) + zeros((256 - (i + 1)) as nat));
            i = i + 1;
        }
        assert(bytes@.subrange(0, bytes@.len() as int) =~= bytes@);
        assert(message@ =~= new_message(self@));
        let ghost old_history = self.history@;
        let ghost old_slots = self.history.slots();
        proof {
            crate::types::lemma_ring_buffer_len(self.history);
        }
        self.history.len();
        self.history.push(message);
        proof {
            lemma_keep_last_views(old_history, message);
            assert(slot_views(self.history.slots()) =~= slot_views(old_slots).update(
                old(self).history.tail() as int,
                Some(message@),
            ));
            let after = message_state(old(self)@);
            if !ring_aligned(
                old(self).history.head(),
                old(self).history.tail(),
                old_history.len(),
                MAX_HISTORY as nat,
            ) {
                let sv = slot_views(self.history.slots());
                assert forall|i: int| 0 <= i < self.history@.len() implies message_views(
                    self.history@,
                )[i] == ring_items(sv, self.history.head(), self.history@.len())[i] by {
                    assert(self.history.slots()[(self.history.head() + i) % (MAX_HISTORY as int)]
                        == Some(self.history@[i]));
                }
                assert(message_views(self.history@) =~= ring_items(
                    sv,
                    self.history.head(),
                    self.history@.len(),
                ));
            }
        }
        render_message(self, &message, port);
        assert(self@ =~= message_state(old(self)@));
    }
}

/// The state once a submitted line has advanced the tick.
pub open spec fn ticked(v: AppView) -> AppView {
    AppView {
        relative_tick: if v.relative_tick == u32::MAX {
            0
        } else {
            (v.relative_tick + 1) as u32
        },
        ..v
    }
}

/// Whether the line in `v.input` is a command.
pub open spec fn is_command(v: AppView) -> bool {
    has_prefix(v.input, text("/"))
}

/// The state after submitting the non-empty line in `v.input`.
pub open spec fn submit_state(v: AppView) -> AppView {
    let after = if is_command(v) {
        command_state(ticked(v))
    } else {
        message_state(ticked(v))
    };
    AppView { input: Seq::empty(), ..after }
}

/// What submitting the non-empty line in `v.input` shows before the prompt
/// is redrawn.
pub open spec fn submit_output(v: AppView) -> Seq<u8> {
    if is_command(v) {
        command_output(ticked(v))
    } else {
        message_bytes(v.users, new_message(ticked(v)))
    }
}

/// The error `process_byte` reports before initialization.
pub open spec fn not_initialized_error() -> &'static str {
    "AppState not initialized. Call init() first."
}

/// Whether `byte` erases the last typed byte (backspace or delete).
pub open spec fn is_erase(byte: u8) -> bool {
    byte == 8 || byte == 127
}

/// Whether `byte` submits the line (carriage return or line feed).
pub open spec fn is_submit(byte: u8) -> bool {
    byte == 13 || byte == 10
}

/// Whether `byte` is printable ASCII.
pub open spec fn is_printable(byte: u8) -> bool {
    0x20 <= byte <= 0x7E
}

/// The state after erasing the last byte of the line, if any.
pub open spec fn erased(v: AppView) -> AppView {
    if v.input.len() > 0 {
        AppView { input: v.input.drop_last(), ..v }
    } else {
        v
    }
}

/// What erasing shows: backspace, space, backspace when a byte was erased.
pub open spec fn erase_echo(v: AppView) -> Seq<u8> {
    if v.input.len() > 0 {
        seq![8u8, 32u8, 8u8]
    } else {
        Seq::empty()
    }
}

/// The state after typing `byte`: appended while the line has room.
pub open spec fn typed(v: AppView, byte: u8) -> AppView {
    if v.input.len() < 256 {
        AppView { input: v.input.push(byte), ..v }
    } else {
        v
    }
}

/// What typing shows: the byte itself when it was appended.
pub open spec fn type_echo(v: AppView, byte: u8) -> Seq<u8> {
    if v.input.len() < 256 {
        seq![byte]
    } else {
        Seq::empty()
    }
}

/// Erasing undoes typing: typing a byte into a line with room and then
/// erasing gives back the state before, and the screen shows the byte and
/// then its erasure.
pub proof fn lemma_erase_undoes_type(v: AppView, byte: u8)
    requires
        v.input.len() < 256,
    ensures
        erased(typed(v, byte)) == v,
        type_echo(v, byte) + erase_echo(typed(v, byte)) == seq![byte, 8u8, 32u8, 8u8],
{
    assert(v.input.push(byte).drop_last() =~= v.input);
    assert(type_echo(v, byte) + erase_echo(typed(v, byte)) =~= seq![byte, 8u8, 32u8, 8u8]);
}

impl AppState {
    /// Handles one input byte: printable ASCII is appended to the line and
    /// echoed, backspace/delete erase the last byte, carriage return or line
    /// feed submit a non-empty line as a command (when it starts with `/`)
    /// or a message, then persist the state and redraw the prompt; other
    /// bytes are ignored.
    pub fn process_byte<P: SerialPort, S: Storage>(
        &mut self,
        byte: u8,
        port: &mut P,
        storage: &mut S,
    ) -> (r: Result<(), &'static str>)
        ensures
            !old(self).initialized ==> {
                &&& r == Err::<(), &'static str>(not_initialized_error())
                &&& final(self)@ == old(self)@
                &&& final(port).sent() == old(port).sent()
                &&& final(storage).medium() == old(storage).medium()
                &&& final(storage).durable() == old(storage).durable()
            },
            old(self).initialized && is_erase(byte) ==> {
                &&& r == Ok::<(), &'static str>(())
                &&& final(storage).medium() == old(storage).medium()
                &&& final(storage).durable() == old(storage).durable()
                &&& final(self)@ == erased(old(self)@)
                &&& final(port).sent() == old(port).sent() + erase_echo(old(self)@)
            },
            old(self).initialized && is_submit(byte) && old(self)@.input.len() == 0 ==> {
                &&& r == Ok::<(), &'static str>(())
                &&& final(self)@ == old(self)@
                &&& final(port).sent() == old(port).sent()
                &&& final(storage).medium() == old(storage).medium()
                &&& final(storage).durable() == old(storage).durable()
            },
            old(self).initialized && is_submit(byte) && old(self)@.input.len() > 0 ==> {
                let after = submit_state(old(self)@);
                &&& final(self)@ == after
                &&& r is Ok ==> final(port).sent() == old(port).sent() + submit_output(old(self)@)
                    + prompt_bytes(after.users, after.current_user_id, after.input)
                &&& r is Ok ==> wrote(
                    old(storage).medium(),
                    final(storage).medium(),
                    0,
                    image(persisted(after)),
                )
                &&& r is Ok ==> final(storage).durable() == final(storage).medium()
                &&& r is Err ==> final(port).sent() == old(port).sent() + submit_output(
                    old(self)@,
                )
            },
            old(self).initialized && (byte == 13 || byte == 10) && old(self)@.input.len() > 0
                ==> final(self)@ == submit_state(old(self)@) && (r is Ok ==> final(port).sent()
                == old(port).sent() + submit_output(old(self)@) + prompt_bytes(
                submit_state(old(self)@).users,
                submit_state(old(self)@).current_user_id,
                Seq::empty(),
            ) && wrote(
                old(storage).medium(),
                final(storage).medium(),
                0,
                image(persisted(submit_state(old(self)@))),
            )),
            old(self).initialized && is_printable(byte) ==> {
                &&& r == Ok::<(), &'static str>(())
                &&& final(storage).medium() == old(storage).medium()
                &&& final(storage).durable() == old(storage).durable()
                &&& final(self)@ == typed(old(self)@, byte)
                &&& final(port).sent() == old(port).sent() + type_echo(old(self)@, byte)
            },
            old(self).initialized && !is_erase(byte) && !is_submit(byte) && !is_printable(byte)
                ==> {
                &&& r == Ok::<(), &'static str>(())
                &&& final(self)@ == old(self)@
                &&& final(port).sent() == old(port).sent()
                &&& final(storage).medium() == old(storage).medium()
                &&& final(storage).durable() == old(storage).durable()
            },
    {
        if !self.initialized {
            return Err("AppState not initialized. Call init() first.");
        }
        if byte == 8 || byte == 127 {
            let ghost v = self@;
            if self.input_buffer.pop().is_some() {
                port.write_byte(8u8);
                port.write_byte(32u8);
                port.write_byte(8u8);
                assert(self@ =~= erased(v));
                assert(port.sent() =~= old(port).sent() + erase_echo(v));
            }
        } else if byte == 13 || byte == 10 {
            if self.input_buffer.is_empty() {
                return Ok(());
            }
            let ghost v = self@;
            self.relative_tick = self.relative_tick.wrapping_add(1);
            assert(self@ =~= ticked(v));
            let slash = "/".as_bytes();
            if starts_with(self.input_buffer.as_bytes(), slash) {
                self.dispatch_command(port);
            } else {
                self.dispatch_message(port);
            }
            self.input_buffer.clear();
            assert(self@ =~= submit_state(v));
            match self.flush(storage) {
                Ok(()) => {},
                Err(e) => return Err(e),
            }
            render_prompt(self, port);
        } else if 0x20 <= byte && byte <= 0x7E {
            let ghost v = self@;
            if self.input_buffer.push(byte) {
                port.write_byte(byte);
                assert(self@ =~= typed(v, byte));
                assert(port.sent() =~= old(port).sent() + type_echo(v, byte));
            }
        }
        Ok(())
    }
}

/// The message lines of a history, oldest first.
pub open spec fn history_lines(users: Seq<UserView>, hs: Seq<MessageView>) -> Seq<u8>
    decreases hs.len(),
{
    if hs.len() == 0 {
        Seq::empty()
    } else {
        history_lines(users, hs.drop_last()) + message_bytes(users, hs.last())
    }
}

/// What the screen shows once stored state is loaded.
pub open spec fn boot_screen(v: AppView) -> Seq<u8> {
    viewport_bytes() + welcome_bytes() + empty_line_bytes() + history_lines(v.users, v.history)
        + prompt_bytes(v.users, v.current_user_id, v.input)
}

/// `v` with the persisted part replaced by `p`, marked initialized.
pub open spec fn loaded_view(v: AppView, p: PersistedView) -> AppView {
    AppView {
        boot_epoch: p.boot_epoch,
        users: p.users,
        history: p.history,
        history_slots: p.slots,
        history_head: p.head,
        history_tail: p.tail,
        initialized: true,
        ..v
    }
}

/// The outcomes `init` allows: the stored state loaded and shown, or a
/// factory reset.
pub open spec fn init_outcome(before: AppView, medium: Seq<u8>, after: AppView, shown: Seq<u8>) -> bool {
    ||| {
        &&& decode_image(medium) == Some(persisted(after))
        &&& after == loaded_view(before, persisted(after))
        &&& shown == boot_screen(after)
    }
    ||| {
        &&& after == reset_view()
        &&& shown == reset_screen()
    }
}

/// The state that the four blocks of an image (header, users, history,
/// CRC) hold, exactly when they form a valid image: `init` loads this
/// state when it reads all four blocks whole.
pub fn decode_stored(header: &[u8], users: &[u8], history: &[u8], crc: &[u8]) -> (r: Option<
    (u32, [User; MAX_USERS], RingBuffer<Message, MAX_HISTORY>),
>)
    requires
        header@.len() == HEADER_LEN,
        users@.len() == users_block_len(),
        history@.len() == history_block_len(),
        crc@.len() == CRC_LEN,
    ensures
        r is None <==> decode_exact(header@ + users@ + history@ + crc@) is None,
        r matches Some((boot_epoch, us, hs)) ==> decode_exact(header@ + users@ + history@ + crc@)
            == Some(
            PersistedView {
                boot_epoch,
                users: user_views(us@),
                slots: slot_views(hs.slots()),
                head: hs.head(),
                tail: hs.tail(),
                history: message_views(hs@),
            },
        ),
{
    let ghost img = header@ + users@ + history@ + crc@;
    proof {
        lemma_word();
    }
    let ghost body_end = (image_len() - CRC_LEN) as int;
    let ghost users_at = HEADER_LEN as int;
    let ghost history_at = (HEADER_LEN + users_block_len()) as int;
    assert(img.subrange(0, body_end) =~= header@ + users@ + history@);
    assert(img.subrange(users_at, history_at) =~= users@);
    assert(img.subrange(history_at, body_end) =~= history@);
    assert(img.subrange(body_end, body_end + 4) =~= crc@);
    assert(img.subrange(5, 9) =~= header@.subrange(5, 9));
    if header[0] != 69u8 || header[1] != 77u8 || header[2] != 66u8 || header[3] != 85u8
        || header[4] != 1u8 {
        assert(!header_ok(img));
        return None;
    }
    let mut crc_state = Crc32::new();
    crc_state.update(header);
    crc_state.update(users);
    crc_state.update(history);
    proof {
        lemma_crc_fold_concat(0xFFFF_FFFFu32, header@, users@);
        lemma_crc_fold_concat(0xFFFF_FFFFu32, header@ + users@, history@);
    }
    let stored_crc = vstd::bytes::u32_from_le_bytes(crc);
    if crc_state.finalize() != stored_crc {
        return None;
    }
    let boot_epoch = vstd::bytes::u32_from_le_bytes(vstd::slice::slice_subrange(header, 5, 9));
    let decoded_users = match decode_users_block(users) {
        Some(decoded_users) => decoded_users,
        None => {
            return None;
        },
    };
    let decoded_history = match decode_history_block(history) {
        Some(decoded_history) => decoded_history,
        None => {
            return None;
        },
    };
    Some((boot_epoch, decoded_users, decoded_history))
}

impl AppState {
    /// Loads the stored state (header, users, history, CRC32) and shows it;
    /// when any read fails or comes up short, or the header, the CRC or a
    /// record is invalid, applies a factory reset instead.
    pub fn init<S: Storage, P: SerialPort>(&mut self, storage: &mut S, port: &mut P) -> (r: Result<
        (),
        &'static str,
    >)
        ensures
            r == Ok::<(), &'static str>(()),
            final(storage).medium() == old(storage).medium(),
            final(storage).durable() == old(storage).durable(),
            init_outcome(
                old(self)@,
                old(storage).medium(),
                final(self)@,
                final(port).sent().subrange(old(port).sent().len() as int, final(port).sent().len() as int),
            ),
            old(port).sent().len() <= final(port).sent().len(),
            final(port).sent().subrange(0, old(port).sent().len() as int) == old(port).sent(),
    {
        let ghost m = storage.medium();
        let mut header = vec![0u8; HEADER_LEN];
        match storage.read(0, header.as_mut_slice()) {
            Ok(len) => {
                if len != HEADER_LEN {
                    return self.reset_from_init(port);
                }
            },
            Err(_) => {
                return self.reset_from_init(port);
            },
        }
        if header[0] != 69u8 || header[1] != 77u8 || header[2] != 66u8 || header[3] != 85u8
            || header[4] != 1u8 {
            return self.reset_from_init(port);
        }
        proof {
            lemma_word();
        }
        let users_len = users_block_size();
        let history_len = history_block_size();
        let mut users_bytes = vec![0u8; users_len];
        match storage.read(HEADER_LEN, users_bytes.as_mut_slice()) {
            Ok(len) => {
                if len != users_len {
                    return self.reset_from_init(port);
                }
            },
            Err(_) => {
                return self.reset_from_init(port);
            },
        }
        let mut history_bytes = vec![0u8; history_len];
        match storage.read(HEADER_LEN + users_len, history_bytes.as_mut_slice()) {
            Ok(len) => {
                if len != history_len {
                    return self.reset_from_init(port);
                }
            },
            Err(_) => {
                return self.reset_from_init(port);
            },
        }
        let mut crc_bytes = vec![0u8; CRC_LEN];
        match storage.read(HEADER_LEN + users_len + history_len, crc_bytes.as_mut_slice()) {
            Ok(len) => {
                if len != CRC_LEN {
                    return self.reset_from_init(port);
                }
            },
            Err(_) => {
                return self.reset_from_init(port);
            },
        }
        let (boot_epoch, users, history) = match decode_stored(
            header.as_slice(),
            users_bytes.as_slice(),
            history_bytes.as_slice(),
            crc_bytes.as_slice(),
        ) {
            Some(loaded) => loaded,
            None => {
                return self.reset_from_init(port);
            },
        };
        proof {
            assert(header@ =~= m.subrange(0, 9));
            assert(users_bytes@ =~= m.subrange(9, 9 + users_len));
            assert(history_bytes@ =~= m.subrange(9 + users_len, 9 + users_len + history_len));
            assert(crc_bytes@ =~= m.subrange(
                9 + users_len + history_len,
                image_len() as int,
            ));
            lemma_four_blocks(m, header@, users_bytes@, history_bytes@, crc_bytes@);

        }
        self.users = users;
        self.history = history;
        self.boot_epoch = boot_epoch;
        self.initialized = true;
        self.show_loaded(port);
        assert(port.sent().subrange(old(port).sent().len() as int, port.sent().len() as int)
            =~= boot_screen(self@));
        assert(port.sent().subrange(0, old(port).sent().len() as int) =~= old(port).sent());
        assert(self@ =~= loaded_view(old(self)@, persisted(self@)));
        Ok(())
    }

    /// Shows the viewport, the banner, the history and the prompt.
    fn show_loaded<P: SerialPort>(&self, port: &mut P)
        ensures
            final(port).sent() == old(port).sent() + boot_screen(self@),
    {
        init_viewport(port);
        render_welcome(port);
        render_empty_line(port);
        let ghost before_history = port.sent();
        let count = self.history.len();
        let mut i: usize = 0;
        assert(self@.history.take(0) =~= Seq::<MessageView>::empty());
        while i < count
            invariant
                i <= count,
                count == self@.history.len(),
                port.sent() == before_history + history_lines(
                    self@.users,
                    self@.history.take(i as int),
                ),
            decreases count - i,
        {
            match self.history.get(i) {
                Some(message) => {
                    render_message(self, message, port);
                    proof {
                        assert(self@.history[i as int] == message@);
                        assert(self@.history.take(i + 1).drop_last() =~= self@.history.take(
                            i as int,
                        ));
                    }
                },
                None => {},
            }
            i = i + 1;
        }
        assert(self@.history.take(count as int) =~= self@.history);
        render_prompt(self, port);
        proof {
            crate::serial::lemma_bytes_concat_assoc(old(port).sent(), viewport_bytes(), welcome_bytes());
        }
        assert(port.sent() =~= old(port).sent() + boot_screen(self@));
    }

    /// The factory reset `init` falls back to.
    fn reset_from_init<P: SerialPort>(&mut self, port: &mut P) -> (r: Result<(), &'static str>)
        ensures
            r == Ok::<(), &'static str>(()),
            final(self)@ == reset_view(),
            final(port).sent().subrange(old(port).sent().len() as int, final(port).sent().len() as int)
                == reset_screen(),
            old(port).sent().len() <= final(port).sent().len(),
            final(port).sent().subrange(0, old(port).sent().len() as int) == old(port).sent(),
    {
        let r = self.factory_reset(port);
        assert(port.sent().subrange(old(port).sent().len() as int, port.sent().len() as int)
            =~= reset_screen());
        assert(port.sent().subrange(0, old(port).sent().len() as int) =~= old(port).sent());
        r
    }
}

impl AppState {
    /// A state whose history is laid out in its slots is persistable.
    proof fn lemma_persistable(&self)
        requires
            ring_wf(
                self.history.slots(),
                self.history.head(),
                self.history.tail(),
                self.history@,
                MAX_HISTORY as nat,
            ),
        ensures
            persisted_wf(persisted(self@)),
    {
        let p = persisted(self@);
        assert forall|i: int| 0 <= i < p.users.len() implies #[trigger] user_wf(p.users[i]) by {
            lemma_fixed_string_len(self.users@[i].name);
        }
        assert forall|j: int| 0 <= j < p.slots.len() implies #[trigger] slot_wf(p.slots[j]) by {
            match self.history.slots()[j] {
                Some(m) => lemma_fixed_string_len(m.content),
                None => {},
            }
        }
        assert forall|i: int| 0 <= i < p.history.len() implies #[trigger] p.slots[(p.head + i) % (
        MAX_HISTORY as int)] == Some(p.history[i]) by {
            assert(self.history.slots()[(p.head + i) % (MAX_HISTORY as int)] == Some(
                self.history@[i],
            ));
        }
        if !ring_aligned(p.head, p.tail, p.history.len(), MAX_HISTORY as nat) {
            assert forall|j: int| 0 <= j < MAX_HISTORY implies (#[trigger] p.slots[j]) is Some by {
                assert(self.history.slots()[j] is Some);
            }
        }
    }
}

/// Reading back what `flush` writes: once the image of a state is written
/// at offset 0, the medium holds exactly that state's boot epoch, users
/// (name buffers included) and history (slots, head and tail included), its
/// never-written slots holding the empty message they are stored as.
pub proof fn lemma_flush_then_decode(v: AppView, before: Seq<u8>, after: Seq<u8>)
    requires
        persisted_wf(persisted(v)),
        wrote(before, after, 0, image(persisted(v))),
    ensures
        decode_image(after) == Some(normalized(persisted(v))),
{
    crate::storage::lemma_write_then_decode(persisted(v), before, after);
}

/// Restart after a flush: `init` on a medium that `flush` wrote either
/// restores the flushed state byte for byte (the same boot epoch, users,
/// history slots, head, tail and messages, and the same image when flushed
/// again) into the state it started from, marked initialized, or (when the
/// storage fails to read it back) applies a factory reset.
pub proof fn lemma_flush_then_init(
    v: AppView,
    before: Seq<u8>,
    after: Seq<u8>,
    booting: AppView,
    booted: AppView,
    shown: Seq<u8>,
)
    requires
        persisted_wf(persisted(v)),
        wrote(before, after, 0, image(persisted(v))),
        init_outcome(booting, after, booted, shown),
    ensures
        booted == reset_view() || {
            &&& booted == loaded_view(booting, normalized(persisted(v)))
            &&& persisted(booted) == normalized(persisted(v))
            &&& booted.boot_epoch == v.boot_epoch
            &&& booted.users == v.users
            &&& booted.history == v.history
            &&& booted.history_head == v.history_head
            &&& booted.history_tail == v.history_tail
            &&& image(persisted(booted)) == image(persisted(v))
        },
{
    lemma_flush_then_decode(v, before, after);
    crate::storage::lemma_image_roundtrip(persisted(v));
}

/// Commands touch only the current user, the registry and the exit flag:
/// the history, the tick, the boot epoch, the input line and the
/// initialization flag are left as they were, and no command is stored in
/// the history.
pub proof fn lemma_command_frame(v: AppView)
    ensures
        command_state(v) == (AppView {
            current_user_id: command_state(v).current_user_id,
            users: command_state(v).users,
            should_exit: command_state(v).should_exit,
            ..v
        }),
{
}

/// Whether no two active users share an identifier.
pub open spec fn active_ids_unique(users: Seq<UserView>) -> bool {
    forall|i: int, j: int|
        0 <= i < users.len() && 0 <= j < users.len() && i != j && #[trigger] users[i].status == 0
            && #[trigger] users[j].status == 0 ==> users[i].id != users[j].id
}

/// Switching users never makes a second active user with one identifier.
pub proof fn lemma_registered_unique(users: Seq<UserView>, id: u16)
    requires
        active_ids_unique(users),
    ensures
        active_ids_unique(registered(users, id)),
{
    if !has_active(users, id) && exists|j: int| is_first_free(users, j) {
        let j = choose|j: int| is_first_free(users, j);
        let after = registered(users, id);
        assert forall|a: int, b: int|
            0 <= a < after.len() && 0 <= b < after.len() && a != b && #[trigger] after[a].status
                == 0 && #[trigger] after[b].status == 0 implies after[a].id != after[b].id by {
            if a == j {
                assert(!is_active_user(users[b], id));
            } else if b == j {
                assert(!is_active_user(users[a], id));
            } else {
                assert(users[a].status == 0 && users[b].status == 0);
            }
        }
    }
}

/// An active user `id` at `k` means there is a first one.
proof fn lemma_first_active(users: Seq<UserView>, id: u16, k: int)
    requires
        0 <= k < users.len(),
        is_active_user(users[k], id),
    ensures
        exists|i: int| is_first_active(users, id, i),
    decreases k,
{
    if exists|j: int| 0 <= j < k && #[trigger] is_active_user(users[j], id) {
        let j = choose|j: int| 0 <= j < k && #[trigger] is_active_user(users[j], id);
        lemma_first_active(users, id, j);
    } else {
        assert(is_first_active(users, id, k));
    }
}

/// Naming a user never makes a second active user with one identifier.
pub proof fn lemma_renamed_unique(users: Seq<UserView>, id: u16, name: Seq<u8>)
    requires
        active_ids_unique(users),
    ensures
        active_ids_unique(renamed(users, id, name)),
{
    if has_active(users, id) {
        let k = choose|k: int| 0 <= k < users.len() && #[trigger] is_active_user(users[k], id);
        lemma_first_active(users, id, k);
    }
    let after = renamed(users, id, name);
    assert forall|a: int, b: int|
        0 <= a < after.len() && 0 <= b < after.len() && a != b && #[trigger] after[a].status == 0
            && #[trigger] after[b].status == 0 implies after[a].id != after[b].id by {
        assert(after[a].id == users[a].id && after[a].status == users[a].status);
        assert(after[b].id == users[b].id && after[b].status == users[b].status);
    }
}

/// No command creates a second active record for an identifier: when the
/// active identifiers are distinct before a command, they are after it.
pub proof fn lemma_command_keeps_unique_ids(v: AppView)
    requires
        active_ids_unique(v.users),
    ensures
        active_ids_unique(command_state(v).users),
{
    let b = v.input;
    if has_prefix(b, text("/user ")) || has_prefix(b, text("/switch ")) {
        let skip = if has_prefix(b, text("/user ")) {
            text("/user ").len()
        } else {
            text("/switch ").len()
        };
        match parse_u16_spec(b.subrange(skip as int, b.len() as int)) {
            Some(id) => lemma_registered_unique(v.users, id),
            None => {},
        }
    }
    if has_prefix(b, text("/name ")) {
        match v.current_user_id {
            Some(id) => lemma_renamed_unique(
                v.users,
                id,
                b.subrange(text("/name ").len() as int, b.len() as int),
            ),
            None => {},
        }
    }
}

/// `/name` changes only the record of the current user: every record that
/// renaming `id` changes is the first active record of identifier `id`, and when
/// there is one, an active record of identifier `id` then carries the name
/// (cut to 32 bytes).
pub proof fn lemma_rename_only_named_user(users: Seq<UserView>, id: u16, name: Seq<u8>)
    ensures
        renamed(users, id, name).len() == users.len(),
        forall|i: int|
            0 <= i < users.len() && #[trigger] renamed(users, id, name)[i] != users[i] ==> users[i].id
                == id && users[i].status == 0,
        forall|i: int, k: int|
            0 <= k < i < users.len() && #[trigger] renamed(users, id, name)[i] != users[i]
                && #[trigger] users[k].id == id ==> users[k].status != 0,
        (exists|i: int| 0 <= i < users.len() && #[trigger] users[i].id == id && users[i].status == 0)
            ==> exists|i: int|
            0 <= i < users.len() && #[trigger] users[i].id == id && users[i].status == 0
                && renamed(users, id, name)[i].name == (if name.len() <= 32 {
                name
            } else {
                name.subrange(0, 32)
            }) && renamed(users, id, name)[i].id == id && renamed(users, id, name)[i].status == 0,
{
    if exists|i: int| 0 <= i < users.len() && #[trigger] users[i].id == id && users[i].status == 0 {
        let k = choose|i: int| 0 <= i < users.len() && #[trigger] users[i].id == id && users[i].status == 0;
        assert(is_active_user(users[k], id));
        assert(has_active(users, id));
        lemma_first_active(users, id, k);
        let j = choose|j: int| is_first_active(users, id, j);
        assert(users[j].id == id);
        let r = renamed(users, id, name);
        assert forall|i: int, k: int|
            0 <= k < i < users.len() && #[trigger] r[i] != users[i] && #[trigger] users[k].id
                == id implies users[k].status != 0 by {
            assert(i == j);
            assert(!is_active_user(users[k], id));
        }
    } else {
        assert(!has_active(users, id));
    }
}

/// The boot screen redraws the history oldest first: the lines of a history
/// followed by one more message are the lines of the history, then the
/// line of that message.
pub proof fn lemma_history_lines_in_order(users: Seq<UserView>, hs: Seq<MessageView>, m: MessageView)
    ensures
        history_lines(users, Seq::empty()) == Seq::<u8>::empty(),
        history_lines(users, hs.push(m)) == history_lines(users, hs) + message_bytes(users, m),
{
    assert(hs.push(m).drop_last() =~= hs);
}

/// A line feed submits the line just as a carriage return does, and neither
/// is typed or erases.
pub proof fn lemma_line_feed_submits()
    ensures
        is_submit(10u8),
        is_submit(13u8),
        !is_printable(10u8) && !is_erase(10u8),
        !is_printable(13u8) && !is_erase(13u8),
{
}

} // verus!
