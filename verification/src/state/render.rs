//! Viewport rendering: the scrolling history region, the divider and the
//! locked input line.
use crate::serial::{write_all, SerialPort};
use crate::state::ansi::{
    CLEAR_SCREEN, COLOR_DIVIDER, COLOR_INFO, COLOR_PROMPT, COLOR_RESET, COLOR_SYSTEM,
    CURSOR_DIVIDER_LINE, CURSOR_HOME, CURSOR_INPUT_LINE, CURSOR_SCROLL_BOTTOM, ERASE_LINE,
    RESTORE_CURSOR, SAVE_CURSOR, SCROLL_REGION_22,
};
use crate::state::AppState;
use crate::types::{user_views, Message, MessageView, User, UserView, MAX_HISTORY, MAX_USERS};
use crate::utils::{decimal_digits, write_u32};
use vstd::prelude::*;
use vstd::string::StringSliceAdditionalSpecFns;

verus! {

broadcast use crate::serial::lemma_bytes_concat_assoc;

/// The bytes of a text.
pub open spec fn text(s: &str) -> Seq<u8> {
    s.spec_bytes()
}

/// The decimal digits of a number.
pub open spec fn num(n: u32) -> Seq<u8> {
    decimal_digits(n as nat)
}

/// The bytes that open a line in the scroll region.
pub open spec fn line_open() -> Seq<u8> {
    text(SAVE_CURSOR) + text(CURSOR_SCROLL_BOTTOM)
}

/// The bytes that close a line in the scroll region.
pub open spec fn line_close() -> Seq<u8> {
    text("\r\n") + text(RESTORE_CURSOR)
}

/// A text when it is valid UTF-8, else nothing.
pub open spec fn if_utf8(bytes: Seq<u8>) -> Seq<u8> {
    if vstd::utf8::valid_utf8(bytes) {
        bytes
    } else {
        Seq::empty()
    }
}

/// Output of `init_viewport`.
pub open spec fn viewport_bytes() -> Seq<u8> {
    text(CLEAR_SCREEN) + text(CURSOR_HOME) + text(SCROLL_REGION_22) + text(CURSOR_DIVIDER_LINE)
        + text(COLOR_DIVIDER) + Seq::new(80, |i: int| 45u8) + text(COLOR_RESET) + text(
        CURSOR_INPUT_LINE,
    )
}

/// Output of `render_system_message`.
pub open spec fn system_message_bytes(tick: u32, msg: Seq<u8>) -> Seq<u8> {
    line_open() + text(COLOR_SYSTEM) + text("[") + num(tick) + text("] <System> ") + msg + text(
        COLOR_RESET,
    ) + line_close()
}

/// Output of `render_empty_line`.
pub open spec fn empty_line_bytes() -> Seq<u8> {
    line_open() + line_close()
}

/// Output of `render_welcome`.
pub open spec fn welcome_bytes() -> Seq<u8> {
    system_message_bytes(0, text("==================================================")) + system_message_bytes(
        0,
        text(" CLI Chat Embedded"),
    ) + system_message_bytes(0, text(" Zero-heap, bare-metal compatible chat core."))
        + system_message_bytes(0, text(" Type /help to see available commands."))
        + system_message_bytes(0, text("=================================================="))
}

/// Whether `u` is an active user with identifier `id` whose name can be shown.
pub open spec fn shows_name(u: UserView, id: u16) -> bool {
    u.id == id && u.status == 0 && u.name.len() > 0 && vstd::utf8::valid_utf8(u.name)
}

/// The name of the first active user with identifier `id` that has a
/// non-empty UTF-8 name.
pub open spec fn displayed_name(users: Seq<UserView>, id: u16) -> Option<Seq<u8>>
    decreases users.len(),
{
    if users.len() == 0 {
        None
    } else if shows_name(users[0], id) {
        Some(users[0].name)
    } else {
        displayed_name(users.drop_first(), id)
    }
}

/// How a user is labelled: by name, or as `User<id>` when it has none.
pub open spec fn label(users: Seq<UserView>, id: u16) -> Seq<u8> {
    match displayed_name(users, id) {
        Some(name) => name,
        None => text("User") + num(id as u32),
    }
}

/// Output of `render_prompt`.
pub open spec fn prompt_bytes(users: Seq<UserView>, current: Option<u16>, input: Seq<u8>) -> Seq<
    u8,
> {
    text(CURSOR_INPUT_LINE) + text(ERASE_LINE) + text(COLOR_PROMPT) + match current {
        Some(id) => label(users, id),
        None => text("Guest"),
    } + text("> ") + text(COLOR_RESET) + if_utf8(input)
}

/// Output of `render_message`.
pub open spec fn message_bytes(users: Seq<UserView>, m: MessageView) -> Seq<u8> {
    line_open() + text("[") + num(m.tick) + text("] <") + label(users, m.user_id) + text("> ")
        + if_utf8(m.content) + line_close()
}

/// An information line of the form `[tick] <Info> ...`.
pub open spec fn info_line(tick: u32, body: Seq<u8>) -> Seq<u8> {
    line_open() + text(COLOR_INFO) + text("[") + num(tick) + body + text(COLOR_RESET)
        + line_close()
}

/// The name shown in the user list.
pub open spec fn listed_name(name: Seq<u8>) -> Seq<u8> {
    if name.len() > 0 && vstd::utf8::valid_utf8(name) {
        name
    } else {
        text("Unnamed")
    }
}

/// The line listing one active user.
pub open spec fn user_line_bytes(tick: u32, u: UserView) -> Seq<u8> {
    info_line(
        tick,
        text("] <Info> ID: ") + num(u.id as u32) + text(" | Name: ") + listed_name(u.name),
    )
}

/// The lines listing the active users among `users`, in order.
pub open spec fn user_lines(tick: u32, users: Seq<UserView>) -> Seq<u8>
    decreases users.len(),
{
    if users.len() == 0 {
        Seq::empty()
    } else {
        user_lines(tick, users.drop_last()) + if users.last().status == 0 {
            user_line_bytes(tick, users.last())
        } else {
            Seq::empty()
        }
    }
}

/// Whether some user is active.
pub open spec fn has_active_user(users: Seq<UserView>) -> bool {
    exists|i: int| 0 <= i < users.len() && #[trigger] users[i].status == 0
}

/// Output of `render_active_users`.
pub open spec fn active_users_bytes(tick: u32, users: Seq<UserView>) -> Seq<u8> {
    system_message_bytes(tick, text("--- Active Users ---")) + user_lines(tick, users) + if has_active_user(
        users,
    ) {
        Seq::empty()
    } else {
        system_message_bytes(tick, text("No users registered."))
    }
}

/// Output of `render_status`.
pub open spec fn status_bytes(tick: u32, history_len: nat) -> Seq<u8> {
    system_message_bytes(tick, text("--- System Status ---")) + info_line(
        tick,
        text("] <Info> Uptime Ticks: ") + num(tick),
    ) + info_line(
        tick,
        text("] <Info> Messages in History: ") + num(history_len as u32) + text(" / ") + num(
            MAX_HISTORY as u32,
        ),
    )
}

/// Output of `render_time_info`.
pub open spec fn time_info_bytes(tick: u32, boot_epoch: u32) -> Seq<u8> {
    system_message_bytes(tick, text("--- Time Info ---")) + info_line(
        tick,
        text("] <Info> Boot Epoch: ") + num(boot_epoch),
    )
}

/// Output of `render_about`.
pub open spec fn about_bytes(tick: u32) -> Seq<u8> {
    system_message_bytes(tick, text("CLI Chat Embedded")) + system_message_bytes(
        tick,
        text("Author: Dzulkifli Anwar"),
    ) + system_message_bytes(tick, text("License: MIT"))
}

/// Writes the bytes of `string`.
pub fn write_str<P: SerialPort>(port: &mut P, string: &str)
    ensures
        final(port).sent() == old(port).sent() + text(string),
{
    write_all(port, string.as_bytes());
}

/// Clears the screen, sets the scroll region and draws the divider.
pub fn init_viewport<P: SerialPort>(port: &mut P)
    ensures
        final(port).sent() == old(port).sent() + viewport_bytes(),
{
    write_str(port, CLEAR_SCREEN);
    write_str(port, CURSOR_HOME);
    write_str(port, SCROLL_REGION_22);
    write_str(port, CURSOR_DIVIDER_LINE);
    write_str(port, COLOR_DIVIDER);
    let ghost before_dashes = port.sent();
    let mut k: usize = 0;
    while k < 80
        invariant
            k <= 80,
            port.sent() == before_dashes + Seq::new(k as nat, |i: int| 45u8),
        decreases 80 - k,
    {
        port.write_byte(45u8);
        proof {
            assert(Seq::new((k + 1) as nat, |i: int| 45u8) =~= Seq::new(k as nat, |i: int| 45u8).push(
                45u8,
            ));
        }
        k = k + 1;
    }
    write_str(port, COLOR_RESET);
    write_str(port, CURSOR_INPUT_LINE);
}

/// Writes how the user `id` is labelled among `users`.
fn write_label<P: SerialPort>(port: &mut P, users: &[User; MAX_USERS], id: u16)
    ensures
        final(port).sent() == old(port).sent() + label(user_views(users@), id),
{
    let ghost all = user_views(users@);
    assert(all.skip(0) =~= all);
    let mut i: usize = 0;
    while i < MAX_USERS
        invariant
            i <= MAX_USERS,
            all == user_views(users@),
            all.len() == MAX_USERS,
            displayed_name(all, id) == displayed_name(all.skip(i as int), id),
            port.sent() == old(port).sent(),
        decreases MAX_USERS - i,
    {
        let user = &users[i];
        proof {
            assert(all.skip(i as int)[0] == all[i as int]);
            assert(all.skip(i as int).drop_first() =~= all.skip(i + 1));
        }
        if user.id == id && user.status == 0 && !user.name.is_empty() {
            match user.name.as_str() {
                Ok(name) => {
                    write_str(port, name);
                    return;
                },
                Err(_) => {},
            }
        }
        i = i + 1;
    }
    assert(all.skip(MAX_USERS as int) =~= Seq::<UserView>::empty());
    write_str(port, "User");
    write_u32(port, id as u32);
}

/// Draws the input line: the prompt, then the line being edited.
pub fn render_prompt<P: SerialPort>(state: &AppState, port: &mut P)
    ensures
        final(port).sent() == old(port).sent() + prompt_bytes(
            state@.users,
            state.current_user_id,
            state@.input,
        ),
{
    write_str(port, CURSOR_INPUT_LINE);
    write_str(port, ERASE_LINE);
    write_str(port, COLOR_PROMPT);
    match state.current_user_id {
        Some(user_id) => write_label(port, &state.users, user_id),
        None => write_str(port, "Guest"),
    }
    write_str(port, "> ");
    write_str(port, COLOR_RESET);
    let ghost before_input = port.sent();
    match state.input_buffer.as_str() {
        Ok(input) => write_str(port, input),
        Err(_) => {},
    }
    assert(port.sent() =~= before_input + if_utf8(state@.input));
}

/// Appends a message line to the scroll region.
pub fn render_message<P: SerialPort>(state: &AppState, message: &Message, port: &mut P)
    ensures
        final(port).sent() == old(port).sent() + message_bytes(state@.users, message@),
{
    write_str(port, SAVE_CURSOR);
    write_str(port, CURSOR_SCROLL_BOTTOM);
    write_str(port, "[");
    write_u32(port, message.tick);
    write_str(port, "] <");
    write_label(port, &state.users, message.user_id);
    write_str(port, "> ");
    let ghost before_content = port.sent();
    match message.content.as_str() {
        Ok(content) => write_str(port, content),
        Err(_) => {},
    }
    assert(port.sent() =~= before_content + if_utf8(message@.content));
    write_str(port, "\r\n");
    write_str(port, RESTORE_CURSOR);
}

/// Appends a system line `[tick] <System> msg` to the scroll region.
pub fn render_system_message<P: SerialPort>(port: &mut P, tick: u32, msg: &str)
    ensures
        final(port).sent() == old(port).sent() + system_message_bytes(tick, text(msg)),
{
    write_str(port, SAVE_CURSOR);
    write_str(port, CURSOR_SCROLL_BOTTOM);
    write_str(port, COLOR_SYSTEM);
    write_str(port, "[");
    write_u32(port, tick);
    write_str(port, "] <System> ");
    write_str(port, msg);
    write_str(port, COLOR_RESET);
    write_str(port, "\r\n");
    write_str(port, RESTORE_CURSOR);
}

/// Appends an empty line to the scroll region.
pub fn render_empty_line<P: SerialPort>(port: &mut P)
    ensures
        final(port).sent() == old(port).sent() + empty_line_bytes(),
{
    write_str(port, SAVE_CURSOR);
    write_str(port, CURSOR_SCROLL_BOTTOM);
    write_str(port, "\r\n");
    write_str(port, RESTORE_CURSOR);
}

/// Shows the welcome banner.
pub fn render_welcome<P: SerialPort>(port: &mut P)
    ensures
        final(port).sent() == old(port).sent() + welcome_bytes(),
{
    render_system_message(port, 0, "==================================================");
    render_system_message(port, 0, " CLI Chat Embedded");
    render_system_message(port, 0, " Zero-heap, bare-metal compatible chat core.");
    render_system_message(port, 0, " Type /help to see available commands.");
    render_system_message(port, 0, "==================================================");
}

/// Writes an information line; `body` follows the tick.
fn write_info_start<P: SerialPort>(port: &mut P, tick: u32)
    ensures
        final(port).sent() == old(port).sent() + line_open() + text(COLOR_INFO) + text("[") + num(
            tick,
        ),
{
    write_str(port, SAVE_CURSOR);
    write_str(port, CURSOR_SCROLL_BOTTOM);
    write_str(port, COLOR_INFO);
    write_str(port, "[");
    write_u32(port, tick);
}

/// Closes an information line.
fn write_info_end<P: SerialPort>(port: &mut P)
    ensures
        final(port).sent() == old(port).sent() + text(COLOR_RESET) + line_close(),
{
    write_str(port, COLOR_RESET);
    write_str(port, "\r\n");
    write_str(port, RESTORE_CURSOR);
}

/// Writes the line listing one user.
fn write_user_line<P: SerialPort>(port: &mut P, tick: u32, user: &User)
    ensures
        final(port).sent() == old(port).sent() + user_line_bytes(tick, user@),
{
    write_info_start(port, tick);
    write_str(port, "] <Info> ID: ");
    write_u32(port, user.id as u32);
    write_str(port, " | Name: ");
    let ghost before_name = port.sent();
    if user.name.is_empty() {
        write_str(port, "Unnamed");
    } else {
        match user.name.as_str() {
            Ok(name) => write_str(port, name),
            Err(_) => write_str(port, "Unnamed"),
        }
    }
    assert(port.sent() =~= before_name + listed_name(user@.name));
    write_info_end(port);
}

/// Lists the active users.
pub fn render_active_users<P: SerialPort>(state: &AppState, port: &mut P)
    ensures
        final(port).sent() == old(port).sent() + active_users_bytes(
            state.relative_tick,
            state@.users,
        ),
{
    let tick = state.relative_tick;
    let ghost all = state@.users;
    render_system_message(port, tick, "--- Active Users ---");
    let ghost after_title = port.sent();
    let mut count: usize = 0;
    let mut i: usize = 0;
    assert(all.take(0) =~= Seq::<UserView>::empty());
    while i < MAX_USERS
        invariant
            i <= MAX_USERS,
            count <= i,
            all == state@.users,
            all.len() == MAX_USERS,
            port.sent() == after_title + user_lines(tick, all.take(i as int)),
            (count == 0) == !has_active_user(all.take(i as int)),
        decreases MAX_USERS - i,
    {
        let user = &state.users[i];
        let ghost before_line = port.sent();
        proof {
            assert(all[i as int] == user@);
            assert(all.take(i + 1).drop_last() =~= all.take(i as int));
            assert(all.take(i + 1).last() == all[i as int]);
        }
        if user.status == 0 {
            count = count + 1;
            write_user_line(port, tick, user);
            assert(all.take(i + 1)[i as int].status == 0);
        } else {
            assert(port.sent() =~= before_line + Seq::<u8>::empty());
            assert(has_active_user(all.take(i + 1)) == has_active_user(all.take(i as int))) by {
                if has_active_user(all.take(i + 1)) {
                    let j = choose|j: int| 0 <= j < i + 1 && #[trigger] all.take(i + 1)[j].status == 0;
                    assert(all.take(i as int)[j].status == 0);
                }
                if has_active_user(all.take(i as int)) {
                    let j = choose|j: int| 0 <= j < i && #[trigger] all.take(i as int)[j].status == 0;
                    assert(all.take(i + 1)[j].status == 0);
                }
            }
        }
        i = i + 1;
    }
    assert(all.take(MAX_USERS as int) =~= all);
    if count == 0 {
        render_system_message(port, tick, "No users registered.");
    }
}

/// Shows the uptime and the history usage.
#[verifier::rlimit(30)]
pub fn render_status<P: SerialPort>(state: &AppState, port: &mut P)
    ensures
        final(port).sent() == old(port).sent() + status_bytes(
            state.relative_tick,
            state@.history.len(),
        ),
{
    let tick = state.relative_tick;
    let ghost hlen = state@.history.len();
    render_system_message(port, tick, "--- System Status ---");
    let ghost s1 = port.sent();
    write_info_start(port, tick);
    write_str(port, "] <Info> Uptime Ticks: ");
    write_u32(port, tick);
    write_info_end(port);
    assert(port.sent() =~= s1 + info_line(tick, text("] <Info> Uptime Ticks: ") + num(tick)));
    let ghost s2 = port.sent();
    let n = state.history.len();
    assert(n == hlen);
    write_info_start(port, tick);
    write_str(port, "] <Info> Messages in History: ");
    write_u32(port, n as u32);
    write_str(port, " / ");
    write_u32(port, MAX_HISTORY as u32);
    write_info_end(port);
    assert(port.sent() =~= s2 + info_line(
        tick,
        text("] <Info> Messages in History: ") + num(hlen as u32) + text(" / ") + num(
            MAX_HISTORY as u32,
        ),
    ));
}

/// Shows the boot epoch.
pub fn render_time_info<P: SerialPort>(state: &AppState, port: &mut P)
    ensures
        final(port).sent() == old(port).sent() + time_info_bytes(
            state.relative_tick,
            state.boot_epoch,
        ),
{
    let tick = state.relative_tick;
    render_system_message(port, tick, "--- Time Info ---");
    write_info_start(port, tick);
    write_str(port, "] <Info> Boot Epoch: ");
    write_u32(port, state.boot_epoch);
    write_info_end(port);
}

/// Shows the application and license information.
pub fn render_about<P: SerialPort>(state: &AppState, port: &mut P)
    ensures
        final(port).sent() == old(port).sent() + about_bytes(state.relative_tick),
{
    render_system_message(port, state.relative_tick, "CLI Chat Embedded");
    render_system_message(port, state.relative_tick, "Author: Dzulkifli Anwar");
    render_system_message(port, state.relative_tick, "License: MIT");
}

/// A sender is shown by a name only when an active user record with that
/// very identifier carries that name, a non-empty UTF-8 one.
pub proof fn lemma_named_label_is_own_name(users: Seq<UserView>, id: u16)
    ensures
        displayed_name(users, id) matches Some(n) ==> exists|i: int|
            0 <= i < users.len() && #[trigger] users[i].id == id && users[i].status == 0
                && users[i].name == n && n.len() > 0 && vstd::utf8::valid_utf8(n),
    decreases users.len(),
{
    if users.len() > 0 {
        let rest = users.drop_first();
        lemma_named_label_is_own_name(rest, id);
        if users[0].id == id && users[0].status == 0 && users[0].name.len() > 0
            && vstd::utf8::valid_utf8(users[0].name) {
        } else if let Some(n) = displayed_name(rest, id) {
            let k = choose|k: int|
                0 <= k < rest.len() && #[trigger] rest[k].id == id && rest[k].status == 0
                    && rest[k].name == n && n.len() > 0 && vstd::utf8::valid_utf8(n);
            assert(users[k + 1] == rest[k]);
        }
    }
}

/// Without an active user record of identifier `id` carrying a non-empty
/// UTF-8 name, the sender `id` is labelled `User` followed by its decimal
/// identifier.
pub proof fn lemma_unnamed_label(users: Seq<UserView>, id: u16)
    requires
        forall|i: int|
            0 <= i < users.len() && #[trigger] users[i].id == id && users[i].status == 0
                ==> users[i].name.len() == 0 || !vstd::utf8::valid_utf8(users[i].name),
    ensures
        label(users, id) == text("User") + num(id as u32),
{
    lemma_named_label_is_own_name(users, id);
}

/// The name shown for a sender is that of the first active record with its
/// identifier whose name is non-empty UTF-8.
pub proof fn lemma_label_first_named(users: Seq<UserView>, id: u16, i: int)
    requires
        0 <= i < users.len(),
        users[i].id == id,
        users[i].status == 0,
        users[i].name.len() > 0,
        vstd::utf8::valid_utf8(users[i].name),
        forall|j: int|
            0 <= j < i && #[trigger] users[j].id == id && users[j].status == 0 ==> users[j].name.len()
                == 0 || !vstd::utf8::valid_utf8(users[j].name),
    ensures
        label(users, id) == users[i].name,
    decreases i,
{
    if i > 0 {
        let rest = users.drop_first();
        assert(rest[i - 1] == users[i]);
        assert forall|j: int|
            0 <= j < i - 1 && #[trigger] rest[j].id == id && rest[j].status == 0 implies rest[j].name.len()
                == 0 || !vstd::utf8::valid_utf8(rest[j].name) by {
            assert(rest[j] == users[j + 1]);
        }
        lemma_label_first_named(rest, id, i - 1);
        assert(users[0].id == id && users[0].status == 0 ==> users[0].name.len() == 0
            || !vstd::utf8::valid_utf8(users[0].name));
    }
}

/// A free record adds no line to the user list.
pub proof fn lemma_free_user_not_listed(tick: u32, users: Seq<UserView>, u: UserView)
    requires
        u.status != 0,
    ensures
        user_lines(tick, users.push(u)) == user_lines(tick, users),
{
    assert(users.push(u).drop_last() =~= users);
}

/// An active record adds its own line, with its identifier, after the lines
/// of the records before it.
pub proof fn lemma_active_user_listed(tick: u32, users: Seq<UserView>, u: UserView)
    requires
        u.status == 0,
    ensures
        user_lines(tick, users.push(u)) == user_lines(tick, users) + info_line(
            tick,
            text("] <Info> ID: ") + num(u.id as u32) + text(" | Name: ") + listed_name(u.name),
        ),
{
    assert(users.push(u).drop_last() =~= users);
}

/// A registry with no active record lists no user: `/users` shows the title
/// and "No users registered." only.
pub proof fn lemma_no_active_users_listed(tick: u32, users: Seq<UserView>)
    requires
        forall|i: int| 0 <= i < users.len() ==> #[trigger] users[i].status != 0,
    ensures
        user_lines(tick, users) == Seq::<u8>::empty(),
        active_users_bytes(tick, users) == system_message_bytes(tick, text("--- Active Users ---"))
            + system_message_bytes(tick, text("No users registered.")),
    decreases users.len(),
{
    if users.len() > 0 {
        let rest = users.drop_last();
        assert(forall|i: int| 0 <= i < rest.len() ==> #[trigger] rest[i] == users[i]);
        lemma_no_active_users_listed(tick, rest);
        assert(users.last().status != 0);
    }
    assert(!has_active_user(users));
    assert(active_users_bytes(tick, users) =~= system_message_bytes(
        tick,
        text("--- Active Users ---"),
    ) + system_message_bytes(tick, text("No users registered.")));
}

} // verus!
