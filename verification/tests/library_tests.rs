use cli_chat_core::serial::SerialPort;
use cli_chat_core::state::ansi::{CLEAR_SCREEN, CURSOR_INPUT_LINE};
use cli_chat_core::state::render::{
    init_viewport, render_active_users, render_empty_line, render_message, render_prompt,
    render_system_message, write_str,
};
use cli_chat_core::state::{decode_stored, AppState};
use cli_chat_core::storage::Storage;
use cli_chat_core::types::{FixedString, Message, RingBuffer, MAX_HISTORY, MAX_USERS};
use cli_chat_core::utils::{parse_u16, write_u32, Crc32};

struct Port {
    output: Vec<u8>,
}

impl Port {
    fn new() -> Self {
        Self { output: Vec::new() }
    }

    fn text(&self) -> String {
        String::from_utf8_lossy(&self.output).into_owned()
    }
}

impl SerialPort for Port {
    fn write_byte(&mut self, byte: u8) {
        self.output.push(byte);
    }

    fn read_byte(&mut self) -> Option<u8> {
        None
    }
}

struct Medium {
    data: Vec<u8>,
    durable: Vec<u8>,
    fail_reads: bool,
    fail_writes: bool,
}

impl Medium {
    fn new() -> Self {
        Self { data: Vec::new(), durable: Vec::new(), fail_reads: false, fail_writes: false }
    }
}

impl Storage for Medium {
    fn read(&mut self, offset: usize, buffer: &mut [u8]) -> Result<usize, &'static str> {
        if self.fail_reads {
            return Err("read failed");
        }
        if offset >= self.data.len() {
            return Ok(0);
        }
        let end = std::cmp::min(offset + buffer.len(), self.data.len());
        let len = end - offset;
        buffer[..len].copy_from_slice(&self.data[offset..end]);
        Ok(len)
    }

    fn write(&mut self, offset: usize, buffer: &[u8]) -> Result<(), &'static str> {
        if self.fail_writes {
            return Err("write failed");
        }
        let end = offset + buffer.len();
        if end > self.data.len() {
            self.data.resize(end, 0);
        }
        self.data[offset..end].copy_from_slice(buffer);
        Ok(())
    }

    fn flush(&mut self) -> Result<(), &'static str> {
        self.durable = self.data.clone();
        Ok(())
    }
}

fn booted() -> (AppState, Port, Medium) {
    let mut state = AppState::uninit();
    let mut port = Port::new();
    let mut medium = Medium::new();
    state.init(&mut medium, &mut port).unwrap();
    port.output.clear();
    (state, port, medium)
}

fn feed(state: &mut AppState, port: &mut Port, medium: &mut Medium, bytes: &[u8]) {
    for &b in bytes {
        state.process_byte(b, port, medium).unwrap();
    }
}

const IMAGE_LEN: usize = 9 + 256 * 48 + 64 * 272 + 24 + 4;
const HISTORY_AT: usize = 9 + 256 * 48;
const HEAD_AT: usize = HISTORY_AT + 64 * 272;

fn u64_at(data: &[u8], at: usize) -> u64 {
    let mut bytes = [0u8; 8];
    bytes.copy_from_slice(&data[at..at + 8]);
    u64::from_le_bytes(bytes)
}

fn reseal(data: &mut [u8]) {
    let mut crc = Crc32::new();
    crc.update(&data[..IMAGE_LEN - 4]);
    let value = crc.finalize().to_le_bytes();
    data[IMAGE_LEN - 4..IMAGE_LEN].copy_from_slice(&value);
}

#[test]
fn crc32_matches_the_standard_check_value() {
    let mut crc = Crc32::new();
    crc.update(b"123456789");
    assert_eq!(crc.finalize(), 0xCBF4_3926);
    let empty = Crc32::new();
    assert_eq!(empty.finalize(), 0);
}

#[test]
fn crc32_in_chunks_equals_crc32_of_the_whole() {
    let mut whole = Crc32::new();
    whole.update(b"hello, world");
    let mut parts = Crc32::default();
    parts.update(b"hello");
    parts.update(b", ");
    parts.update(b"world");
    assert_eq!(whole.finalize(), parts.finalize());
}

#[test]
fn write_u32_prints_decimal() {
    let mut port = Port::new();
    write_u32(&mut port, 0);
    write_u32(&mut port, 7);
    write_u32(&mut port, 120);
    write_u32(&mut port, 4_294_967_295);
    assert_eq!(port.text(), "071204294967295");
}

#[test]
fn parse_u16_accepts_only_digits_within_range() {
    assert_eq!(parse_u16(b"0"), Some(0));
    assert_eq!(parse_u16(b"007"), Some(7));
    assert_eq!(parse_u16(b"65535"), Some(65535));
    assert_eq!(parse_u16(b"65536"), None);
    assert_eq!(parse_u16(b"99999999999"), None);
    assert_eq!(parse_u16(b""), None);
    assert_eq!(parse_u16(b"12a"), None);
    assert_eq!(parse_u16(b" 1"), None);
}

#[test]
fn parse_u16_reads_back_printed_identifiers() {
    for n in [0u16, 1, 9, 10, 99, 100, 4321, 65535] {
        let mut port = Port::new();
        write_u32(&mut port, n as u32);
        assert_eq!(parse_u16(&port.output), Some(n));
    }
}

#[test]
fn fixed_string_refuses_bytes_beyond_capacity() {
    let mut s = FixedString::<2>::default();
    assert!(s.push(b'a'));
    assert!(s.push(b'b'));
    assert!(s.is_full());
    assert!(!s.push(b'c'));
    assert_eq!(s.as_bytes(), b"ab");
    s.clear();
    assert!(s.is_empty());
    assert_eq!(s.pop(), None);
}

#[test]
fn fixed_string_as_str_rejects_invalid_utf8() {
    let mut s = FixedString::<4>::new();
    s.push(0xFF);
    assert!(s.as_str().is_err());
    let mut t = FixedString::<4>::new();
    t.push(0xC3);
    t.push(0xA9);
    assert_eq!(t.as_str().unwrap(), "\u{e9}");
}

#[test]
fn ring_buffer_keeps_the_last_items_in_order() {
    let mut rb = RingBuffer::<u32, 2>::default();
    assert_eq!(rb.get(0), None);
    for v in 1..=7 {
        rb.push(v);
    }
    assert!(rb.is_full());
    assert_eq!(rb.len(), 2);
    assert_eq!(*rb.get(0).unwrap(), 6);
    assert_eq!(*rb.get(1).unwrap(), 7);
    assert_eq!(rb.get(2), None);
}

#[test]
fn system_message_has_exact_layout() {
    let mut port = Port::new();
    render_system_message(&mut port, 5, "hi");
    assert_eq!(port.text(), "\x1b7\x1b[22;1H\x1b[33m[5] <System> hi\x1b[0m\r\n\x1b8");
    let mut port = Port::new();
    render_empty_line(&mut port);
    assert_eq!(port.text(), "\x1b7\x1b[22;1H\r\n\x1b8");
    let mut port = Port::new();
    write_str(&mut port, "abc");
    assert_eq!(port.text(), "abc");
}

#[test]
fn viewport_draws_eighty_dashes() {
    let mut port = Port::new();
    init_viewport(&mut port);
    let text = port.text();
    assert!(text.starts_with(CLEAR_SCREEN));
    assert!(text.ends_with(CURSOR_INPUT_LINE));
    assert_eq!(port.output.iter().filter(|&&b| b == b'-').count(), 80);
}

#[test]
fn prompt_names_guest_user_and_named_user() {
    let (mut state, mut port, mut medium) = booted();
    render_prompt(&state, &mut port);
    assert_eq!(port.text(), "\x1b[24;1H\x1b[2K\x1b[32mGuest> \x1b[0m");
    feed(&mut state, &mut port, &mut medium, b"/user 42\r");
    port.output.clear();
    render_prompt(&state, &mut port);
    assert_eq!(port.text(), "\x1b[24;1H\x1b[2K\x1b[32mUser42> \x1b[0m");
    feed(&mut state, &mut port, &mut medium, b"/name Bob\rhi");
    port.output.clear();
    render_prompt(&state, &mut port);
    assert_eq!(port.text(), "\x1b[24;1H\x1b[2K\x1b[32mBob> \x1b[0mhi");
}

#[test]
fn message_line_shows_tick_sender_and_content() {
    let (state, mut port, _medium) = booted();
    let mut content = FixedString::<256>::new();
    content.push(b'y');
    content.push(b'o');
    let message = Message { user_id: 3, padding: 0, tick: 9, content };
    render_message(&state, &message, &mut port);
    assert_eq!(port.text(), "\x1b7\x1b[22;1H[9] <User3> yo\r\n\x1b8");
}

#[test]
fn process_byte_refuses_before_init() {
    let mut state = AppState::uninit();
    let mut port = Port::new();
    let mut medium = Medium::new();
    let r = state.process_byte(b'a', &mut port, &mut medium);
    assert_eq!(r, Err("AppState not initialized. Call init() first."));
    assert!(port.output.is_empty());
    assert!(state.input_buffer.is_empty());
    assert!(medium.data.is_empty());
}

#[test]
fn typing_echoes_and_backspace_erases() {
    let (mut state, mut port, mut medium) = booted();
    feed(&mut state, &mut port, &mut medium, b"ab");
    assert_eq!(port.output, b"ab");
    state.process_byte(0x7F, &mut port, &mut medium).unwrap();
    assert_eq!(port.output, b"ab\x08 \x08");
    assert_eq!(state.input_buffer.as_bytes(), b"a");
    state.process_byte(0x08, &mut port, &mut medium).unwrap();
    state.process_byte(0x08, &mut port, &mut medium).unwrap();
    assert_eq!(port.output, b"ab\x08 \x08\x08 \x08");
    assert!(state.input_buffer.is_empty());
}

#[test]
fn type_then_erase_restores_the_line() {
    let (mut state, mut port, mut medium) = booted();
    feed(&mut state, &mut port, &mut medium, b"xy");
    port.output.clear();
    state.process_byte(b'z', &mut port, &mut medium).unwrap();
    state.process_byte(0x08, &mut port, &mut medium).unwrap();
    assert_eq!(state.input_buffer.as_bytes(), b"xy");
    assert_eq!(port.output, b"z\x08 \x08");
}

#[test]
fn unprintable_bytes_and_empty_lines_do_nothing() {
    let (mut state, mut port, mut medium) = booted();
    feed(&mut state, &mut port, &mut medium, &[0x00, 0x1B, 0x80, 0xFF, b'\r', b'\n']);
    assert!(port.output.is_empty());
    assert_eq!(state.relative_tick, 0);
    assert!(medium.data.is_empty());
}

#[test]
fn input_line_holds_at_most_256_bytes() {
    let (mut state, mut port, mut medium) = booted();
    for _ in 0..300 {
        state.process_byte(b'q', &mut port, &mut medium).unwrap();
    }
    assert_eq!(state.input_buffer.len(), 256);
    assert_eq!(port.output.len(), 256);
}

#[test]
fn messages_advance_the_tick_and_are_persisted() {
    let (mut state, mut port, mut medium) = booted();
    feed(&mut state, &mut port, &mut medium, b"hello\r");
    assert_eq!(state.relative_tick, 1);
    assert_eq!(state.history.len(), 1);
    let m = state.history.get(0).unwrap();
    assert_eq!(m.user_id, 0);
    assert_eq!(m.tick, 1);
    assert_eq!(m.content.as_bytes(), b"hello");
    assert!(state.input_buffer.is_empty());
    assert_eq!(medium.data.len(), IMAGE_LEN);
    assert_eq!(&medium.data[0..5], b"EMBU\x01");
    assert!(port.text().contains("[1] <User0> hello"));
}

#[test]
fn history_keeps_the_last_64_messages() {
    let (mut state, mut port, mut medium) = booted();
    for i in 0..70u32 {
        let line = format!("m{}\r", i);
        feed(&mut state, &mut port, &mut medium, line.as_bytes());
    }
    assert_eq!(state.history.len(), MAX_HISTORY);
    assert_eq!(state.history.get(0).unwrap().content.as_bytes(), b"m6");
    assert_eq!(state.history.get(63).unwrap().content.as_bytes(), b"m69");
    let mut state2 = AppState::uninit();
    let mut port2 = Port::new();
    state2.init(&mut medium, &mut port2).unwrap();
    assert_eq!(state2.history.len(), MAX_HISTORY);
    assert_eq!(state2.history.get(0).unwrap().content.as_bytes(), b"m6");
    assert_eq!(state2.history.get(63).unwrap().content.as_bytes(), b"m69");
}

#[test]
fn exit_command_sets_the_exit_flag() {
    let (mut state, mut port, mut medium) = booted();
    feed(&mut state, &mut port, &mut medium, b"/exit\r");
    assert!(state.should_exit);
    assert_eq!(port.text(), "/exit\x1b[24;1H\x1b[2K\x1b[32mGuest> \x1b[0m");
}

#[test]
fn clear_command_redraws_the_viewport() {
    let (mut state, mut port, mut medium) = booted();
    feed(&mut state, &mut port, &mut medium, b"/clear\r");
    assert!(port.text().starts_with(&format!("/clear{}", CLEAR_SCREEN)));
    assert!(port.text().contains("CLI Chat Embedded"));
}

#[test]
fn user_command_rejects_bad_identifiers() {
    let (mut state, mut port, mut medium) = booted();
    feed(&mut state, &mut port, &mut medium, b"/user abc\r");
    assert!(port.text().contains("Error: Invalid user ID."));
    assert_eq!(state.current_user_id, None);
    feed(&mut state, &mut port, &mut medium, b"/switch 70000\r");
    assert_eq!(state.current_user_id, None);
}

#[test]
fn switch_registers_each_user_once() {
    let (mut state, mut port, mut medium) = booted();
    feed(&mut state, &mut port, &mut medium, b"/switch 7\r/user 8\r/user 7\r");
    assert_eq!(state.current_user_id, Some(7));
    assert!(port.text().contains("User switched successfully."));
    let active: Vec<u16> =
        state.users.iter().filter(|u| u.status == 0).map(|u| u.id).collect();
    assert_eq!(active, vec![7, 8]);
    assert_eq!(state.users[0].id, 7);
    assert_eq!(state.users[1].id, 8);
}

#[test]
fn switching_with_a_full_registry_registers_nobody() {
    let (mut state, mut port, mut medium) = booted();
    for i in 0..MAX_USERS {
        state.users[i].status = 0;
        state.users[i].id = i as u16;
    }
    feed(&mut state, &mut port, &mut medium, b"/user 999\r");
    assert_eq!(state.current_user_id, Some(999));
    assert!(state.users.iter().all(|u| u.id != 999));
}

#[test]
fn name_command_needs_a_user_and_truncates() {
    let (mut state, mut port, mut medium) = booted();
    feed(&mut state, &mut port, &mut medium, b"/name Zed\r");
    assert!(port.text().contains("Error: Please switch to a user first."));
    feed(&mut state, &mut port, &mut medium, b"/user 5\r");
    let long = format!("/name {}\r", "n".repeat(40));
    feed(&mut state, &mut port, &mut medium, long.as_bytes());
    assert!(port.text().contains("Display name updated."));
    assert_eq!(state.users[0].name.as_bytes(), "n".repeat(32).as_bytes());
}

#[test]
fn users_command_lists_active_users() {
    let (mut state, mut port, mut medium) = booted();
    let mut listing = Port::new();
    render_active_users(&state, &mut listing);
    assert!(listing.text().contains("No users registered."));
    feed(&mut state, &mut port, &mut medium, b"/user 12\r/name Ann\r/user 13\r");
    port.output.clear();
    feed(&mut state, &mut port, &mut medium, b"/users\r");
    let text = port.text();
    assert!(text.contains("--- Active Users ---"));
    assert!(text.contains("[4] <Info> ID: 12 | Name: Ann"));
    assert!(text.contains("[4] <Info> ID: 13 | Name: Unnamed"));
    assert!(!text.contains("No users registered."));
}

#[test]
fn info_commands_show_their_lines() {
    let (mut state, mut port, mut medium) = booted();
    state.set_boot_epoch(1_700_000_000);
    feed(&mut state, &mut port, &mut medium, b"hi\r/status\r");
    assert!(port.text().contains("[2] <Info> Uptime Ticks: 2"));
    assert!(port.text().contains("Messages in History: 1 / 64"));
    feed(&mut state, &mut port, &mut medium, b"/time\r");
    assert!(port.text().contains("Boot Epoch: 1700000000"));
    feed(&mut state, &mut port, &mut medium, b"/ping\r/about\r/help\r/nope\r");
    let text = port.text();
    assert!(text.contains("Pong! System is responsive."));
    assert!(text.contains("License: MIT"));
    assert!(text.contains("Commands: /user <id>"));
    assert!(text.contains("Unknown command. Type /help for a list of commands."));
}

#[test]
fn first_boot_on_empty_storage_is_a_factory_reset() {
    let mut state = AppState::uninit();
    let mut port = Port::new();
    let mut medium = Medium::new();
    assert_eq!(state.init(&mut medium, &mut port), Ok(()));
    assert!(state.initialized);
    assert!(port.text().contains("CRC mismatch: factory reset applied"));
    assert!(state.users.iter().all(|u| u.status == 1));
    assert!(medium.data.is_empty());
}

#[test]
fn corrupted_storage_is_factory_reset() {
    let (mut state, mut port, mut medium) = booted();
    feed(&mut state, &mut port, &mut medium, b"/user 1\rhello\r");
    medium.data[100] ^= 0x55;
    let mut state2 = AppState::uninit();
    let mut port2 = Port::new();
    state2.init(&mut medium, &mut port2).unwrap();
    assert!(port2.text().contains("CRC mismatch: factory reset applied"));
    assert_eq!(state2.history.len(), 0);
    assert_eq!(state2.users[0].status, 1);
}

#[test]
fn failing_reads_fall_back_to_a_factory_reset() {
    let (mut state, mut port, mut medium) = booted();
    feed(&mut state, &mut port, &mut medium, b"hello\r");
    medium.fail_reads = true;
    let mut state2 = AppState::uninit();
    let mut port2 = Port::new();
    state2.init(&mut medium, &mut port2).unwrap();
    assert_eq!(state2.history.len(), 0);
}

#[test]
fn failing_writes_are_reported_after_the_state_changes() {
    let (mut state, mut port, mut medium) = booted();
    feed(&mut state, &mut port, &mut medium, b"hello");
    medium.fail_writes = true;
    let r = state.process_byte(b'\r', &mut port, &mut medium);
    assert_eq!(r, Err("write failed"));
    assert_eq!(state.history.len(), 1);
    assert!(state.input_buffer.is_empty());
    assert!(!port.text().contains("Guest> "));
}

#[test]
fn boot_epoch_and_names_survive_a_restart() {
    let (mut state, mut port, mut medium) = booted();
    state.set_boot_epoch(123_456);
    feed(&mut state, &mut port, &mut medium, b"/user 3\r/name Eve\rhey\r");
    let mut state2 = AppState::uninit();
    let mut port2 = Port::new();
    state2.init(&mut medium, &mut port2).unwrap();
    assert_eq!(state2.boot_epoch, 123_456);
    assert_eq!(state2.users[0].name.as_bytes(), b"Eve");
    assert_eq!(state2.current_user_id, None);
    assert!(port2.text().contains("[3] <Eve> hey"));
    assert!(!port2.text().contains("CRC mismatch"));
}

#[test]
fn flush_writes_the_fixed_layout() {
    let (mut state, _port, mut medium) = booted();
    state.set_boot_epoch(0x0403_0201);
    state.flush(&mut medium).unwrap();
    assert_eq!(medium.data.len(), IMAGE_LEN);
    assert_eq!(&medium.data[0..9], b"EMBU\x01\x01\x02\x03\x04");
    assert_eq!(medium.data[9 + 2], 1);
    let body = &medium.data[..IMAGE_LEN - 4];
    let mut crc = Crc32::new();
    crc.update(body);
    assert_eq!(&medium.data[IMAGE_LEN - 4..], &crc.finalize().to_le_bytes());
}

#[test]
fn factory_reset_clears_everything() {
    let (mut state, mut port, mut medium) = booted();
    feed(&mut state, &mut port, &mut medium, b"/user 1\rhello\r");
    port.output.clear();
    state.factory_reset(&mut port).unwrap();
    assert!(state.initialized);
    assert_eq!(state.history.len(), 0);
    assert_eq!(state.current_user_id, None);
    assert_eq!(state.relative_tick, 0);
    assert!(port
        .text()
        .contains("\x1b7\x1b[22;1H\x1b[33m[WARNING] CRC mismatch: factory reset applied\x1b[0m\r\n\x1b8"));
    assert!(!port.text().contains("<System> CRC mismatch"));
    assert!(port.text().ends_with("Guest> \x1b[0m"));
}

#[test]
fn process_byte_survives_arbitrary_input() {
    let mut seed: u32 = 0x1234_5678;
    for _round in 0..20 {
        let (mut state, mut port, mut medium) = booted();
        for _ in 0..512 {
            seed = seed.wrapping_mul(1_664_525).wrapping_add(1_013_904_223);
            let byte = (seed >> 24) as u8;
            let _ = state.process_byte(byte, &mut port, &mut medium);
        }
        assert!(state.input_buffer.len() <= 256);
        assert!(state.history.len() <= MAX_HISTORY);
    }
}

#[test]
fn name_bytes_past_the_length_are_stored_as_they_lie() {
    let (mut state, mut port, mut medium) = booted();
    feed(&mut state, &mut port, &mut medium, b"/user 1\r/name Alice\r/name Bob\r");
    assert_eq!(state.users[0].name.as_bytes(), b"Bob");
    assert_eq!(&medium.data[17..22], b"Bobce");
    assert_eq!(u64_at(&medium.data, 49), 3);
    let mut state2 = AppState::uninit();
    let mut port2 = Port::new();
    state2.init(&mut medium, &mut port2).unwrap();
    assert_eq!(state2.users[0].name.as_bytes(), b"Bob");
    let mut again = Medium::new();
    state2.flush(&mut again).unwrap();
    assert_eq!(again.data, medium.data);
}

#[test]
fn history_is_stored_in_its_slots_with_head_and_tail() {
    let (mut state, mut port, mut medium) = booted();
    for i in 0..65u32 {
        let line = format!("m{}\r", i);
        feed(&mut state, &mut port, &mut medium, line.as_bytes());
    }
    assert_eq!(u64_at(&medium.data, HEAD_AT), 1);
    assert_eq!(u64_at(&medium.data, HEAD_AT + 8), 1);
    assert_eq!(u64_at(&medium.data, HEAD_AT + 16), 64);
    assert_eq!(&medium.data[HISTORY_AT + 8..HISTORY_AT + 11], b"m64");
    assert_eq!(&medium.data[HISTORY_AT + 272 + 8..HISTORY_AT + 272 + 10], b"m1");
    let mut state2 = AppState::uninit();
    let mut port2 = Port::new();
    state2.init(&mut medium, &mut port2).unwrap();
    assert_eq!(state2.history.get(0).unwrap().content.as_bytes(), b"m1");
    assert_eq!(state2.history.get(63).unwrap().content.as_bytes(), b"m64");
    let mut again = Medium::new();
    state2.flush(&mut again).unwrap();
    assert_eq!(again.data, medium.data);
}

#[test]
fn stored_head_is_reduced_to_a_slot() {
    let (mut state, mut port, mut medium) = booted();
    feed(&mut state, &mut port, &mut medium, b"one\rtwo\r");
    let head = (64u64 + 0).to_le_bytes();
    medium.data[HEAD_AT..HEAD_AT + 8].copy_from_slice(&head);
    reseal(&mut medium.data);
    let mut state2 = AppState::uninit();
    let mut port2 = Port::new();
    state2.init(&mut medium, &mut port2).unwrap();
    assert!(!port2.text().contains("CRC mismatch"));
    assert_eq!(state2.history.len(), 2);
    assert_eq!(state2.history.get(0).unwrap().content.as_bytes(), b"one");
    assert_eq!(state2.history.get(1).unwrap().content.as_bytes(), b"two");
}

#[test]
fn oversized_live_content_length_is_a_factory_reset() {
    let (mut state, mut port, mut medium) = booted();
    feed(&mut state, &mut port, &mut medium, b"one\r");
    let len = 257u64.to_le_bytes();
    medium.data[HISTORY_AT + 264..HISTORY_AT + 272].copy_from_slice(&len);
    reseal(&mut medium.data);
    let mut state2 = AppState::uninit();
    let mut port2 = Port::new();
    state2.init(&mut medium, &mut port2).unwrap();
    assert!(port2.text().contains("[WARNING] CRC mismatch"));
    assert_eq!(state2.history.len(), 0);
}

#[test]
fn submitted_lines_are_made_durable() {
    let (mut state, mut port, mut medium) = booted();
    feed(&mut state, &mut port, &mut medium, b"hello\r");
    assert_eq!(medium.durable.len(), IMAGE_LEN);
    assert_eq!(medium.durable, medium.data);
}

#[test]
fn decode_stored_accepts_exactly_valid_images() {
    let (mut state, mut port, mut medium) = booted();
    state.set_boot_epoch(77);
    feed(&mut state, &mut port, &mut medium, b"/user 5\r/name Zed\rhi\r");
    let data = medium.data.clone();
    let split = |d: &[u8]| {
        (
            d[0..9].to_vec(),
            d[9..HISTORY_AT].to_vec(),
            d[HISTORY_AT..IMAGE_LEN - 4].to_vec(),
            d[IMAGE_LEN - 4..IMAGE_LEN].to_vec(),
        )
    };
    let (h, u, hs, c) = split(&data);
    let (epoch, users, history) = decode_stored(&h, &u, &hs, &c).unwrap();
    assert_eq!(epoch, 77);
    assert_eq!(users[0].id, 5);
    assert_eq!(users[0].name.as_bytes(), b"Zed");
    assert_eq!(history.len(), 1);
    assert_eq!(history.get(0).unwrap().content.as_bytes(), b"hi");
    let mut bad = data.clone();
    bad[HISTORY_AT + 9] ^= 1;
    let (h, u, hs, c) = split(&bad);
    assert!(decode_stored(&h, &u, &hs, &c).is_none());
    let mut wrong_version = data.clone();
    wrong_version[4] = 2;
    reseal(&mut wrong_version);
    let (h, u, hs, c) = split(&wrong_version);
    assert!(decode_stored(&h, &u, &hs, &c).is_none());
}

#[test]
fn commands_never_enter_the_history() {
    let (mut state, mut port, mut medium) = booted();
    feed(&mut state, &mut port, &mut medium, b"hello\r");
    let epoch = state.boot_epoch;
    for line in [&b"/users\r"[..], b"/status\r", b"/user 2\r", b"/name Kim\r", b"/nope\r"] {
        feed(&mut state, &mut port, &mut medium, line);
        assert_eq!(state.history.len(), 1);
        assert_eq!(state.history.get(0).unwrap().content.as_bytes(), b"hello");
        assert_eq!(state.boot_epoch, epoch);
        assert!(state.input_buffer.is_empty());
        assert!(state.initialized);
    }
    assert_eq!(state.relative_tick, 6);
    assert_eq!(state.current_user_id, Some(2));
    assert_eq!(state.users[0].name.as_bytes(), b"Kim");
}

#[test]
fn stored_tail_decides_where_the_next_message_goes() {
    let (mut state, mut port, mut medium) = booted();
    feed(&mut state, &mut port, &mut medium, b"one\rtwo\r");
    assert_eq!(u64_at(&medium.data, HEAD_AT + 8), 2);
    medium.data[HEAD_AT + 8..HEAD_AT + 16].copy_from_slice(&5u64.to_le_bytes());
    reseal(&mut medium.data);
    let mut state2 = AppState::uninit();
    let mut port2 = Port::new();
    state2.init(&mut medium, &mut port2).unwrap();
    assert!(!port2.text().contains("CRC mismatch"));
    assert_eq!(state2.history.len(), 2);
    feed(&mut state2, &mut port2, &mut medium, b"three\r");
    assert_eq!(state2.history.len(), 3);
    assert_eq!(state2.history.get(0).unwrap().content.as_bytes(), b"one");
    assert_eq!(state2.history.get(1).unwrap().content.as_bytes(), b"two");
    assert_eq!(state2.history.get(2).unwrap().content.as_bytes(), b"");
    assert_eq!(&medium.data[HISTORY_AT + 5 * 272 + 8..HISTORY_AT + 5 * 272 + 13], b"three");
    assert_eq!(u64_at(&medium.data, HEAD_AT + 8), 6);
    assert_eq!(u64_at(&medium.data, HEAD_AT + 16), 3);
}

#[test]
fn stored_tail_outside_the_slots_is_a_factory_reset() {
    let (mut state, mut port, mut medium) = booted();
    feed(&mut state, &mut port, &mut medium, b"one\r");
    medium.data[HEAD_AT + 8..HEAD_AT + 16].copy_from_slice(&64u64.to_le_bytes());
    reseal(&mut medium.data);
    let mut state2 = AppState::uninit();
    let mut port2 = Port::new();
    state2.init(&mut medium, &mut port2).unwrap();
    assert!(port2.text().contains("[WARNING] CRC mismatch"));
    assert_eq!(state2.history.len(), 0);
}
