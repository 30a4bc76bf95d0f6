//! Non-volatile storage abstraction and the fixed-record layout of the
//! persisted state, validated by CRC32.
//!
//! Layout (little-endian), the in-memory `#[repr(C)]` layout of the
//! records on the target, where a word is a `usize` (8 bytes on 64-bit
//! targets, 4 on 32-bit ones):
//! `[magic "EMBU"][version 1][boot_epoch: u32][users: 256 records][history][crc32: u32]`.
//! A user record is `id: u16, status: u8, padding: u8`, zero bytes up to a
//! word boundary, then the whole 32-byte name buffer and the name length as
//! a word (48 bytes, or 40). A message record is `user_id: u16,
//! padding: u16, tick: u32`, then the whole 256-byte content buffer and the
//! content length as a word (272 bytes, or 268). Bytes of a buffer past its
//! length are stored as they lie. The history block holds the 64 slots of
//! the ring buffer where they lie (a slot never written as the record of an
//! empty message), then `head`, `tail` and `count` as words; slot
//! `(head + i) % 64` holds the `i`-th oldest message.
use crate::types::{
    lemma_fixed_string_len, lemma_mod_wrap, message_views, ring_aligned, ring_layout, ring_wf,
    slot_views, user_views,
    FixedString, Message, MessageView, RingBuffer, User, UserView, MAX_HISTORY, MAX_USERS,
};
use crate::utils::crc32;
use vstd::bytes::{
    spec_u16_from_le_bytes, spec_u16_to_le_bytes, spec_u32_from_le_bytes, spec_u32_to_le_bytes,
    spec_u64_from_le_bytes, spec_u64_to_le_bytes,
};
use vstd::prelude::*;

verus! {

/// Whether `new` is `old` after writing `bytes` at `offset`: the bytes
/// appear there, every other byte `old` had is kept, and the medium grows
/// to cover the write when it ends past `old`'s end.
pub open spec fn wrote(old: Seq<u8>, new: Seq<u8>, offset: int, bytes: Seq<u8>) -> bool {
    let end = offset + bytes.len();
    &&& new.len() == if end > old.len() { end } else { old.len() as int }
    &&& forall|i: int| offset <= i < end ==> #[trigger] new[i] == bytes[i - offset]
    &&& forall|i: int| 0 <= i < old.len() && !(offset <= i < end) ==> #[trigger] new[i] == old[i]
}

/// Hardware abstraction for non-volatile storage: a medium of bytes that
/// blocks are read from and written to at byte offsets.
///
/// Implementations keep this contract: `medium` is the sequence of bytes
/// that reads see and `durable` the sequence that would survive a power
/// loss; a read copies the bytes stored from `offset` on into the front of
/// `buffer` and reports how many it copied (fewer when the medium ends
/// sooner), changing nothing; a write that succeeds stores `buffer` at
/// `offset`; a flush that succeeds changes no byte and makes the whole
/// medium durable. What a failed write or flush leaves behind is not
/// specified.
///
/// An implementation has to define `medium` and `durable` to meet these
/// contracts: the empty sequences they default to only let implementations
/// outside verification leave them out, and with them a write of any byte
/// could never succeed.
pub trait Storage {
    /// The bytes stored on the medium, as reads see them.
    closed spec fn medium(&self) -> Seq<u8> {
        Seq::empty()
    }

    /// The bytes that are permanently stored.
    closed spec fn durable(&self) -> Seq<u8> {
        Seq::empty()
    }

    /// Reads into `buffer` the bytes stored from `offset` on.
    fn read(&mut self, offset: usize, buffer: &mut [u8]) -> (r: Result<usize, &'static str>)
        ensures
            final(self).medium() == old(self).medium(),
            final(self).durable() == old(self).durable(),
            final(buffer)@.len() == old(buffer)@.len(),
            r matches Ok(n) ==> n <= old(buffer)@.len() && (n > 0 ==> offset + n <= old(
                self,
            ).medium().len() && final(buffer)@.subrange(0, n as int) == old(self).medium().subrange(
                offset as int,
                offset + n,
            )),
    ;

    /// Writes `buffer` at `offset`.
    fn write(&mut self, offset: usize, buffer: &[u8]) -> (r: Result<(), &'static str>)
        ensures
            r is Ok ==> wrote(old(self).medium(), final(self).medium(), offset as int, buffer@),
    ;

    /// Makes every write so far permanent.
    fn flush(&mut self) -> (r: Result<(), &'static str>)
        ensures
            r is Ok ==> final(self).medium() == old(self).medium() && final(self).durable()
                == final(self).medium(),
    ;
}

/// Two consecutive writes from offset 0 amount to writing their
/// concatenation at offset 0.
pub proof fn lemma_wrote_concat(m0: Seq<u8>, m1: Seq<u8>, m2: Seq<u8>, a: Seq<u8>, b: Seq<u8>)
    requires
        wrote(m0, m1, 0, a),
        wrote(m1, m2, a.len() as int, b),
    ensures
        wrote(m0, m2, 0, a + b),
{
    assert forall|i: int| 0 <= i < a.len() + b.len() implies #[trigger] m2[i] == (a + b)[i] by {
        if i < a.len() {
            assert(m1[i] == a[i]);
        }
    }
}

/// A prefix of a medium read back in four consecutive blocks.
pub proof fn lemma_four_blocks(m: Seq<u8>, a: Seq<u8>, b: Seq<u8>, c: Seq<u8>, d: Seq<u8>)
    requires
        a.len() + b.len() + c.len() + d.len() <= m.len(),
        a == m.subrange(0, a.len() as int),
        b == m.subrange(a.len() as int, (a.len() + b.len()) as int),
        c == m.subrange((a.len() + b.len()) as int, (a.len() + b.len() + c.len()) as int),
        d == m.subrange(
            (a.len() + b.len() + c.len()) as int,
            (a.len() + b.len() + c.len() + d.len()) as int,
        ),
    ensures
        m.subrange(0, (a.len() + b.len() + c.len() + d.len()) as int) == a + b + c + d,
{
    let n = (a.len() + b.len() + c.len() + d.len()) as int;
    assert forall|k: int| 0 <= k < n implies #[trigger] m.subrange(0, n)[k] == (a + b + c + d)[k] by {
        if k < a.len() {
            assert(a[k] == m[k]);
        } else if k < a.len() + b.len() {
            assert(b[k - a.len()] == m[k]);
        } else if k < a.len() + b.len() + c.len() {
            assert(c[k - a.len() - b.len()] == m[k]);
        } else {
            assert(d[k - a.len() - b.len() - c.len()] == m[k]);
        }
    }
    assert(m.subrange(0, n) =~= a + b + c + d);
}

/// Bytes of the header: magic, version and boot epoch.
pub const HEADER_LEN: usize = 9;

/// Bytes of the CRC32 footer.
pub const CRC_LEN: usize = 4;

/// Bytes of a `usize` on the target, 8 or 4: the width of the stored
/// lengths, head, tail and count, and the alignment of the records.
pub open spec fn word() -> nat {
    if usize::BITS == 64 {
        8
    } else {
        4
    }
}

/// Bytes of one user record: identifier, status, padding, alignment to a
/// word, the name buffer and its length.
pub open spec fn user_record_len() -> nat {
    32 + 2 * word()
}

/// Bytes of one message record: sender, padding, tick, the content buffer
/// and its length.
pub open spec fn message_record_len() -> nat {
    264 + word()
}

/// Bytes of the user block.
pub open spec fn users_block_len() -> nat {
    256 * user_record_len()
}

/// Bytes of the history block: the message slots, then head, tail, count.
pub open spec fn history_block_len() -> nat {
    64 * message_record_len() + 3 * word()
}

/// Bytes of a whole stored image.
pub open spec fn image_len() -> nat {
    (HEADER_LEN + users_block_len() + history_block_len() + CRC_LEN) as nat
}

/// `usize` is 64 or 32 bits wide.
pub proof fn lemma_word()
    ensures
        word() == 8 || word() == 4,
        word() == 8 <==> usize::BITS == 64,
        user_record_len() <= 48,
        message_record_len() <= 272,
        image_len() <= 29733,
{
}

/// Bytes of a `usize` on the target.
pub fn word_size() -> (n: usize)
    ensures
        n == word(),
{
    if usize::BITS == 64 {
        8
    } else {
        4
    }
}

/// Bytes of one user record.
pub fn user_record_size() -> (n: usize)
    ensures
        n == user_record_len(),
{
    32 + 2 * word_size()
}

/// Bytes of one message record.
pub fn message_record_size() -> (n: usize)
    ensures
        n == message_record_len(),
{
    264 + word_size()
}

/// Bytes of the user block.
pub fn users_block_size() -> (n: usize)
    ensures
        n == users_block_len(),
{
    256 * user_record_size()
}

/// Bytes of the history block.
pub fn history_block_size() -> (n: usize)
    ensures
        n == history_block_len(),
{
    64 * message_record_size() + 3 * word_size()
}

/// Bytes of a whole stored image.
pub fn image_size() -> (n: usize)
    ensures
        n == image_len(),
{
    HEADER_LEN + users_block_size() + history_block_size() + CRC_LEN
}

/// A `usize` value as the target stores it, little-endian.
pub open spec fn word_bytes(x: nat) -> Seq<u8> {
    if word() == 8 {
        spec_u64_to_le_bytes(x as u64)
    } else {
        spec_u32_to_le_bytes(x as u32)
    }
}

/// The part of the state that is persisted: the boot epoch, the user
/// registry, and the history as its slots, the slot of the oldest message,
/// the slot the next message goes to, and the messages oldest first.
#[verifier::ext_equal]
pub struct PersistedView {
    pub boot_epoch: u32,
    pub users: Seq<UserView>,
    pub slots: Seq<Option<MessageView>>,
    pub head: nat,
    pub tail: nat,
    pub history: Seq<MessageView>,
}

/// A user whose name is the front of its 32-byte buffer.
pub open spec fn user_wf(u: UserView) -> bool {
    &&& u.name_buffer.len() == 32
    &&& u.name.len() <= 32
    &&& u.name == u.name_buffer.subrange(0, u.name.len() as int)
}

/// A message whose content is the front of its 256-byte buffer.
pub open spec fn message_wf(m: MessageView) -> bool {
    &&& m.content_buffer.len() == 256
    &&& m.content.len() <= 256
    &&& m.content == m.content_buffer.subrange(0, m.content.len() as int)
}

/// A history slot that is empty or holds a well-formed message.
pub open spec fn slot_wf(s: Option<MessageView>) -> bool {
    match s {
        Some(m) => message_wf(m),
        None => true,
    }
}

/// The values that an `AppState` can hold: a full registry of well-formed
/// users, and a history laid out in 64 well-formed slots.
pub open spec fn persisted_wf(p: PersistedView) -> bool {
    &&& p.users.len() == MAX_USERS
    &&& forall|i: int| 0 <= i < p.users.len() ==> #[trigger] user_wf(p.users[i])
    &&& forall|j: int| 0 <= j < p.slots.len() ==> #[trigger] slot_wf(p.slots[j])
    &&& ring_wf(p.slots, p.head, p.tail, p.history, MAX_HISTORY as nat)
}

/// `n` zero bytes.
pub open spec fn zeros(n: nat) -> Seq<u8> {
    Seq::new(n, |i: int| 0u8)
}

/// The message a slot that was never written is stored as.
pub open spec fn zero_message() -> MessageView {
    MessageView { user_id: 0, padding: 0, tick: 0, content: Seq::empty(), content_buffer: zeros(256) }
}

/// The message a slot is stored as.
pub open spec fn slot_message(s: Option<MessageView>) -> MessageView {
    match s {
        Some(m) => m,
        None => zero_message(),
    }
}

/// A bounded string as it lies: its whole buffer, then its length.
pub open spec fn fixed_field(buffer: Seq<u8>, len: nat) -> Seq<u8> {
    buffer + word_bytes(len)
}

/// The record of one user.
pub open spec fn user_record(u: UserView) -> Seq<u8> {
    spec_u16_to_le_bytes(u.id) + seq![u.status, u.padding] + zeros((word() - 4) as nat) + fixed_field(
        u.name_buffer,
        u.name.len(),
    )
}

/// The record of one message.
pub open spec fn message_record(m: MessageView) -> Seq<u8> {
    spec_u16_to_le_bytes(m.user_id) + spec_u16_to_le_bytes(m.padding) + spec_u32_to_le_bytes(
        m.tick,
    ) + fixed_field(m.content_buffer, m.content.len())
}

/// The records of `us`, in order.
pub open spec fn user_records(us: Seq<UserView>) -> Seq<u8>
    decreases us.len(),
{
    if us.len() == 0 {
        Seq::empty()
    } else {
        user_records(us.drop_last()) + user_record(us.last())
    }
}

/// The records of the slots `ss`, in order.
pub open spec fn slot_records(ss: Seq<Option<MessageView>>) -> Seq<u8>
    decreases ss.len(),
{
    if ss.len() == 0 {
        Seq::empty()
    } else {
        slot_records(ss.drop_last()) + message_record(slot_message(ss.last()))
    }
}

/// The history block: the slots as they lie, then `head`, `tail` (the slot
/// the next message goes to) and the number of messages.
pub open spec fn history_block(
    slots: Seq<Option<MessageView>>,
    head: nat,
    tail: nat,
    count: nat,
) -> Seq<u8> {
    slot_records(slots) + word_bytes(head) + word_bytes(tail) + word_bytes(count)
}

/// The header for `boot_epoch`.
pub open spec fn header_bytes(boot_epoch: u32) -> Seq<u8> {
    seq![69u8, 77u8, 66u8, 85u8, 1u8] + spec_u32_to_le_bytes(boot_epoch)
}

/// Everything the CRC covers.
pub open spec fn image_body(p: PersistedView) -> Seq<u8> {
    header_bytes(p.boot_epoch) + user_records(p.users) + history_block(
        p.slots,
        p.head,
        p.tail,
        p.history.len(),
    )
}

/// The stored image of `p`.
pub open spec fn image(p: PersistedView) -> Seq<u8> {
    image_body(p) + spec_u32_to_le_bytes(crc32(image_body(p)))
}

/// The little-endian `u16` stored at byte `at` of `b`.
pub open spec fn field_u16(b: Seq<u8>, at: int) -> u16 {
    spec_u16_from_le_bytes(b.subrange(at, at + 2))
}

/// The little-endian `u32` stored at byte `at` of `b`.
pub open spec fn field_u32(b: Seq<u8>, at: int) -> u32 {
    spec_u32_from_le_bytes(b.subrange(at, at + 4))
}

/// The little-endian `u64` stored at byte `at` of `b`.
pub open spec fn field_u64(b: Seq<u8>, at: int) -> u64 {
    spec_u64_from_le_bytes(b.subrange(at, at + 8))
}

/// The little-endian `usize` of the target stored at byte `at` of `b`.
pub open spec fn field_word(b: Seq<u8>, at: int) -> nat {
    if word() == 8 {
        field_u64(b, at) as nat
    } else {
        field_u32(b, at) as nat
    }
}

/// The bytes of the bounded string whose buffer of `cap` bytes starts at
/// `at`, its length following the buffer.
pub open spec fn fixed_content(b: Seq<u8>, at: int, cap: int) -> Seq<u8> {
    b.subrange(at, at + field_word(b, at + cap))
}

/// The user a record describes.
pub open spec fn user_from_record(r: Seq<u8>) -> UserView {
    UserView {
        id: field_u16(r, 0),
        status: r[2],
        padding: r[3],
        name: fixed_content(r, word() as int, 32),
        name_buffer: r.subrange(word() as int, word() + 32int),
    }
}

/// Whether a user record's name length is within capacity.
pub open spec fn user_record_ok(r: Seq<u8>) -> bool {
    field_word(r, word() + 32int) <= 32
}

/// The message a record describes.
pub open spec fn message_from_record(r: Seq<u8>) -> MessageView {
    MessageView {
        user_id: field_u16(r, 0),
        padding: field_u16(r, 2),
        tick: field_u32(r, 4),
        content: fixed_content(r, 8, 256),
        content_buffer: r.subrange(8, 264),
    }
}

/// Whether a message record's content length is within capacity.
pub open spec fn message_record_ok(r: Seq<u8>) -> bool {
    field_word(r, 264) <= 256
}

/// The slot a message record describes: its message when the record is
/// valid, else an empty slot.
pub open spec fn slot_from_record(r: Seq<u8>) -> Option<MessageView> {
    if message_record_ok(r) {
        Some(message_from_record(r))
    } else {
        None
    }
}

/// The `i`-th record of a user block.
pub open spec fn user_slot(block: Seq<u8>, i: int) -> Seq<u8> {
    block.subrange(user_record_len() * i, user_record_len() * i + user_record_len())
}

/// The `slot`-th record of a history block.
pub open spec fn message_slot(block: Seq<u8>, slot: int) -> Seq<u8> {
    block.subrange(
        message_record_len() * slot,
        message_record_len() * slot + message_record_len(),
    )
}

/// The users a user block holds, when every name length is valid.
pub open spec fn decode_users(block: Seq<u8>) -> Option<Seq<UserView>> {
    if forall|i: int| 0 <= i < MAX_USERS ==> #[trigger] user_record_ok(user_slot(block, i)) {
        Some(Seq::new(MAX_USERS as nat, |i: int| user_from_record(user_slot(block, i))))
    } else {
        None
    }
}

/// Offset of `head` in the history block.
pub open spec fn history_head_at() -> int {
    (MAX_HISTORY * message_record_len()) as int
}

/// The slot of the `i`-th oldest message.
pub open spec fn history_slot_of(head: nat, i: int) -> int {
    (head + i) % (MAX_HISTORY as int)
}

/// The stored `head`, reduced to a slot as the ring buffer reduces it.
pub open spec fn stored_head(block: Seq<u8>) -> nat {
    field_word(block, history_head_at()) % (MAX_HISTORY as nat)
}

/// The stored `tail`.
pub open spec fn stored_tail(block: Seq<u8>) -> nat {
    field_word(block, history_head_at() + word())
}

/// The history a history block holds (its slots, the slot of the oldest
/// message, the slot the next message goes to, and the messages oldest
/// first), when `count` is within capacity, `tail` is a slot, every live
/// slot's content length is valid, and, unless `tail` is the slot after the
/// newest message, every slot's is.
pub open spec fn decode_history(block: Seq<u8>) -> Option<
    (Seq<Option<MessageView>>, nat, nat, Seq<MessageView>),
> {
    let head = stored_head(block);
    let tail = stored_tail(block);
    let count = field_word(block, history_head_at() + 2 * word());
    if count <= MAX_HISTORY && tail < MAX_HISTORY && (forall|i: int|
        0 <= i < count ==> #[trigger] message_record_ok(
            message_slot(block, history_slot_of(head, i)),
        )) && (ring_aligned(head, tail, count, MAX_HISTORY as nat) || forall|j: int|
        0 <= j < MAX_HISTORY ==> #[trigger] message_record_ok(message_slot(block, j))) {
        Some(
            (
                Seq::new(
                    MAX_HISTORY as nat,
                    |j: int| slot_from_record(message_slot(block, j)),
                ),
                head,
                tail,
                Seq::new(
                    count as nat,
                    |i: int| message_from_record(message_slot(block, history_slot_of(head, i))),
                ),
            ),
        )
    } else {
        None
    }
}

/// Whether an image starts with the magic and the supported version.
pub open spec fn header_ok(m: Seq<u8>) -> bool {
    m[0] == 69u8 && m[1] == 77u8 && m[2] == 66u8 && m[3] == 85u8 && m[4] == 1u8
}

/// The state an image of exactly `image_len()` bytes holds, when its
/// header, CRC and records are valid.
pub open spec fn decode_exact(m: Seq<u8>) -> Option<PersistedView> {
    let body_end = (image_len() - CRC_LEN) as int;
    let users_at = HEADER_LEN as int;
    let history_at = (HEADER_LEN + users_block_len()) as int;
    if !header_ok(m) || field_u32(m, body_end) != crc32(m.subrange(0, body_end)) {
        None
    } else {
        match (
            decode_users(m.subrange(users_at, history_at)),
            decode_history(m.subrange(history_at, body_end)),
        ) {
            (Some(us), Some((slots, head, tail, hs))) => Some(
                PersistedView {
                    boot_epoch: field_u32(m, 5),
                    users: us,
                    slots,
                    head,
                    tail,
                    history: hs,
                },
            ),
            _ => None,
        }
    }
}

/// The state a medium holds in its first `image_len()` bytes, if any.
pub open spec fn decode_image(m: Seq<u8>) -> Option<PersistedView> {
    if m.len() < image_len() {
        None
    } else {
        decode_exact(m.subrange(0, image_len() as int))
    }
}

/// `p` with each slot that was never written holding the message it is
/// stored as; loading an image gives back this form.
pub open spec fn normalized(p: PersistedView) -> PersistedView {
    PersistedView {
        slots: p.slots.map_values(|s: Option<MessageView>| Some(slot_message(s))),
        ..p
    }
}

/// The slots of `ss` with each slot that was never written holding the
/// message it is stored as.
pub open spec fn normal_slots(ss: Seq<Option<MessageView>>) -> Seq<Option<MessageView>> {
    ss.map_values(|s: Option<MessageView>| Some(slot_message(s)))
}

/// A stored word is `word()` bytes long.
proof fn lemma_word_bytes_len(x: nat)
    ensures
        word_bytes(x).len() == word(),
{
    vstd::bytes::lemma_auto_spec_u64_to_from_le_bytes();
    vstd::bytes::lemma_auto_spec_u32_to_from_le_bytes();
    if word() == 8 {
        assert(spec_u64_to_le_bytes(x as u64).len() == 8);
    } else {
        assert(spec_u32_to_le_bytes(x as u32).len() == 4);
    }
}

/// A word stored at `at` is read back.
proof fn lemma_field_word(s: Seq<u8>, at: int, x: nat)
    requires
        x <= 0xFFFF_FFFF,
        0 <= at,
        at + word() <= s.len(),
        s.subrange(at, at + word()) == word_bytes(x),
    ensures
        field_word(s, at) == x,
{
    vstd::bytes::lemma_auto_spec_u64_to_from_le_bytes();
    vstd::bytes::lemma_auto_spec_u32_to_from_le_bytes();
    if word() == 8 {
        assert(s.subrange(at, at + 8) == spec_u64_to_le_bytes(x as u64));
    } else {
        assert(s.subrange(at, at + 4) == spec_u32_to_le_bytes(x as u32));
    }
}

/// A word read from the bytes it occupies is the word read in place.
proof fn lemma_field_word_at(s: Seq<u8>, at: int, t: Seq<u8>)
    requires
        0 <= at,
        at + word() <= s.len(),
        t == s.subrange(at, at + word()),
    ensures
        field_word(t, 0) == field_word(s, at),
{
    if word() == 8 {
        assert(t.subrange(0, 8) =~= s.subrange(at, at + 8));
    } else {
        assert(t.subrange(0, 4) =~= s.subrange(at, at + 4));
    }
}

/// Record `i` of `n` records of `len` bytes lies inside the block.
proof fn lemma_slot_at(len: int, i: int, n: int)
    by (nonlinear_arith)
    requires
        0 <= i < n,
        0 <= len,
    ensures
        0 <= len * i,
        len * i + len <= len * n,
        len * (i + 1) == len * i + len,
{
}

/// A bounded string's buffer and length are read back from its stored
/// form.
proof fn lemma_fixed_field(buffer: Seq<u8>, len: nat, cap: nat)
    requires
        buffer.len() == cap,
        len <= cap <= 256,
    ensures
        fixed_field(buffer, len).len() == cap + word(),
        fixed_field(buffer, len).subrange(0, cap as int) == buffer,
        field_word(fixed_field(buffer, len), cap as int) == len,
        fixed_content(fixed_field(buffer, len), 0, cap as int) == buffer.subrange(0, len as int),
{
    lemma_word_bytes_len(len);
    let f = fixed_field(buffer, len);
    assert(f.subrange(cap as int, cap + word() as int) =~= word_bytes(len));
    lemma_field_word(f, cap as int, len);
    assert(f.subrange(0, cap as int) =~= buffer);
    assert(f.subrange(0, len as int) =~= buffer.subrange(0, len as int));
}

/// A well-formed user is read back from its record.
proof fn lemma_user_record(u: UserView)
    requires
        user_wf(u),
    ensures
        user_record(u).len() == user_record_len(),
        user_record_ok(user_record(u)),
        user_from_record(user_record(u)) == u,
{
    vstd::bytes::lemma_auto_spec_u16_to_from_le_bytes();
    lemma_word_bytes_len(u.name.len());
    let w = word() as int;
    let r = user_record(u);
    assert(r.subrange(0, 2) =~= spec_u16_to_le_bytes(u.id));
    assert(r.subrange(w + 32, 2 * w + 32) =~= word_bytes(u.name.len()));
    lemma_field_word(r, w + 32, u.name.len());
    assert(r.subrange(w, w + 32) =~= u.name_buffer);
    assert(r.subrange(w, w + u.name.len()) =~= u.name_buffer.subrange(0, u.name.len() as int));
    assert(user_from_record(r).name =~= u.name);
    assert(user_from_record(r).name_buffer =~= u.name_buffer);
}

/// A well-formed message is read back from its record.
proof fn lemma_message_record(m: MessageView)
    requires
        message_wf(m),
    ensures
        message_record(m).len() == message_record_len(),
        message_record_ok(message_record(m)),
        message_from_record(message_record(m)) == m,
{
    vstd::bytes::lemma_auto_spec_u16_to_from_le_bytes();
    vstd::bytes::lemma_auto_spec_u32_to_from_le_bytes();
    lemma_word_bytes_len(m.content.len());
    let w = word() as int;
    let r = message_record(m);
    assert(r.subrange(0, 2) =~= spec_u16_to_le_bytes(m.user_id));
    assert(r.subrange(2, 4) =~= spec_u16_to_le_bytes(m.padding));
    assert(r.subrange(4, 8) =~= spec_u32_to_le_bytes(m.tick));
    assert(r.subrange(264, 264 + w) =~= word_bytes(m.content.len()));
    lemma_field_word(r, 264, m.content.len());
    assert(r.subrange(8, 264) =~= m.content_buffer);
    assert(r.subrange(8, 8 + m.content.len() as int) =~= m.content_buffer.subrange(
        0,
        m.content.len() as int,
    ));
    assert(message_from_record(r).content =~= m.content);
    assert(message_from_record(r).content_buffer =~= m.content_buffer);
}

/// The message a slot is stored as is well-formed.
proof fn lemma_slot_message(s: Option<MessageView>)
    requires
        slot_wf(s),
    ensures
        message_wf(slot_message(s)),
{
    assert(zero_message().content =~= zero_message().content_buffer.subrange(0, 0));
}

/// The user block is the records side by side.
proof fn lemma_user_records(us: Seq<UserView>)
    requires
        forall|i: int| 0 <= i < us.len() ==> #[trigger] user_wf(us[i]),
    ensures
        user_records(us).len() == user_record_len() * us.len(),
        forall|i: int| 0 <= i < us.len() ==> #[trigger] user_slot(user_records(us), i) == user_record(us[i]),
    decreases us.len(),
{
    if us.len() > 0 {
        let rl = user_record_len() as int;
        let n = us.len() as int;
        let prefix = us.drop_last();
        assert(forall|i: int| 0 <= i < prefix.len() ==> #[trigger] prefix[i] == us[i]);
        lemma_user_records(prefix);
        lemma_user_record(us.last());
        lemma_slot_at(rl, n - 1, n);
        let a = user_records(prefix);
        let all = user_records(us);
        assert forall|i: int| 0 <= i < us.len() implies #[trigger] user_slot(all, i) == user_record(us[i]) by {
            if i < n - 1 {
                lemma_slot_at(rl, i, n - 1);
                assert(user_slot(all, i) =~= user_slot(a, i));
                assert(prefix[i] == us[i]);
            } else {
                assert(user_slot(all, i) =~= user_record(us.last()));
            }
        }
    }
}

/// The slot records are side by side.
proof fn lemma_slot_records(ss: Seq<Option<MessageView>>)
    requires
        forall|j: int| 0 <= j < ss.len() ==> #[trigger] slot_wf(ss[j]),
    ensures
        slot_records(ss).len() == message_record_len() * ss.len(),
        forall|j: int|
            0 <= j < ss.len() ==> #[trigger] message_slot(slot_records(ss), j) == message_record(
                slot_message(ss[j]),
            ),
    decreases ss.len(),
{
    if ss.len() > 0 {
        let rl = message_record_len() as int;
        let n = ss.len() as int;
        let prefix = ss.drop_last();
        assert(forall|j: int| 0 <= j < prefix.len() ==> #[trigger] prefix[j] == ss[j]);
        lemma_slot_records(prefix);
        lemma_slot_message(ss.last());
        lemma_message_record(slot_message(ss.last()));
        lemma_slot_at(rl, n - 1, n);
        let a = slot_records(prefix);
        let all = slot_records(ss);
        assert forall|j: int| 0 <= j < ss.len() implies #[trigger] message_slot(all, j)
            == message_record(slot_message(ss[j])) by {
            if j < n - 1 {
                lemma_slot_at(rl, j, n - 1);
                assert(message_slot(all, j) =~= message_slot(a, j));
                assert(prefix[j] == ss[j]);
            } else {
                assert(message_slot(all, j) =~= message_record(slot_message(ss.last())));
            }
        }
    }
}

/// Storing a slot that was never written as the message it is stored as
/// changes no byte.
proof fn lemma_slot_records_normal(ss: Seq<Option<MessageView>>)
    ensures
        slot_records(normal_slots(ss)) == slot_records(ss),
    decreases ss.len(),
{
    if ss.len() > 0 {
        assert(normal_slots(ss).drop_last() =~= normal_slots(ss.drop_last()));
        lemma_slot_records_normal(ss.drop_last());
    }
}

/// The history block of a well-formed layout reads back as that layout.
proof fn lemma_history_block(
    slots: Seq<Option<MessageView>>,
    head: nat,
    tail: nat,
    items: Seq<MessageView>,
)
    requires
        ring_wf(slots, head, tail, items, MAX_HISTORY as nat),
        forall|j: int| 0 <= j < slots.len() ==> #[trigger] slot_wf(slots[j]),
    ensures
        history_block(slots, head, tail, items.len()).len() == history_block_len(),
        decode_history(history_block(slots, head, tail, items.len())) == Some(
            (normal_slots(slots), head, tail, items),
        ),
{
    lemma_slot_records(slots);
    lemma_word_bytes_len(head);
    lemma_word_bytes_len(tail);
    lemma_word_bytes_len(items.len());
    let b = history_block(slots, head, tail, items.len());
    let recs = slot_records(slots);
    let w = word() as int;
    let at = history_head_at();
    assert(recs.len() == at);
    assert(b.subrange(at, at + w) =~= word_bytes(head));
    assert(b.subrange(at + w, at + 2 * w) =~= word_bytes(tail));
    assert(b.subrange(at + 2 * w, at + 3 * w) =~= word_bytes(items.len()));
    lemma_field_word(b, at, head);
    lemma_field_word(b, at + w, tail);
    lemma_field_word(b, at + 2 * w, items.len());
    assert(stored_tail(b) == tail);
    vstd::arithmetic::div_mod::lemma_small_mod(head, MAX_HISTORY as nat);
    assert(stored_head(b) == head);
    assert forall|j: int| 0 <= j < MAX_HISTORY implies #[trigger] message_slot(b, j)
        == message_record(slot_message(slots[j])) by {
        lemma_slot_at(message_record_len() as int, j, MAX_HISTORY as int);
        assert(message_slot(b, j) =~= message_slot(recs, j));
    }
    assert forall|j: int| 0 <= j < MAX_HISTORY implies #[trigger] message_record_ok(
        message_slot(b, j),
    ) by {
        assert(message_slot(b, j) == message_record(slot_message(slots[j])));
        lemma_slot_message(slots[j]);
        lemma_message_record(slot_message(slots[j]));
    }
    assert forall|i: int| 0 <= i < items.len() implies #[trigger] message_record_ok(
        message_slot(b, history_slot_of(head, i)),
    ) && message_from_record(message_slot(b, history_slot_of(head, i))) == items[i] by {
        let j = history_slot_of(head, i);
        assert(slots[j] == Some(items[i]));
        assert(slot_wf(slots[j]));
        assert(message_slot(b, j) == message_record(slot_message(slots[j])));
        lemma_message_record(items[i]);
    }
    let (ds, dh, dt, di) = decode_history(b).unwrap();
    assert forall|j: int| 0 <= j < MAX_HISTORY implies ds[j] == normal_slots(slots)[j] by {
        lemma_slot_message(slots[j]);
        lemma_message_record(slot_message(slots[j]));
    }
    assert(ds =~= normal_slots(slots));
    assert forall|i: int| 0 <= i < items.len() implies di[i] == items[i] by {
        assert(message_record_ok(message_slot(b, history_slot_of(head, i))));
    }
    assert(di =~= items);
}

/// The user block of a full registry reads back as that registry.
proof fn lemma_users_block(us: Seq<UserView>)
    requires
        us.len() == MAX_USERS,
        forall|i: int| 0 <= i < us.len() ==> #[trigger] user_wf(us[i]),
    ensures
        user_records(us).len() == users_block_len(),
        decode_users(user_records(us)) == Some(us),
{
    lemma_user_records(us);
    let b = user_records(us);
    assert forall|i: int| 0 <= i < MAX_USERS implies #[trigger] user_record_ok(user_slot(b, i)) by {
        lemma_user_record(us[i]);
    }
    let decoded = decode_users(b).unwrap();
    assert forall|i: int| 0 <= i < MAX_USERS implies decoded[i] == us[i] by {
        lemma_user_record(us[i]);
    }
    assert(decoded =~= us);
}

/// Loading gives back what was stored: the image of a persistable state is
/// `image_len()` bytes long and decodes to that state, its never-written
/// slots holding the message they are stored as; that form is persistable
/// too and is stored as the very same bytes.
pub proof fn lemma_image_roundtrip(p: PersistedView)
    requires
        persisted_wf(p),
    ensures
        image(p).len() == image_len(),
        decode_image(image(p)) == Some(normalized(p)),
        persisted_wf(normalized(p)),
        image(normalized(p)) == image(p),
{
    vstd::bytes::lemma_auto_spec_u32_to_from_le_bytes();
    lemma_users_block(p.users);
    lemma_history_block(p.slots, p.head, p.tail, p.history);
    lemma_slot_records_normal(p.slots);
    let body = image_body(p);
    let m = image(p);
    let body_end = (image_len() - CRC_LEN) as int;
    let history_at = (HEADER_LEN + users_block_len()) as int;
    let h = header_bytes(p.boot_epoch);
    assert(body.len() == body_end);
    assert(m.subrange(0, image_len() as int) =~= m);
    assert(m.subrange(0, body_end) =~= body);
    assert(m.subrange(body_end, body_end + 4) =~= spec_u32_to_le_bytes(crc32(body)));
    assert(m.subrange(5, 9) =~= spec_u32_to_le_bytes(p.boot_epoch));
    assert(m.subrange(HEADER_LEN as int, history_at) =~= user_records(p.users));
    assert(m.subrange(history_at, body_end) =~= history_block(
        p.slots,
        p.head,
        p.tail,
        p.history.len(),
    ));
    assert(m[0] == h[0] && m[1] == h[1] && m[2] == h[2] && m[3] == h[3] && m[4] == h[4]);
    assert(decode_exact(m) =~= Some(normalized(p)));
    let q = normalized(p);
    assert forall|j: int| 0 <= j < q.slots.len() implies #[trigger] slot_wf(q.slots[j]) by {
        lemma_slot_message(p.slots[j]);
    }
    assert forall|i: int| 0 <= i < q.history.len() implies #[trigger] q.slots[(q.head + i) % (
    MAX_HISTORY as int)] == Some(q.history[i]) by {
        assert(p.slots[(p.head + i) % (MAX_HISTORY as int)] == Some(p.history[i]));
    }
    assert forall|j: int| 0 <= j < MAX_HISTORY implies (#[trigger] q.slots[j]) is Some by {}
    assert(image_body(q) =~= image_body(p));
}

/// Reading back what was written: once the image of a persistable state is
/// written at offset 0 of any medium, the medium holds that state.
pub proof fn lemma_write_then_decode(p: PersistedView, before: Seq<u8>, after: Seq<u8>)
    requires
        persisted_wf(p),
        wrote(before, after, 0, image(p)),
    ensures
        decode_image(after) == Some(normalized(p)),
{
    lemma_image_roundtrip(p);
    assert(after.subrange(0, image_len() as int) =~= image(p));
    assert(image(p).subrange(0, image_len() as int) =~= image(p));
}

/// Appends `bytes` to `out`.
pub(crate) fn push_bytes(out: &mut Vec<u8>, bytes: &[u8])
    ensures
        final(out)@ == old(out)@ + bytes@,
{
    let mut i: usize = 0;
    while i < bytes.len()
        invariant
            i <= bytes@.len(),
            out@ == old(out)@ + bytes@.take(i as int),
        decreases bytes@.len() - i,
    {
        out.push(bytes[i]);
        proof {
            assert(bytes@.take(i + 1) =~= bytes@.take(i as int).push(bytes@[i as int]));
        }
        i = i + 1;
    }
    assert(bytes@.take(bytes@.len() as int) =~= bytes@);
}

/// Appends `n` zero bytes to `out`.
fn push_zeros(out: &mut Vec<u8>, n: usize)
    ensures
        final(out)@ == old(out)@ + zeros(n as nat),
{
    let mut k: usize = 0;
    while k < n
        invariant
            k <= n,
            out@ == old(out)@ + zeros(k as nat),
        decreases n - k,
    {
        out.push(0u8);
        proof {
            assert(zeros((k + 1) as nat) =~= zeros(k as nat).push(0u8));
        }
        k = k + 1;
    }
}

/// Appends `x` as the target stores a `usize`.
fn push_word(out: &mut Vec<u8>, x: usize)
    requires
        x <= 0xFFFF_FFFF,
    ensures
        final(out)@ == old(out)@ + word_bytes(x as nat),
{
    if usize::BITS == 64 {
        push_bytes(out, vstd::bytes::u64_to_le_bytes(x as u64).as_slice());
    } else {
        push_bytes(out, vstd::bytes::u32_to_le_bytes(x as u32).as_slice());
    }
}

/// The `usize` that `bytes` store, as the target stores it.
fn read_word(bytes: &[u8]) -> (r: u64)
    requires
        bytes@.len() == word(),
    ensures
        r == field_word(bytes@, 0),
{
    if usize::BITS == 64 {
        assert(bytes@.subrange(0, 8) =~= bytes@);
        vstd::bytes::u64_from_le_bytes(bytes)
    } else {
        assert(bytes@.subrange(0, 4) =~= bytes@);
        vstd::bytes::u32_from_le_bytes(bytes) as u64
    }
}

/// Appends a bounded string as it lies: its whole buffer, then its length.
fn push_fixed<const N: usize>(out: &mut Vec<u8>, s: &FixedString<N>)
    requires
        N <= 256,
    ensures
        final(out)@ == old(out)@ + fixed_field(s.raw(), s@.len()),
        final(out)@.len() == old(out)@.len() + N + word(),
{
    proof {
        lemma_fixed_string_len(*s);
        lemma_word_bytes_len(s@.len());
    }
    let ghost start = out@;
    let len = s.len();
    push_bytes(out, s.buffer_bytes());
    push_word(out, len);
    assert(out@ =~= start + fixed_field(s.raw(), s@.len()));
}

/// The header for `boot_epoch`.
pub(crate) fn encode_header(boot_epoch: u32) -> (out: Vec<u8>)
    ensures
        out@ == header_bytes(boot_epoch),
        out@.len() == HEADER_LEN,
{
    let mut out: Vec<u8> = Vec::new();
    out.push(69u8);
    out.push(77u8);
    out.push(66u8);
    out.push(85u8);
    out.push(1u8);
    let epoch = vstd::bytes::u32_to_le_bytes(boot_epoch);
    push_bytes(&mut out, epoch.as_slice());
    proof {
        vstd::bytes::lemma_auto_spec_u32_to_from_le_bytes();
    }
    assert(out@ =~= header_bytes(boot_epoch));
    out
}

/// The user block of a registry.
pub(crate) fn encode_users(users: &[User; MAX_USERS]) -> (out: Vec<u8>)
    ensures
        out@ == user_records(user_views(users@)),
        out@.len() == users_block_len(),
{
    proof {
        lemma_word();
    }
    let ghost views = user_views(users@);
    let mut out: Vec<u8> = Vec::new();
    let mut i: usize = 0;
    let pad = word_size() - 4;
    assert(views.take(0) =~= Seq::<UserView>::empty());
    while i < MAX_USERS
        invariant
            i <= MAX_USERS,
            pad == word() - 4,
            views == user_views(users@),
            views.len() == MAX_USERS,
            out@ == user_records(views.take(i as int)),
            out@.len() == user_record_len() * i,
        decreases MAX_USERS - i,
    {
        let user = &users[i];
        let ghost before = out@;
        let id = vstd::bytes::u16_to_le_bytes(user.id);
        push_bytes(&mut out, id.as_slice());
        proof {
            vstd::bytes::lemma_auto_spec_u16_to_from_le_bytes();
            lemma_slot_at(user_record_len() as int, i as int, MAX_USERS as int);
        }
        out.push(user.status);
        out.push(user.padding);
        push_zeros(&mut out, pad);
        push_fixed(&mut out, &user.name);
        proof {
            assert(views[i as int] == user@);
            assert(views.take(i + 1).drop_last() =~= views.take(i as int));
            assert(out@ =~= before + user_record(views[i as int]));
        }
        i = i + 1;
    }
    assert(views.take(MAX_USERS as int) =~= views);
    assert(user_record_len() * i == user_record_len() * 256) by (nonlinear_arith)
        requires
            i == 256,
    ;
    out
}

/// Appends the record of `m`.
fn push_message(out: &mut Vec<u8>, m: &Message)
    ensures
        final(out)@ == old(out)@ + message_record(m@),
        final(out)@.len() == old(out)@.len() + message_record_len(),
{
    let ghost start = out@;
    let user_id = vstd::bytes::u16_to_le_bytes(m.user_id);
    push_bytes(out, user_id.as_slice());
    proof {
        vstd::bytes::lemma_auto_spec_u16_to_from_le_bytes();
        vstd::bytes::lemma_auto_spec_u32_to_from_le_bytes();
    }
    let padding = vstd::bytes::u16_to_le_bytes(m.padding);
    push_bytes(out, padding.as_slice());
    let tick = vstd::bytes::u32_to_le_bytes(m.tick);
    push_bytes(out, tick.as_slice());
    push_fixed(out, &m.content);
    assert(out@ =~= start + message_record(m@));
}

/// The history block of a message history: its slots as they lie, then
/// its head, tail and count.
pub(crate) fn encode_history(history: &RingBuffer<Message, MAX_HISTORY>) -> (out: Vec<u8>)
    ensures
        out@ == history_block(
            slot_views(history.slots()),
            history.head(),
            history.tail(),
            history@.len(),
        ),
        out@.len() == history_block_len(),
{
    proof {
        crate::types::lemma_ring_buffer_len(*history);
        lemma_word();
    }
    let ghost views = slot_views(history.slots());
    let zero = Message { user_id: 0, padding: 0, tick: 0, content: FixedString::new() };
    assert(zero@ =~= zero_message());
    let mut out: Vec<u8> = Vec::new();
    let mut j: usize = 0;
    assert(views.take(0) =~= Seq::<Option<MessageView>>::empty());
    while j < MAX_HISTORY
        invariant
            j <= MAX_HISTORY,
            views == slot_views(history.slots()),
            views.len() == MAX_HISTORY,
            zero@ == zero_message(),
            out@ == slot_records(views.take(j as int)),
            out@.len() == message_record_len() * j,
        decreases MAX_HISTORY - j,
    {
        let ghost before = out@;
        proof {
            lemma_slot_at(message_record_len() as int, j as int, MAX_HISTORY as int);
        }
        match history.slot(j) {
            Some(m) => push_message(&mut out, m),
            None => push_message(&mut out, &zero),
        }
        proof {
            assert(views.take(j + 1).drop_last() =~= views.take(j as int));
            assert(views.take(j + 1).last() == views[j as int]);
        }
        j = j + 1;
    }
    assert(views.take(MAX_HISTORY as int) =~= views);
    assert(message_record_len() * j == message_record_len() * 64) by (nonlinear_arith)
        requires
            j == 64,
    ;
    let head = history.head_index();
    let tail = history.tail_index();
    let count = history.len();
    push_word(&mut out, head);
    push_word(&mut out, tail);
    push_word(&mut out, count);
    proof {
        lemma_word_bytes_len(head as nat);
        lemma_word_bytes_len(tail as nat);
        lemma_word_bytes_len(count as nat);
    }
    assert(out@ =~= history_block(views, history.head(), history.tail(), history@.len()));
    out
}

/// Reads the bounded string whose `N`-byte buffer starts at `at`, its
/// length following the buffer, when the length is within capacity.
fn read_fixed<const N: usize>(record: &[u8], at: usize) -> (r: Option<FixedString<N>>)
    requires
        N <= 256,
        record@.len() <= 272,
        at + N + word() <= record@.len(),
    ensures
        r is Some <==> field_word(record@, at + N) <= N,
        r matches Some(s) ==> s@ == fixed_content(record@, at as int, N as int) && s.raw()
            == record@.subrange(at as int, at + N),
{
    let w = word_size();
    let len_field = vstd::slice::slice_subrange(record, at + N, at + N + w);
    let len = read_word(len_field);
    proof {
        lemma_field_word_at(record@, at + N, len_field@);
    }
    if len > N as u64 {
        return None;
    }
    let buffer = vstd::slice::slice_subrange(record, at, at + N);
    let s = FixedString::<N>::from_raw(buffer, len as usize);
    assert(s@ =~= fixed_content(record@, at as int, N as int));
    Some(s)
}

/// The registry a user block holds, exactly when `decode_users` accepts it.
pub(crate) fn decode_users_block(block: &[u8]) -> (r: Option<[User; MAX_USERS]>)
    requires
        block@.len() == users_block_len(),
    ensures
        r is Some <==> decode_users(block@) is Some,
        r matches Some(us) ==> decode_users(block@) == Some(user_views(us@)),
{
    proof {
        lemma_word();
    }
    let empty_user = User { id: 0, status: 1, padding: 0, name: FixedString::new() };
    let mut users = [empty_user; MAX_USERS];
    let rl = user_record_size();
    let w = word_size();
    let mut i: usize = 0;
    while i < MAX_USERS
        invariant
            i <= MAX_USERS,
            rl == user_record_len(),
            w == word(),
            block@.len() == users_block_len(),
            forall|k: int| 0 <= k < i ==> #[trigger] user_record_ok(user_slot(block@, k)),
            forall|k: int|
                0 <= k < i ==> #[trigger] users@[k]@ == user_from_record(user_slot(block@, k)),
        decreases MAX_USERS - i,
    {
        proof {
            lemma_word();
            lemma_slot_at(rl as int, i as int, MAX_USERS as int);
        }
        let at = rl * i;
        let record = vstd::slice::slice_subrange(block, at, at + rl);
        assert(record@ == user_slot(block@, i as int));
        let name = match read_fixed::<32>(record, w) {
            Some(name) => name,
            None => {
                assert(!user_record_ok(user_slot(block@, i as int)));
                return None;
            },
        };
        let id = vstd::bytes::u16_from_le_bytes(vstd::slice::slice_subrange(record, 0, 2));
        let user = User { id, status: record[2], padding: record[3], name };
        users[i] = user;
        assert(users@[i as int]@ =~= user_from_record(user_slot(block@, i as int)));
        i = i + 1;
    }
    assert(user_views(users@) =~= decode_users(block@).unwrap());
    Some(users)
}

/// The message a record holds, when its content length is within capacity.
fn decode_message(record: &[u8]) -> (r: Option<Message>)
    requires
        record@.len() == message_record_len(),
    ensures
        r is Some <==> message_record_ok(record@),
        r matches Some(m) ==> m@ == message_from_record(record@),
{
    proof {
        lemma_word();
    }
    let content = match read_fixed::<256>(record, 8) {
        Some(content) => content,
        None => {
            return None;
        },
    };
    let user_id = vstd::bytes::u16_from_le_bytes(vstd::slice::slice_subrange(record, 0, 2));
    let padding = vstd::bytes::u16_from_le_bytes(vstd::slice::slice_subrange(record, 2, 4));
    let tick = vstd::bytes::u32_from_le_bytes(vstd::slice::slice_subrange(record, 4, 8));
    let message = Message { user_id, padding, tick, content };
    assert(message@ =~= message_from_record(record@));
    Some(message)
}

/// The history a history block holds, exactly when `decode_history`
/// accepts it.
pub(crate) fn decode_history_block(block: &[u8]) -> (r: Option<RingBuffer<Message, MAX_HISTORY>>)
    requires
        block@.len() == history_block_len(),
    ensures
        r is Some <==> decode_history(block@) is Some,
        r matches Some(h) ==> decode_history(block@) == Some(
            (slot_views(h.slots()), h.head(), h.tail(), message_views(h@)),
        ),
{
    proof {
        lemma_word();
    }
    let rl = message_record_size();
    let w = word_size();
    let head_at = MAX_HISTORY * rl;
    let head_field = vstd::slice::slice_subrange(block, head_at, head_at + w);
    let tail_field = vstd::slice::slice_subrange(block, head_at + w, head_at + 2 * w);
    let count_field = vstd::slice::slice_subrange(block, head_at + 2 * w, head_at + 3 * w);
    let stored = read_word(head_field);
    let stored_tail_value = read_word(tail_field);
    let count = read_word(count_field);
    proof {
        lemma_field_word_at(block@, history_head_at(), head_field@);
        lemma_field_word_at(block@, history_head_at() + word(), tail_field@);
        lemma_field_word_at(block@, history_head_at() + 2 * word(), count_field@);
    }
    if count > MAX_HISTORY as u64 || stored_tail_value >= MAX_HISTORY as u64 {
        return None;
    }
    let head = (stored % (MAX_HISTORY as u64)) as usize;
    let tail = stored_tail_value as usize;
    let count = count as usize;
    assert(tail == stored_tail(block@));
    assert(head == stored_head(block@));
    let mut slots: Vec<Option<Message>> = Vec::new();
    let mut j: usize = 0;
    while j < MAX_HISTORY
        invariant
            j <= MAX_HISTORY,
            rl == message_record_len(),
            block@.len() == history_block_len(),
            slots@.len() == j,
            forall|k: int|
                0 <= k < j ==> #[trigger] crate::types::slot_view(slots@[k]) == slot_from_record(
                    message_slot(block@, k),
                ),
        decreases MAX_HISTORY - j,
    {
        proof {
            lemma_word();
            lemma_slot_at(rl as int, j as int, MAX_HISTORY as int);
        }
        let at = rl * j;
        let record = vstd::slice::slice_subrange(block, at, at + rl);
        assert(record@ == message_slot(block@, j as int));
        slots.push(decode_message(record));
        j = j + 1;
    }
    let mut i: usize = 0;
    while i < count
        invariant
            i <= count <= MAX_HISTORY,
            head < MAX_HISTORY,
            head == stored_head(block@),
            count == field_word(block@, history_head_at() + 2 * word()),
            block@.len() == history_block_len(),
            slots@.len() == MAX_HISTORY,
            forall|k: int|
                0 <= k < MAX_HISTORY ==> #[trigger] crate::types::slot_view(slots@[k])
                    == slot_from_record(message_slot(block@, k)),
            forall|k: int|
                0 <= k < i ==> (#[trigger] slots@[(head + k) % (MAX_HISTORY as int)]) is Some,
        decreases count - i,
    {
        let sum = head + i;
        let slot = if sum >= MAX_HISTORY { sum - MAX_HISTORY } else { sum };
        proof {
            lemma_mod_wrap(sum as int, MAX_HISTORY as int);
        }
        assert(crate::types::slot_view(slots@[slot as int]) == slot_from_record(
            message_slot(block@, slot as int),
        ));
        if slots[slot].is_none() {
            assert(slot as int == history_slot_of(head as nat, i as int));
            assert(!message_record_ok(message_slot(block@, history_slot_of(head as nat, i as int))));
            return None;
        }
        assert(slots@[(head + i) % (MAX_HISTORY as int)] is Some);
        i = i + 1;
    }
    let next = head + count;
    let aligned = tail == if next >= MAX_HISTORY { next - MAX_HISTORY } else { next };
    proof {
        lemma_mod_wrap(next as int, MAX_HISTORY as int);
    }
    assert(aligned == ring_aligned(head as nat, tail as nat, count as nat, MAX_HISTORY as nat));
    if !aligned {
        let mut k: usize = 0;
        while k < MAX_HISTORY
            invariant
                k <= MAX_HISTORY,
                slots@.len() == MAX_HISTORY,
                head == stored_head(block@),
                tail == stored_tail(block@),
                count == field_word(block@, history_head_at() + 2 * word()),
                count <= MAX_HISTORY,
                tail < MAX_HISTORY,
                block@.len() == history_block_len(),
                !ring_aligned(head as nat, tail as nat, count as nat, MAX_HISTORY as nat),
                forall|j: int|
                    0 <= j < MAX_HISTORY ==> #[trigger] crate::types::slot_view(slots@[j])
                        == slot_from_record(message_slot(block@, j)),
                forall|j: int| 0 <= j < k ==> (#[trigger] slots@[j]) is Some,
            decreases MAX_HISTORY - k,
        {
            assert(crate::types::slot_view(slots@[k as int]) == slot_from_record(
                message_slot(block@, k as int),
            ));
            if slots[k].is_none() {
                assert(!message_record_ok(message_slot(block@, k as int)));
                return None;
            }
            k = k + 1;
        }
    }
    let ghost slot_seq = slots@;
    let history = RingBuffer::<Message, MAX_HISTORY>::from_parts(slots, head, tail, count);
    proof {
        assert forall|k: int| 0 <= k < count implies #[trigger] message_record_ok(
            message_slot(block@, history_slot_of(head as nat, k)),
        ) by {
            let s = (head + k) % (MAX_HISTORY as int);
            assert(slot_seq[s] is Some);
            assert(crate::types::slot_view(slot_seq[s]) == slot_from_record(message_slot(block@, s)));
        }
        if !aligned {
            assert forall|j: int| 0 <= j < MAX_HISTORY implies #[trigger] message_record_ok(
                message_slot(block@, j),
            ) by {
                assert(slot_seq[j] is Some);
                assert(crate::types::slot_view(slot_seq[j]) == slot_from_record(message_slot(block@, j)));
            }
        }
        let (ds, dh, dt, di) = decode_history(block@).unwrap();
        assert forall|k: int| 0 <= k < MAX_HISTORY implies ds[k] == slot_views(history.slots())[k] by {
            assert(crate::types::slot_view(slot_seq[k]) == slot_from_record(message_slot(block@, k)));
        }
        assert(ds =~= slot_views(history.slots()));
        assert forall|k: int| 0 <= k < count implies di[k] == message_views(history@)[k] by {
            let s = (head + k) % (MAX_HISTORY as int);
            assert(crate::types::slot_view(slot_seq[s]) == slot_from_record(message_slot(block@, s)));
        }
        assert(di =~= message_views(history@));
    }
    Some(history)
}

} // verus!
