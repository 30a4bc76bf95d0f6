//! Fixed-capacity data structures: `FixedString`, `RingBuffer`, and the
//! `User` and `Message` records that the chat state is made of.
use vstd::prelude::*;
use vstd::string::StringSliceAdditionalSpecFns;

verus! {

/// The error `core::str::from_utf8` reports for bytes that are not UTF-8.
#[verifier::external_type_specification]
#[verifier::external_body]
pub struct ExUtf8Error(core::str::Utf8Error);

/// Interprets `bytes` as UTF-8 through `core::str::from_utf8`.
///
/// The standard library documents that the call succeeds exactly when the
/// bytes are valid UTF-8, and that the string it hands back is made of those
/// same bytes; the contract claims that and nothing more.
#[verifier::external_body]
fn str_from_utf8(bytes: &[u8]) -> (r: Result<&str, core::str::Utf8Error>)
    ensures
        r is Ok <==> vstd::utf8::valid_utf8(bytes@),
        r matches Ok(s) ==> s.spec_bytes() == bytes@,
{
    core::str::from_utf8(bytes)
}

/// Fixed-capacity byte string: at most `N` bytes, no heap.
#[derive(Clone, Copy)]
pub struct FixedString<const N: usize> {
    buffer: [u8; N],
    len: usize,
}

impl<const N: usize> FixedString<N> {
    #[verifier::type_invariant]
    spec fn length_within_capacity(self) -> bool {
        self.len <= N
    }
}

impl<const N: usize> View for FixedString<N> {
    type V = Seq<u8>;

    /// The bytes stored, oldest first.
    closed spec fn view(&self) -> Seq<u8> {
        self.buffer@.subrange(0, if self.len <= N { self.len as int } else { N as int })
    }
}

impl<const N: usize> FixedString<N> {
    /// The whole backing buffer, `N` bytes, including the bytes past the
    /// stored length that `clear` and `pop` leave in place.
    pub closed spec fn raw(&self) -> Seq<u8> {
        self.buffer@
    }
}

/// The stored bytes never exceed the capacity and are the front of the
/// backing buffer.
pub proof fn lemma_fixed_string_len<const N: usize>(s: FixedString<N>)
    ensures
        s@.len() <= N,
        s.raw().len() == N,
        s@ == s.raw().subrange(0, s@.len() as int),
{
}

impl<const N: usize> FixedString<N> {
    /// An empty string.
    pub fn new() -> (s: Self)
        ensures
            s@ == Seq::<u8>::empty(),
            s.raw() == Seq::new(N as nat, |i: int| 0u8),
    {
        let s = FixedString { buffer: [0u8; N], len: 0 };
        assert(s.raw() =~= Seq::new(N as nat, |i: int| 0u8));
        s
    }

    /// Appends `byte` if there is room; reports whether it did.
    pub fn push(&mut self, byte: u8) -> (pushed: bool)
        ensures
            pushed == (old(self)@.len() < N),
            pushed ==> final(self)@ == old(self)@.push(byte),
            pushed ==> final(self).raw() == old(self).raw().update(old(self)@.len() as int, byte),
            !pushed ==> final(self)@ == old(self)@ && final(self).raw() == old(self).raw(),
    {
        proof {
            use_type_invariant(&*self);
        }
        if self.len < N {
            let ghost before = self@;
            self.buffer[self.len] = byte;
            self.len = self.len + 1;
            assert(self@ =~= before.push(byte));
            true
        } else {
            false
        }
    }

    /// Number of bytes stored.
    pub fn len(&self) -> (n: usize)
        ensures
            n == self@.len(),
    {
        proof {
            use_type_invariant(self);
        }
        self.len
    }

    /// True when no byte is stored.
    pub fn is_empty(&self) -> (b: bool)
        ensures
            b == (self@.len() == 0),
    {
        proof {
            use_type_invariant(self);
        }
        self.len == 0
    }

    /// True when `N` bytes are stored.
    pub fn is_full(&self) -> (b: bool)
        ensures
            b == (self@.len() == N),
    {
        proof {
            use_type_invariant(self);
        }
        self.len == N
    }

    /// Forgets every stored byte.
    pub fn clear(&mut self)
        ensures
            final(self)@ == Seq::<u8>::empty(),
            final(self).raw() == old(self).raw(),
    {
        self.len = 0;
    }

    /// The stored bytes.
    pub fn as_bytes(&self) -> (b: &[u8])
        ensures
            b@ == self@,
    {
        proof {
            use_type_invariant(self);
        }
        vstd::slice::slice_subrange(self.buffer.as_slice(), 0, self.len)
    }

    /// A string over the backing buffer `bytes` that stores its first
    /// `len` bytes.
    pub(crate) fn from_raw(bytes: &[u8], len: usize) -> (s: Self)
        requires
            bytes@.len() == N,
            len <= N,
        ensures
            s.raw() == bytes@,
            s@ == bytes@.subrange(0, len as int),
    {
        let mut buffer = [0u8; N];
        let mut i: usize = 0;
        while i < N
            invariant
                i <= N,
                bytes@.len() == N,
                buffer@.len() == N,
                forall|k: int| 0 <= k < i ==> buffer@[k] == bytes@[k],
            decreases N - i,
        {
            buffer[i] = bytes[i];
            i = i + 1;
        }
        let s = FixedString { buffer, len };
        assert(s.raw() =~= bytes@);
        assert(s@ =~= bytes@.subrange(0, len as int));
        s
    }

    /// The whole backing buffer.
    pub(crate) fn buffer_bytes(&self) -> (b: &[u8])
        ensures
            b@ == self.raw(),
    {
        self.buffer.as_slice()
    }

    /// The stored bytes as text, when they are valid UTF-8.
    pub fn as_str(&self) -> (r: Result<&str, core::str::Utf8Error>)
        ensures
            r is Ok <==> vstd::utf8::valid_utf8(self@),
            r matches Ok(s) ==> s.spec_bytes() == self@,
    {
        str_from_utf8(self.as_bytes())
    }

    /// Removes and returns the last byte, if any.
    pub fn pop(&mut self) -> (r: Option<u8>)
        ensures
            old(self)@.len() == 0 ==> r is None && final(self)@ == old(self)@,
            old(self)@.len() > 0 ==> r == Some(old(self)@.last()) && final(self)@
                == old(self)@.drop_last(),
            final(self).raw() == old(self).raw(),
    {
        proof {
            use_type_invariant(&*self);
        }
        if self.len > 0 {
            let ghost before = self@;
            self.len = self.len - 1;
            assert(self@ =~= before.drop_last());
            Some(self.buffer[self.len])
        } else {
            None
        }
    }
}

impl<const N: usize> Default for FixedString<N> {
    fn default() -> (s: Self)
        ensures
            s@ == Seq::<u8>::empty(),
    {
        Self::new()
    }
}

/// Keeps the last `n` items of `s` (all of them when there are fewer).
pub open spec fn keep_last<T>(s: Seq<T>, n: nat) -> Seq<T> {
    if s.len() <= n {
        s
    } else {
        s.subrange(s.len() - n, s.len() as int)
    }
}

/// The items a buffer of capacity `n` that holds `start` holds once
/// `items` are pushed onto it, one after the other.
pub open spec fn pushed_all<T>(start: Seq<T>, items: Seq<T>, n: nat) -> Seq<T>
    decreases items.len(),
{
    if items.len() == 0 {
        start
    } else {
        keep_last(pushed_all(start, items.drop_last(), n).push(items.last()), n)
    }
}

/// Dropping the oldest items before a push keeps what the push keeps.
pub proof fn lemma_keep_last_push<T>(s: Seq<T>, x: T, n: nat)
    ensures
        keep_last(keep_last(s, n).push(x), n) == keep_last(s.push(x), n),
{
    if s.len() > n {
        let t = keep_last(s, n);
        assert(keep_last(t.push(x), n) =~= keep_last(s.push(x), n));
    }
}

/// A buffer of capacity `n` that starts empty holds, after `k` pushes, the
/// last `min(k, n)` items pushed, oldest first: it is empty exactly when
/// nothing was pushed and full exactly when at least `n` items were.
pub proof fn lemma_pushes_keep_last<T>(items: Seq<T>, n: nat)
    ensures
        pushed_all(Seq::empty(), items, n) == keep_last(items, n),
        pushed_all(Seq::empty(), items, n).len() == if items.len() <= n {
            items.len()
        } else {
            n
        },
    decreases items.len(),
{
    if items.len() > 0 {
        lemma_pushes_keep_last(items.drop_last(), n);
        lemma_keep_last_push(items.drop_last(), items.last(), n);
        assert(items.drop_last().push(items.last()) =~= items);
    }
}

/// Reduction modulo `n` of a number below `2 * n`.
pub(crate) proof fn lemma_mod_wrap(x: int, n: int)
    requires
        0 < n,
        0 <= x < 2 * n,
    ensures
        x % n == if x < n { x } else { x - n },
{
    if x < n {
        vstd::arithmetic::div_mod::lemma_small_mod(x as nat, n as nat);
    } else {
        vstd::arithmetic::div_mod::lemma_mod_sub_multiples_vanish(x, n);
        vstd::arithmetic::div_mod::lemma_small_mod((x - n) as nat, n as nat);
    }
}

/// How the slots of a ring buffer hold its items: `items[i]` sits in slot
/// `(head + i) % n`.
pub open spec fn ring_layout<T>(slots: Seq<Option<T>>, head: nat, items: Seq<T>, n: nat) -> bool {
    &&& slots.len() == n
    &&& items.len() <= n
    &&& n > 0 ==> head < n
    &&& forall|i: int| 0 <= i < items.len() ==> #[trigger] slots[(head + i) % (n as int)] == Some(items[i])
}

/// Whether the slot the next item goes to, `tail`, is the one after the
/// newest item.
pub open spec fn ring_aligned(head: nat, tail: nat, count: nat, n: nat) -> bool {
    tail == (head + count) % n
}

/// A ring buffer's layout, with a `tail` slot within range; when `tail`
/// is not the slot after the newest item, every slot holds an item.
pub open spec fn ring_wf<T>(
    slots: Seq<Option<T>>,
    head: nat,
    tail: nat,
    items: Seq<T>,
    n: nat,
) -> bool {
    &&& ring_layout(slots, head, items, n)
    &&& n > 0 ==> tail < n
    &&& !ring_aligned(head, tail, items.len(), n) ==> forall|j: int|
        0 <= j < n ==> (#[trigger] slots[j]) is Some
}

/// Circular queue of at most `N` items that overwrites the oldest item
/// when a push finds it full. Slot `tail` receives the next item; a slot
/// that was never written holds `None`.
pub struct RingBuffer<T, const N: usize> {
    buf: Vec<Option<T>>,
    at: RingCursor,
}

/// Where the oldest item sits, where the next one goes, and how many
/// there are.
#[derive(Clone, Copy)]
struct RingCursor {
    head: usize,
    tail: usize,
    count: usize,
}

impl<T, const N: usize> RingBuffer<T, N> {
    /// The `count` items from `head` on are stored, and `tail` is a slot;
    /// when `tail` does not follow the items, every slot is written.
    #[verifier::type_invariant]
    spec fn slots_consistent(self) -> bool {
        &&& self.buf.len() == N
        &&& self.at.count <= N
        &&& N > 0 ==> self.at.head < N && self.at.tail < N
        &&& N == 0 ==> self.at.head == 0 && self.at.tail == 0 && self.at.count == 0
        &&& forall|i: int|
            0 <= i < self.at.count ==> (#[trigger] self.buf@[(self.at.head + i) % (N as int)]) is Some
        &&& self.at.tail != (self.at.head + self.at.count) % (N as int) ==> forall|j: int|
            0 <= j < N ==> (#[trigger] self.buf@[j]) is Some
    }

    /// The `N` slots as they lie.
    pub closed spec fn slots(&self) -> Seq<Option<T>> {
        Seq::new(N as nat, |j: int| if j < self.buf@.len() { self.buf@[j] } else { None })
    }

    /// The slot of the oldest item.
    pub closed spec fn head(&self) -> nat {
        self.at.head as nat
    }

    /// The slot the next item goes to.
    pub closed spec fn tail(&self) -> nat {
        self.at.tail as nat
    }
}

impl<T, const N: usize> View for RingBuffer<T, N> {
    type V = Seq<T>;

    /// The items stored, oldest first.
    closed spec fn view(&self) -> Seq<T> {
        let n = if self.at.count <= N { self.at.count as nat } else { N as nat };
        Seq::new(n, |i: int| self.slots()[(self.at.head + i) % (N as int)].unwrap())
    }
}

/// A ring buffer never holds more than its capacity, and has as many
/// slots.
pub proof fn lemma_ring_buffer_len<T, const N: usize>(r: RingBuffer<T, N>)
    ensures
        r@.len() <= N,
        r.slots().len() == N,
{
}

impl<T, const N: usize> RingBuffer<T, N> {
    /// Facts that every operation leaves behind.
    proof fn lemma_layout(&self)
        requires
            self.slots_consistent(),
        ensures
            ring_wf(self.slots(), self.head(), self.tail(), self@, N as nat),
    {
        assert forall|i: int| 0 <= i < self@.len() implies #[trigger] self.slots()[(self.head() + i)
            % (N as int)] == Some(self@[i]) by {
            let j = (self.at.head + i) % (N as int);
            assert(self.buf@[j] is Some);
        }
        if !ring_aligned(self.head(), self.tail(), self@.len(), N as nat) {
            assert forall|j: int| 0 <= j < N implies (#[trigger] self.slots()[j]) is Some by {
                assert(self.buf@[j] is Some);
            }
        }
    }

    /// An empty buffer with every slot unwritten.
    pub fn new() -> (r: Self)
        ensures
            r@ == Seq::<T>::empty(),
            r.slots() == Seq::new(N as nat, |j: int| None::<T>),
            r.head() == 0,
            r.tail() == 0,
            ring_wf(r.slots(), r.head(), r.tail(), r@, N as nat),
    {
        let mut buf: Vec<Option<T>> = Vec::new();
        let mut j: usize = 0;
        while j < N
            invariant
                j <= N,
                buf@ == Seq::new(j as nat, |k: int| None::<T>),
            decreases N - j,
        {
            buf.push(None);
            assert(buf@ =~= Seq::new((j + 1) as nat, |k: int| None::<T>));
            j = j + 1;
        }
        proof {
            if N > 0 {
                lemma_mod_wrap(0, N as int);
            }
        }
        let r = RingBuffer { buf, at: RingCursor { head: 0, tail: 0, count: 0 } };
        assert(r@ =~= Seq::<T>::empty());
        assert(r.slots() =~= Seq::new(N as nat, |j: int| None::<T>));
        proof {
            r.lemma_layout();
        }
        r
    }

    /// Number of items stored.
    pub fn len(&self) -> (n: usize)
        ensures
            n == self@.len(),
            ring_wf(self.slots(), self.head(), self.tail(), self@, N as nat),
    {
        proof {
            use_type_invariant(self);
            self.lemma_layout();
        }
        self.at.count
    }

    /// True when no item is stored.
    pub fn is_empty(&self) -> (b: bool)
        ensures
            b == (self@.len() == 0),
    {
        proof {
            use_type_invariant(self);
        }
        self.at.count == 0
    }

    /// True when `N` items are stored.
    pub fn is_full(&self) -> (b: bool)
        ensures
            b == (self@.len() == N),
    {
        proof {
            use_type_invariant(self);
        }
        self.at.count == N
    }

    /// Writes `value` into slot `tail` and moves `tail` on; when the buffer
    /// is full the oldest item is dropped. When `tail` follows the newest
    /// item, as it does in every buffer that only `new` and `push` made,
    /// the buffer then holds the last `N` items pushed.
    pub fn push(&mut self, value: T)
        requires
            N > 0,
        ensures
            final(self).slots() == old(self).slots().update(old(self).tail() as int, Some(value)),
            final(self).tail() == (old(self).tail() + 1) % (N as nat),
            final(self).head() == if old(self)@.len() == N {
                (old(self).head() + 1) % (N as nat)
            } else {
                old(self).head()
            },
            final(self)@.len() == if old(self)@.len() == N {
                N as nat
            } else {
                old(self)@.len() + 1
            },
            ring_wf(final(self).slots(), final(self).head(), final(self).tail(), final(self)@, N as nat),
            ring_aligned(old(self).head(), old(self).tail(), old(self)@.len(), N as nat) ==> {
                &&& final(self)@ == keep_last(old(self)@.push(value), N as nat)
                &&& ring_aligned(final(self).head(), final(self).tail(), final(self)@.len(), N as nat)
            },
    {
        proof {
            use_type_invariant(&*self);
        }
        let ghost old_view = self@;
        let ghost old_slots = self.slots();
        let mut taken = RingBuffer::<T, N>::new();
        core::mem::swap(self, &mut taken);
        proof {
            use_type_invariant(&taken);
        }
        let RingBuffer { buf: mut slots, at } = taken;
        assert(slots@ =~= old_slots);
        let tail = at.tail;
        let ghost aligned = tail == (at.head + at.count) % (N as int);
        proof {
            lemma_mod_wrap(at.head + at.count, N as int);
        }
        slots.set(tail, Some(value));
        let next_tail = if tail + 1 == N { 0 } else { tail + 1 };
        let full = at.count == N;
        let head = if full {
            if at.head + 1 == N { 0 } else { at.head + 1 }
        } else {
            at.head
        };
        let count = if full { at.count } else { at.count + 1 };
        proof {
            lemma_mod_wrap(tail + 1, N as int);
            lemma_mod_wrap(at.head + 1, N as int);
            lemma_mod_wrap(head + count, N as int);
            if !full {
                lemma_mod_wrap(at.head + at.count + 1, N as int);
            }
            if aligned {
                assert forall|i: int| 0 <= i < count implies (#[trigger] slots@[(head + i) % (N as int)]) is Some by {
                    lemma_mod_wrap(head + i, N as int);
                    lemma_mod_wrap(at.head + i, N as int);
                    lemma_mod_wrap(at.head + i + 1, N as int);
                    if full {
                        if i + 1 < N {
                            assert(old_slots[(at.head + (i + 1)) % (N as int)] is Some);
                        }
                    } else if i < at.count {
                        assert(old_slots[(at.head + i) % (N as int)] is Some);
                    }
                }
                assert(next_tail == (head + count) % (N as int));
            } else {
                assert forall|j: int| 0 <= j < N implies (#[trigger] slots@[j]) is Some by {
                    assert(old_slots[j] is Some);
                }
                assert forall|i: int| 0 <= i < count implies (#[trigger] slots@[(head + i) % (N as int)]) is Some by {
                    lemma_mod_wrap(head + i, N as int);
                }
                assert(next_tail != (head + count) % (N as int));
            }
        }
        *self = RingBuffer { buf: slots, at: RingCursor { head, tail: next_tail, count } };
        proof {
            self.lemma_layout();
            assert(self.slots() =~= old_slots.update(at.tail as int, Some(value)));
            if aligned {
                let expected = keep_last(old_view.push(value), N as nat);
                assert forall|i: int| 0 <= i < count implies #[trigger] self@[i] == expected[i] by {
                    lemma_mod_wrap(head + i, N as int);
                    lemma_mod_wrap(at.head + i, N as int);
                    lemma_mod_wrap(at.head + i + 1, N as int);
                }
                assert(self@ =~= expected);
            }
        }
    }

    /// The item `index` places after the oldest one, if there is one.
    pub fn get(&self, index: usize) -> (r: Option<&T>)
        ensures
            index < self@.len() ==> r == Some(&self@[index as int]),
            index >= self@.len() ==> r is None,
    {
        proof {
            use_type_invariant(self);
        }
        if index >= self.at.count {
            return None;
        }
        let actual = if self.at.head < N - index { self.at.head + index } else { self.at.head - (N - index) };
        proof {
            lemma_mod_wrap(self.at.head + index, N as int);
        }
        match &self.buf[actual] {
            Some(item) => Some(item),
            None => None,
        }
    }

    /// Slot `j` as it lies.
    pub(crate) fn slot(&self, j: usize) -> (r: &Option<T>)
        requires
            j < N,
        ensures
            *r == self.slots()[j as int],
    {
        proof {
            use_type_invariant(self);
        }
        &self.buf[j]
    }

    /// The slot of the oldest item.
    pub(crate) fn head_index(&self) -> (h: usize)
        ensures
            h == self.head(),
    {
        self.at.head
    }

    /// The slot the next item goes to.
    pub(crate) fn tail_index(&self) -> (t: usize)
        ensures
            t == self.tail(),
    {
        self.at.tail
    }

    /// A buffer whose slots are `slots`, holding the `count` items from
    /// slot `head` on, the next item going to slot `tail`.
    pub(crate) fn from_parts(slots: Vec<Option<T>>, head: usize, tail: usize, count: usize) -> (r: Self)
        requires
            0 < N,
            slots@.len() == N,
            head < N,
            tail < N,
            count <= N,
            forall|i: int| 0 <= i < count ==> (#[trigger] slots@[(head + i) % (N as int)]) is Some,
            tail != (head + count) % (N as int) ==> forall|j: int|
                0 <= j < N ==> (#[trigger] slots@[j]) is Some,
        ensures
            r.slots() == slots@,
            r.head() == head,
            r.tail() == tail,
            r@ == Seq::new(count as nat, |i: int| slots@[(head + i) % (N as int)].unwrap()),
            ring_wf(r.slots(), r.head(), r.tail(), r@, N as nat),
    {
        let r = RingBuffer { buf: slots, at: RingCursor { head, tail, count } };
        assert(r.slots() =~= slots@);
        assert(r@ =~= Seq::new(count as nat, |i: int| slots@[(head + i) % (N as int)].unwrap()));
        proof {
            r.lemma_layout();
        }
        r
    }
}

impl<T, const N: usize> Default for RingBuffer<T, N> {
    fn default() -> (r: Self)
        ensures
            r@ == Seq::<T>::empty(),
    {
        Self::new()
    }
}

/// Capacity of the user registry.
pub const MAX_USERS: usize = 256;

/// Capacity of the message history.
pub const MAX_HISTORY: usize = 64;

/// A registered chat participant. `status` 0 marks an active user and 1 a
/// free (soft-deleted) slot.
#[derive(Clone, Copy)]
pub struct User {
    /// Numeric identifier.
    pub id: u16,
    /// 0 for active, 1 for deleted.
    pub status: u8,
    /// Alignment byte, kept as stored.
    pub padding: u8,
    /// Display name, at most 32 bytes.
    pub name: FixedString<32>,
}

/// The value of a `User`, with its name as a byte sequence.
#[verifier::ext_equal]
pub struct UserView {
    pub id: u16,
    pub status: u8,
    pub padding: u8,
    pub name: Seq<u8>,
    /// The whole 32-byte name buffer, bytes past the name included.
    pub name_buffer: Seq<u8>,
}

impl View for User {
    type V = UserView;

    open spec fn view(&self) -> UserView {
        UserView {
            id: self.id,
            status: self.status,
            padding: self.padding,
            name: self.name@,
            name_buffer: self.name.raw(),
        }
    }
}

/// The values of a sequence of users.
pub open spec fn user_views(users: Seq<User>) -> Seq<UserView> {
    users.map_values(|u: User| u@)
}

/// A broadcast message with the tick at which it was sent.
#[derive(Clone, Copy)]
pub struct Message {
    /// Sender.
    pub user_id: u16,
    /// Alignment bytes, kept as stored.
    pub padding: u16,
    /// Relative tick at creation.
    pub tick: u32,
    /// Text, at most 256 bytes.
    pub content: FixedString<256>,
}

/// The value of a `Message`, with its content as a byte sequence.
#[verifier::ext_equal]
pub struct MessageView {
    pub user_id: u16,
    pub padding: u16,
    pub tick: u32,
    pub content: Seq<u8>,
    /// The whole 256-byte content buffer, bytes past the content included.
    pub content_buffer: Seq<u8>,
}

impl View for Message {
    type V = MessageView;

    open spec fn view(&self) -> MessageView {
        MessageView {
            user_id: self.user_id,
            padding: self.padding,
            tick: self.tick,
            content: self.content@,
            content_buffer: self.content.raw(),
        }
    }
}

/// The values of a sequence of messages.
pub open spec fn message_views(messages: Seq<Message>) -> Seq<MessageView> {
    messages.map_values(|m: Message| m@)
}

/// The value of a history slot.
pub open spec fn slot_view(slot: Option<Message>) -> Option<MessageView> {
    match slot {
        Some(m) => Some(m@),
        None => None,
    }
}

/// The values of history slots.
pub open spec fn slot_views(slots: Seq<Option<Message>>) -> Seq<Option<MessageView>> {
    slots.map_values(|slot: Option<Message>| slot_view(slot))
}

} // verus!
