//! Byte-stream serial port abstraction.
use vstd::prelude::*;

verus! {

/// Hardware abstraction for byte-stream serial communication.
///
/// Implementations transmit every byte handed to `write_byte`, in order;
/// `sent` is the sequence of bytes transmitted so far.
pub trait SerialPort {
    /// The bytes transmitted through this port so far, oldest first.
    ///
    /// Verified implementations define it; code generic over the port never
    /// sees this default, which only lets implementations outside
    /// verification leave it out.
    closed spec fn sent(&self) -> Seq<u8> {
        Seq::empty()
    }

    /// Synchronously transmits one byte.
    fn write_byte(&mut self, byte: u8)
        ensures
            final(self).sent() == old(self).sent().push(byte),
    ;

    /// Non-blocking read: `None` when no byte is available.
    fn read_byte(&mut self) -> Option<u8>;
}

/// Byte sequences concatenate associatively.
pub broadcast proof fn lemma_bytes_concat_assoc(a: Seq<u8>, b: Seq<u8>, c: Seq<u8>)
    ensures
        #[trigger] ((a + b) + c) == a + (b + c),
{
    assert(((a + b) + c) =~= a + (b + c));
}

/// Writes every byte of `bytes` to `port`, in order.
pub(crate) fn write_all<P: SerialPort>(port: &mut P, bytes: &[u8])
    ensures
        final(port).sent() == old(port).sent() + bytes@,
{
    let mut i: usize = 0;
    while i < bytes.len()
        invariant
            i <= bytes@.len(),
            port.sent() == old(port).sent() + bytes@.take(i as int),
        decreases bytes@.len() - i,
    {
        port.write_byte(bytes[i]);
        proof {
            assert(bytes@.take(i + 1) == bytes@.take(i as int).push(bytes@[i as int]));
        }
        i = i + 1;
    }
    assert(bytes@.take(bytes@.len() as int) == bytes@);
}

} // verus!
