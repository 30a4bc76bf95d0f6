//! Table-less CRC32, decimal formatting and decimal parsing.
use crate::serial::SerialPort;
use vstd::prelude::*;

verus! {

/// One shift step of the reflected CRC32 register (polynomial 0xEDB88320).
pub open spec fn crc_shift(s: u32) -> u32 {
    if s & 1 != 0 {
        (s >> 1) ^ 0xEDB8_8320u32
    } else {
        s >> 1
    }
}

/// `k` shift steps of the CRC32 register.
pub open spec fn crc_shifts(s: u32, k: nat) -> u32
    decreases k,
{
    if k == 0 {
        s
    } else {
        crc_shift(crc_shifts(s, (k - 1) as nat))
    }
}

/// The register after feeding one byte.
pub open spec fn crc_byte(s: u32, b: u8) -> u32 {
    crc_shifts(s ^ (b as u32), 8)
}

/// The register after feeding `data`, first byte first, starting from `s`.
pub open spec fn crc_fold(s: u32, data: Seq<u8>) -> u32
    decreases data.len(),
{
    if data.len() == 0 {
        s
    } else {
        crc_byte(crc_fold(s, data.drop_last()), data.last())
    }
}

/// The CRC32 (IEEE, reflected, table-less) of `data`.
pub open spec fn crc32(data: Seq<u8>) -> u32 {
    !crc_fold(0xFFFF_FFFFu32, data)
}

/// Feeding two chunks one after the other is feeding their concatenation.
pub proof fn lemma_crc_fold_concat(s: u32, a: Seq<u8>, b: Seq<u8>)
    ensures
        crc_fold(crc_fold(s, a), b) == crc_fold(s, a + b),
    decreases b.len(),
{
    if b.len() == 0 {
        assert(a + b =~= a);
    } else {
        lemma_crc_fold_concat(s, a, b.drop_last());
        assert((a + b).drop_last() =~= a + b.drop_last());
        assert((a + b).last() == b.last());
    }
}

/// Eight shift steps, written out.
spec fn crc_eight_shifts(s: u32) -> u32 {
    crc_shift(crc_shift(crc_shift(crc_shift(crc_shift(crc_shift(crc_shift(crc_shift(s))))))))
}

/// One byte step of the register, from `s` with byte `b` to `r`.
proof fn lemma_crc_byte_step(s: u32, b: u8, r: u32)
    requires
        crc_eight_shifts(s ^ (b as u32)) == r,
    ensures
        crc_byte(s, b) == r,
{
    reveal_with_fuel(crc_shifts, 9);
}

/// The standard check value: the CRC32 of the ASCII digits "123456789"
/// is 0xCBF43926.
pub proof fn lemma_crc32_check_value()
    ensures
        crc32(seq![49u8, 50u8, 51u8, 52u8, 53u8, 54u8, 55u8, 56u8, 57u8]) == 0xCBF4_3926u32,
{
    let data = seq![49u8, 50u8, 51u8, 52u8, 53u8, 54u8, 55u8, 56u8, 57u8];
    assert(crc_eight_shifts(0xFFFFFFFFu32 ^ (49u8 as u32)) == 0x7C231048u32) by (bit_vector);
    lemma_crc_byte_step(0xFFFFFFFFu32, 49u8, 0x7C231048u32);
    assert(crc_eight_shifts(0x7C231048u32 ^ (50u8 as u32)) == 0xB0ACBB32u32) by (bit_vector);
    lemma_crc_byte_step(0x7C231048u32, 50u8, 0xB0ACBB32u32);
    assert(crc_eight_shifts(0xB0ACBB32u32 ^ (51u8 as u32)) == 0x77B79C2Du32) by (bit_vector);
    lemma_crc_byte_step(0xB0ACBB32u32, 51u8, 0x77B79C2Du32);
    assert(crc_eight_shifts(0x77B79C2Du32 ^ (52u8 as u32)) == 0x641C1F5Cu32) by (bit_vector);
    lemma_crc_byte_step(0x77B79C2Du32, 52u8, 0x641C1F5Cu32);
    assert(crc_eight_shifts(0x641C1F5Cu32 ^ (53u8 as u32)) == 0x340AC5E3u32) by (bit_vector);
    lemma_crc_byte_step(0x641C1F5Cu32, 53u8, 0x340AC5E3u32);
    assert(crc_eight_shifts(0x340AC5E3u32 ^ (54u8 as u32)) == 0xF68D2C9Eu32) by (bit_vector);
    lemma_crc_byte_step(0x340AC5E3u32, 54u8, 0xF68D2C9Eu32);
    assert(crc_eight_shifts(0xF68D2C9Eu32 ^ (55u8 as u32)) == 0xAFFC9660u32) by (bit_vector);
    lemma_crc_byte_step(0xF68D2C9Eu32, 55u8, 0xAFFC9660u32);
    assert(crc_eight_shifts(0xAFFC9660u32 ^ (56u8 as u32)) == 0x651F2550u32) by (bit_vector);
    lemma_crc_byte_step(0xAFFC9660u32, 56u8, 0x651F2550u32);
    assert(crc_eight_shifts(0x651F2550u32 ^ (57u8 as u32)) == 0x340BC6D9u32) by (bit_vector);
    lemma_crc_byte_step(0x651F2550u32, 57u8, 0x340BC6D9u32);
    assert forall|k: int| 0 < k <= 9 implies #[trigger] data.take(k).drop_last() == data.take(k - 1)
        && data.take(k).last() == data[k - 1] by {
        assert(data.take(k).drop_last() =~= data.take(k - 1));
    }
    assert(data.take(0).len() == 0);
    assert(crc_fold(0xFFFF_FFFFu32, data.take(0)) == 0xFFFF_FFFFu32);
    assert(data.take(1).drop_last() == data.take(0) && data.take(1).last() == 49u8);
    assert(crc_fold(0xFFFF_FFFFu32, data.take(1)) == 0x7C231048u32);
    assert(data.take(2).drop_last() == data.take(1) && data.take(2).last() == 50u8);
    assert(crc_fold(0xFFFF_FFFFu32, data.take(2)) == 0xB0ACBB32u32);
    assert(data.take(3).drop_last() == data.take(2) && data.take(3).last() == 51u8);
    assert(crc_fold(0xFFFF_FFFFu32, data.take(3)) == 0x77B79C2Du32);
    assert(data.take(4).drop_last() == data.take(3) && data.take(4).last() == 52u8);
    assert(crc_fold(0xFFFF_FFFFu32, data.take(4)) == 0x641C1F5Cu32);
    assert(data.take(5).drop_last() == data.take(4) && data.take(5).last() == 53u8);
    assert(crc_fold(0xFFFF_FFFFu32, data.take(5)) == 0x340AC5E3u32);
    assert(data.take(6).drop_last() == data.take(5) && data.take(6).last() == 54u8);
    assert(crc_fold(0xFFFF_FFFFu32, data.take(6)) == 0xF68D2C9Eu32);
    assert(data.take(7).drop_last() == data.take(6) && data.take(7).last() == 55u8);
    assert(crc_fold(0xFFFF_FFFFu32, data.take(7)) == 0xAFFC9660u32);
    assert(data.take(8).drop_last() == data.take(7) && data.take(8).last() == 56u8);
    assert(crc_fold(0xFFFF_FFFFu32, data.take(8)) == 0x651F2550u32);
    assert(data.take(9).drop_last() == data.take(8) && data.take(9).last() == 57u8);
    assert(crc_fold(0xFFFF_FFFFu32, data.take(9)) == 0x340BC6D9u32);
    assert(data.take(9) =~= data);
    assert(!0x340B_C6D9u32 == 0xCBF4_3926u32) by (bit_vector);
}

/// Incremental CRC32 computation.
pub struct Crc32 {
    state: u32,
}

impl View for Crc32 {
    type V = u32;

    /// The running register.
    closed spec fn view(&self) -> u32 {
        self.state
    }
}

impl Crc32 {
    /// A computation that has seen no byte yet.
    pub fn new() -> (c: Self)
        ensures
            c@ == 0xFFFF_FFFFu32,
    {
        Crc32 { state: 0xFFFF_FFFF }
    }

    /// Feeds `data`, first byte first.
    pub fn update(&mut self, data: &[u8])
        ensures
            final(self)@ == crc_fold(old(self)@, data@),
    {
        let mut i: usize = 0;
        while i < data.len()
            invariant
                i <= data@.len(),
                self@ == crc_fold(old(self)@, data@.take(i as int)),
            decreases data@.len() - i,
        {
            let byte = data[i];
            self.state = self.state ^ (byte as u32);
            let ghost start = self.state;
            let mut k: u32 = 0;
            while k < 8
                invariant
                    k <= 8,
                    self.state == crc_shifts(start, k as nat),
                decreases 8 - k,
            {
                if self.state & 1 != 0 {
                    self.state = (self.state >> 1) ^ 0xEDB8_8320;
                } else {
                    self.state = self.state >> 1;
                }
                k = k + 1;
            }
            proof {
                assert(data@.take(i + 1).drop_last() =~= data@.take(i as int));
            }
            i = i + 1;
        }
        proof {
            assert(data@.take(data@.len() as int) =~= data@);
        }
    }

    /// The CRC32 of every byte fed so far.
    pub fn finalize(self) -> (r: u32)
        ensures
            r == !self@,
    {
        !self.state
    }
}

impl Default for Crc32 {
    fn default() -> (c: Self)
        ensures
            c@ == 0xFFFF_FFFFu32,
    {
        Self::new()
    }
}

/// Powers of ten.
pub open spec fn pow10(k: nat) -> nat
    decreases k,
{
    if k == 0 {
        1
    } else {
        10 * pow10((k - 1) as nat)
    }
}

/// The ASCII decimal representation of `n`, without leading zeros.
pub open spec fn decimal_digits(n: nat) -> Seq<u8>
    decreases n,
{
    if n < 10 {
        seq![(48 + n) as u8]
    } else {
        decimal_digits(n / 10).push((48 + n % 10) as u8)
    }
}

/// Writes `n` in decimal.
pub fn write_u32<P: SerialPort>(port: &mut P, n: u32)
    ensures
        final(port).sent() == old(port).sent() + decimal_digits(n as nat),
{
    if n == 0 {
        port.write_byte(48u8);
        return;
    }
    let mut m = n;
    let mut buffer = [0u8; 10];
    let mut i: usize = 10;
    proof {
        reveal_with_fuel(pow10, 11);
        assert(buffer@.subrange(10, 10) =~= Seq::<u8>::empty());
    }
    while m > 0
        invariant
            i <= 10,
            buffer@.len() == 10,
            (m as nat) < pow10(i as nat),
            decimal_digits(n as nat) == (if m > 0 { decimal_digits(m as nat) } else {
                Seq::<u8>::empty()
            }) + buffer@.subrange(i as int, 10),
        decreases m,
    {
        let ghost old_tail = buffer@.subrange(i as int, 10);
        let ghost p = pow10((i - 1) as nat);
        i = i - 1;
        buffer[i] = (m % 10) as u8 + 48u8;
        assert(m / 10 < p) by (nonlinear_arith)
            requires
                m < 10 * p,
        ;
        proof {
            assert(buffer@.subrange(i as int, 10) =~= seq![buffer@[i as int]] + old_tail);
        }
        m = m / 10;
    }
    proof {
        assert(decimal_digits(n as nat) =~= buffer@.subrange(i as int, 10));
    }
    let mut j: usize = i;
    while j < 10
        invariant
            i <= j <= 10,
            buffer@.len() == 10,
            decimal_digits(n as nat) == buffer@.subrange(i as int, 10),
            port.sent() == old(port).sent() + buffer@.subrange(i as int, j as int),
        decreases 10 - j,
    {
        port.write_byte(buffer[j]);
        proof {
            assert(buffer@.subrange(i as int, j + 1) =~= buffer@.subrange(i as int, j as int).push(
                buffer@[j as int],
            ));
        }
        j = j + 1;
    }
}

/// True for the ASCII digits `0` to `9`.
pub open spec fn is_digit(b: u8) -> bool {
    48 <= b <= 57
}

/// The number that a string of ASCII digits denotes.
pub open spec fn digits_value(s: Seq<u8>) -> nat
    decreases s.len(),
{
    if s.len() == 0 {
        0
    } else {
        digits_value(s.drop_last()) * 10 + (s.last() - 48) as nat
    }
}

/// What `parse_u16` returns: the value of a non-empty string of ASCII
/// digits when it fits in a `u16`, else nothing.
pub open spec fn parse_u16_spec(s: Seq<u8>) -> Option<u16> {
    if s.len() > 0 && (forall|i: int| 0 <= i < s.len() ==> is_digit(#[trigger] s[i]))
        && digits_value(s) <= 0xFFFF {
        Some(digits_value(s) as u16)
    } else {
        None
    }
}

/// Appending digits never lowers the value.
proof fn lemma_digits_value_prefix(s: Seq<u8>, j: int)
    requires
        0 <= j <= s.len(),
        forall|i: int| 0 <= i < s.len() ==> is_digit(#[trigger] s[i]),
    ensures
        digits_value(s.take(j)) <= digits_value(s),
    decreases s.len() - j,
{
    if j < s.len() {
        lemma_digits_value_prefix(s, j + 1);
        assert(s.take(j + 1).drop_last() =~= s.take(j));
    } else {
        assert(s.take(j) =~= s);
    }
}

/// Parses a non-empty string of ASCII digits into a `u16`; `None` on any
/// other byte, on an empty string, or when the value does not fit.
pub fn parse_u16(bytes: &[u8]) -> (r: Option<u16>)
    ensures
        r == parse_u16_spec(bytes@),
{
    if bytes.len() == 0 {
        return None;
    }
    let mut result: u16 = 0;
    let mut i: usize = 0;
    while i < bytes.len()
        invariant
            0 < bytes@.len(),
            i <= bytes@.len(),
            forall|k: int| 0 <= k < i ==> is_digit(#[trigger] bytes@[k]),
            result as nat == digits_value(bytes@.take(i as int)),
        decreases bytes@.len() - i,
    {
        let byte = bytes[i];
        proof {
            assert(bytes@.take(i + 1).drop_last() =~= bytes@.take(i as int));
        }
        if 48u8 <= byte && byte <= 57u8 {
            let digit = (byte - 48u8) as u16;
            match result.checked_mul(10) {
                Some(tens) => match tens.checked_add(digit) {
                    Some(v) => {
                        result = v;
                    },
                    None => {
                        proof {
                            if forall|k: int| 0 <= k < bytes@.len() ==> is_digit(#[trigger] bytes@[k]) {
                                lemma_digits_value_prefix(bytes@, i + 1);
                            }
                        }
                        return None;
                    },
                },
                None => {
                    proof {
                        if forall|k: int| 0 <= k < bytes@.len() ==> is_digit(#[trigger] bytes@[k]) {
                            lemma_digits_value_prefix(bytes@, i + 1);
                        }
                    }
                    return None;
                },
            }
        } else {
            assert(!is_digit(bytes@[i as int]));
            return None;
        }
        i = i + 1;
    }
    proof {
        assert(bytes@.take(bytes@.len() as int) =~= bytes@);
    }
    Some(result)
}

/// Decimal digits are digits and denote the number they were made from.
proof fn lemma_decimal_digits_value(n: nat)
    ensures
        decimal_digits(n).len() > 0,
        forall|i: int| 0 <= i < decimal_digits(n).len() ==> is_digit(#[trigger] decimal_digits(n)[i]),
        digits_value(decimal_digits(n)) == n,
    decreases n,
{
    if n >= 10 {
        lemma_decimal_digits_value(n / 10);
        let d = decimal_digits(n);
        assert(d.drop_last() =~= decimal_digits(n / 10));
        assert(d.last() == (48 + n % 10) as u8);
        assert((d.last() - 48) as nat == n % 10);
        vstd::arithmetic::div_mod::lemma_fundamental_div_mod(n as int, 10);
        assert(digits_value(d) == digits_value(decimal_digits(n / 10)) * 10 + n % 10);
    } else {
        let d = decimal_digits(n);
        assert(d.drop_last() =~= Seq::<u8>::empty());
        assert(d.last() == (48 + n) as u8);
        assert(digits_value(d) == digits_value(d.drop_last()) * 10 + (d.last() - 48) as nat);
    }
}

/// An identifier printed by `write_u32` reads back through `parse_u16`.
pub proof fn lemma_parse_u16_of_decimal(n: u16)
    ensures
        parse_u16_spec(decimal_digits(n as nat)) == Some(n),
{
    lemma_decimal_digits_value(n as nat);
}

} // verus!
