//! The protobuf wire format, as far as the proxy messages use it.
//!
//! A message is a run of fields. Each field starts with a varint tag that holds the field
//! number and the wire type, and the wire type says how the value that follows is laid out.

use vstd::prelude::*;
use vstd::slice::slice_subrange;

verus! {

/// Two to the power of 64, the number of values of a `u64`.
pub open spec fn u64_range() -> int {
    0x1_0000_0000_0000_0000
}

/// 128 to the power of `n`.
pub open spec fn pow128(n: nat) -> nat
    decreases n,
{
    if n == 0 {
        1
    } else {
        128 * pow128((n - 1) as nat)
    }
}

/// The number whose base-128 digits, least significant first, are the low seven bits of `s`.
pub open spec fn base128(s: Seq<u8>) -> nat
    decreases s.len(),
{
    if s.len() == 0 {
        0
    } else {
        (s[0] % 128) as nat + 128 * base128(s.drop_first())
    }
}

/// The position, counted from one, of the first byte whose top bit is clear.
/// One more than the length of `s` when every top bit is set.
pub open spec fn varint_len(s: Seq<u8>) -> nat
    decreases s.len(),
{
    if s.len() == 0 || s[0] < 0x80 {
        1
    } else {
        1 + varint_len(s.drop_first())
    }
}

/// The varint at the start of `s`, with its length in bytes.
///
/// A varint has at most ten bytes. Bits beyond the 64th are dropped.
pub open spec fn read_varint(s: Seq<u8>) -> Option<(u64, int)> {
    let n = varint_len(s) as int;
    if n <= s.len() && n <= 10 {
        Some(((base128(s.take(n)) as int % u64_range()) as u64, n))
    } else {
        None
    }
}

/// The number of bytes that an attempt to read a varint at the start of `s` moves past.
/// A failed attempt ends at the end of the input or after the eleventh byte.
pub open spec fn varint_span(s: Seq<u8>) -> int {
    match read_varint(s) {
        Some((_, n)) => n,
        None => if s.len() < 11 {
            s.len() as int
        } else {
            11
        },
    }
}

/// The value of a field, by wire type.
pub enum FieldValue {
    Varint(u64),
    Fixed64(Seq<u8>),
    Bytes(Seq<u8>),
    Fixed32(Seq<u8>),
}

/// One field of a message.
pub struct Field {
    pub number: u64,
    pub value: FieldValue,
}

/// The length-delimited bytes at the start of `s`, with the number of bytes that they and
/// their length take up. The length is cut to the width of `usize`.
pub open spec fn read_bytes(s: Seq<u8>) -> Option<(Seq<u8>, int)> {
    match read_varint(s) {
        Some((len, n)) => if n + (len as usize) <= s.len() {
            Some((s.subrange(n, n + (len as usize)), n + (len as usize)))
        } else {
            None
        },
        None => None,
    }
}

/// The value of the given wire type at the start of `s`, with its length in bytes.
/// Wire types other than 0, 1, 2 and 5 have no values.
pub open spec fn read_value(s: Seq<u8>, wire_type: u64) -> Option<(FieldValue, int)> {
    if wire_type == 0 {
        match read_varint(s) {
            Some((value, n)) => Some((FieldValue::Varint(value), n)),
            None => None,
        }
    } else if wire_type == 1 {
        if 8 <= s.len() {
            Some((FieldValue::Fixed64(s.take(8)), 8))
        } else {
            None
        }
    } else if wire_type == 2 {
        match read_bytes(s) {
            Some((data, n)) => Some((FieldValue::Bytes(data), n)),
            None => None,
        }
    } else if wire_type == 5 {
        if 4 <= s.len() {
            Some((FieldValue::Fixed32(s.take(4)), 4))
        } else {
            None
        }
    } else {
        None
    }
}

/// The number of bytes that skipping a value of the given wire type at the start of `s` moves
/// past, whether there is such a value or not.
pub open spec fn skip_span(s: Seq<u8>, wire_type: u64) -> int {
    match read_value(s, wire_type) {
        Some((_, n)) => n,
        None => if wire_type == 0 || wire_type == 2 {
            varint_span(s)
        } else {
            0
        },
    }
}

/// The field at the start of `s`, with its length in bytes.
pub open spec fn read_field(s: Seq<u8>) -> Option<(Field, int)> {
    match read_varint(s) {
        Some((tag, n)) => match read_value(s.skip(n), tag % 8) {
            Some((value, m)) => Some((Field { number: tag / 8, value }, n + m)),
            None => None,
        },
        None => None,
    }
}

/// The fields that `s` consists of. `None` when `s` is not a run of whole fields.
pub open spec fn read_fields(s: Seq<u8>) -> Option<Seq<Field>>
    decreases s.len(),
{
    if s.len() == 0 {
        Some(Seq::empty())
    } else {
        proof {
            lemma_read_field_len(s);
        }
        match read_field(s) {
            Some((field, n)) => match read_fields(s.skip(n)) {
                Some(fields) => Some(seq![field] + fields),
                None => None,
            },
            None => None,
        }
    }
}

/// The tag of a field. Bits of the number beyond the 61st are dropped.
pub open spec fn field_tag(number: u64, wire_type: u64) -> u64
    recommends
        wire_type < 8,
{
    ((number * 8) % u64_range() + wire_type) as u64
}

/// The shortest varint for `value`.
pub open spec fn varint_bytes(value: u64) -> Seq<u8>
    decreases value,
{
    if value < 0x80 {
        seq![value as u8]
    } else {
        seq![(value % 128 + 128) as u8] + varint_bytes(value / 128)
    }
}

/// A field with a varint value.
pub open spec fn varint_field(number: u64, value: u64) -> Seq<u8> {
    varint_bytes(field_tag(number, 0)) + varint_bytes(value)
}

/// A field with a length-delimited value.
pub open spec fn bytes_field(number: u64, data: Seq<u8>) -> Seq<u8> {
    varint_bytes(field_tag(number, 2)) + varint_bytes(data.len() as u64) + data
}

/// A varint that was read lies within the input and has at least one byte.
pub proof fn lemma_read_varint_len(s: Seq<u8>)
    ensures
        read_varint(s) matches Some((_, n)) ==> 1 <= n <= s.len(),
{
    lemma_varint_len_positive(s);
}

/// A value that was read lies within the input.
pub proof fn lemma_read_value_len(s: Seq<u8>, wire_type: u64)
    ensures
        read_value(s, wire_type) matches Some((_, n)) ==> 0 <= n <= s.len(),
{
    lemma_read_varint_len(s);
}

/// A field that was read lies within the input and has at least one byte.
pub proof fn lemma_read_field_len(s: Seq<u8>)
    ensures
        read_field(s) matches Some((_, n)) ==> 1 <= n <= s.len(),
{
    lemma_read_varint_len(s);
    if let Some((tag, n)) = read_varint(s) {
        lemma_read_value_len(s.skip(n), tag % 8);
    }
}

proof fn lemma_varint_len_positive(s: Seq<u8>)
    ensures
        varint_len(s) >= 1,
{
}

/// The powers of 128 around the range of a `u64`.
pub proof fn lemma_pow128_values()
    ensures
        pow128(0) == 1,
        pow128(1) == 0x80,
        pow128(2) == 0x4000,
        pow128(3) == 0x20_0000,
        pow128(4) == 0x1000_0000,
        pow128(5) == 0x8_0000_0000,
        pow128(6) == 0x400_0000_0000,
        pow128(7) == 0x2_0000_0000_0000,
        pow128(8) == 0x100_0000_0000_0000,
        pow128(9) == 0x8000_0000_0000_0000,
        pow128(10) == 0x40_0000_0000_0000_0000,
{
    reveal_with_fuel(pow128, 11);
}

proof fn lemma_base128_push(s: Seq<u8>, b: u8)
    ensures
        base128(s.push(b)) == base128(s) + pow128(s.len()) * ((b % 128) as nat),
    decreases s.len(),
{
    let low = (b % 128) as nat;
    let t = s.push(b);
    if s.len() == 0 {
        assert(t.drop_first() =~= Seq::<u8>::empty());
        assert(base128(t.drop_first()) == 0);
        assert(pow128(0) * low == low) by (nonlinear_arith)
            requires
                pow128(0) == 1,
        ;
    } else {
        let rest = s.drop_first();
        assert(t.drop_first() =~= rest.push(b));
        lemma_base128_push(rest, b);
        let p = pow128(rest.len());
        assert(128 * (base128(rest) + p * low) == 128 * base128(rest) + (128 * p) * low)
            by (nonlinear_arith);
    }
}

proof fn lemma_base128_bound(s: Seq<u8>)
    ensures
        base128(s) < pow128(s.len()),
    decreases s.len(),
{
    if s.len() > 0 {
        lemma_base128_bound(s.drop_first());
    }
}

proof fn lemma_varint_len_of_run(s: Seq<u8>, k: int)
    requires
        0 <= k <= s.len(),
        forall|i: int| 0 <= i < k ==> s[i] >= 0x80,
    ensures
        varint_len(s) == k + varint_len(s.skip(k)),
    decreases k,
{
    if k == 0 {
        assert(s.skip(0) =~= s);
    } else {
        let t = s.drop_first();
        assert forall|i: int| 0 <= i < k - 1 implies t[i] >= 0x80 by {
            assert(t[i] == s[i + 1]);
        }
        lemma_varint_len_of_run(t, k - 1);
        assert(t.skip(k - 1) =~= s.skip(k));
    }
}

proof fn lemma_append_group(value: u64, low: u64, shift: u64)
    by (bit_vector)
    requires
        low < 128,
        shift <= 63,
        value < (1u64 << shift),
    ensures
        (value | (low << shift)) == (value + low * (1u64 << shift)) % 0x1_0000_0000_0000_0000,
{
}

proof fn lemma_shift_is_pow128(k: nat, shift: u64)
    requires
        k < 10,
        shift == 7 * k,
    ensures
        (1u64 << shift) == pow128(k),
{
    lemma_pow128_values();
    assert(1u64 << 0u64 == 1 && 1u64 << 7u64 == 0x80 && 1u64 << 14u64 == 0x4000 && 1u64 << 21u64
        == 0x20_0000 && 1u64 << 28u64 == 0x1000_0000 && 1u64 << 35u64 == 0x8_0000_0000 && 1u64
        << 42u64 == 0x400_0000_0000 && 1u64 << 49u64 == 0x2_0000_0000_0000 && 1u64 << 56u64
        == 0x100_0000_0000_0000 && 1u64 << 63u64 == 0x8000_0000_0000_0000) by (bit_vector);
}

/// A position in a byte buffer from which fields are read.
pub struct Reader<'a> {
    pub buf: &'a [u8],
    pub pos: usize,
}

impl<'a> Reader<'a> {
    /// The bytes that are still to be read.
    pub open spec fn rest(self) -> Seq<u8> {
        if self.pos <= self.buf@.len() {
            self.buf@.skip(self.pos as int)
        } else {
            Seq::empty()
        }
    }

    pub fn new(buf: &'a [u8]) -> (r: Self)
        ensures
            r.buf@ == buf@,
            r.pos == 0,
            r.rest() == buf@,
    {
        let r = Reader { buf, pos: 0 };
        assert(r.rest() =~= buf@);
        r
    }

    /// Reads a varint.
    pub fn varint(&mut self) -> (r: Option<u64>)
        ensures
            final(self).buf@ == old(self).buf@,
            final(self).pos == old(self).pos + varint_span(old(self).rest()),
            old(self).pos <= old(self).buf@.len() ==> final(self).pos <= final(self).buf@.len(),
            match read_varint(old(self).rest()) {
                Some((value, _)) => r == Some(value),
                None => r is None,
            },
    {
        let ghost s = self.rest();
        let ghost start = self.pos as int;
        let ghost mut k: int = 0;
        let mut value: u64 = 0;
        let mut shift: u64 = 0;
        loop
            invariant
                0 <= k <= s.len(),
                k <= 10,
                s == old(self).rest(),
                self.buf@ == old(self).buf@,
                start == old(self).pos,
                self.pos == start + k,
                shift == 7 * k,
                k < 10 ==> value == base128(s.take(k)),
                forall|i: int| 0 <= i < k ==> s[i] >= 0x80,
            decreases 11 - k,
        {
            proof {
                lemma_varint_len_of_run(s, k);
                lemma_varint_len_positive(s.skip(k));
            }
            let byte: u8 = match self.buf.get(self.pos) {
                Some(byte) => *byte,
                None => {
                    assert(k == s.len());
                    return None;
                },
            };
            assert(byte == s[k]);
            self.pos += 1;
            if shift >= 64 {
                return None;
            }
            let ghost before = value;
            value = value | (((byte & 0x7f) as u64) << shift);
            proof {
                assert(byte & 0x7f == byte % 128) by (bit_vector);
                lemma_shift_is_pow128(k as nat, shift);
                lemma_base128_bound(s.take(k));
                let low = (byte % 128) as u64;
                lemma_append_group(before, low, shift);
                assert(s.take(k + 1) =~= s.take(k).push(byte));
                lemma_base128_push(s.take(k), byte);
                let p = pow128(k as nat) as int;
                assert(low * p == p * low) by (nonlinear_arith);
                assert(value == base128(s.take(k + 1)) as int % u64_range());
                lemma_base128_bound(s.take(k + 1));
                lemma_pow128_values();
                assert(k + 1 < 10 ==> value == base128(s.take(k + 1)));
            }
            assert(byte & 0x80 == 0 <==> byte < 0x80) by (bit_vector);
            if byte & 0x80 == 0 {
                assert(s.skip(k)[0] == byte);
                assert(varint_len(s) == k + 1);
                return Some(value);
            }
            shift += 7;
            proof {
                k = k + 1;
            }
        }
    }

    /// Takes the next `len` bytes.
    pub fn take(&mut self, len: usize) -> (r: Option<&'a [u8]>)
        ensures
            final(self).buf@ == old(self).buf@,
            old(self).pos <= old(self).buf@.len() ==> final(self).pos <= final(self).buf@.len(),
            if old(self).pos + len <= old(self).buf@.len() {
                &&& r matches Some(data)
                &&& data@ == old(self).buf@.subrange(old(self).pos as int, old(self).pos + len)
                &&& final(self).pos == old(self).pos + len
            } else {
                r is None && final(self).pos == old(self).pos
            },
    {
        assert(self.buf@.len() == self.buf.len());
        let end: usize = self.pos.checked_add(len)?;
        if end > self.buf.len() {
            return None;
        }
        let res = slice_subrange(self.buf, self.pos, end);
        self.pos = end;
        Some(res)
    }

    /// Reads a length and takes that many bytes.
    pub fn length_delimited(&mut self) -> (r: Option<&'a [u8]>)
        ensures
            final(self).buf@ == old(self).buf@,
            old(self).pos <= old(self).buf@.len() ==> final(self).pos <= final(self).buf@.len(),
            match read_bytes(old(self).rest()) {
                Some((data, n)) => {
                    &&& r matches Some(taken)
                    &&& taken@ == data
                    &&& final(self).pos == old(self).pos + n
                },
                None => r is None && final(self).pos == old(self).pos + varint_span(
                    old(self).rest(),
                ),
            },
    {
        let ghost s = self.rest();
        proof {
            lemma_read_varint_len(s);
        }
        let len: usize = self.varint()? as usize;
        let ghost n = self.pos - old(self).pos;
        assert(n + len <= s.len() ==> self.buf@.subrange(self.pos as int, self.pos + len)
            =~= s.subrange(n, n + len));
        self.take(len)
    }

    /// Moves past a value of the given wire type.
    pub fn skip(&mut self, wire_type: u64) -> (r: Option<()>)
        ensures
            final(self).buf@ == old(self).buf@,
            final(self).pos == old(self).pos + skip_span(old(self).rest(), wire_type),
            old(self).pos <= old(self).buf@.len() ==> final(self).pos <= final(self).buf@.len(),
            r is Some <==> read_value(old(self).rest(), wire_type) is Some,
    {
        match wire_type {
            0 => {
                self.varint()?;
            },
            1 => {
                self.take(8)?;
            },
            2 => {
                self.length_delimited()?;
            },
            5 => {
                self.take(4)?;
            },
            _ => return None,
        }
        Some(())
    }
}

/// Appends the shortest varint for `value`.
pub fn write_varint(out: &mut Vec<u8>, value: u64)
    ensures
        final(out)@ == old(out)@ + varint_bytes(value),
{
    let mut left: u64 = value;
    let ghost mut done = Seq::<u8>::empty();
    assert(varint_bytes(value) =~= done + varint_bytes(left));
    loop
        invariant
            out@ == old(out)@ + done,
            varint_bytes(value) == done + varint_bytes(left),
        decreases left,
    {
        if left < 0x80 {
            out.push(left as u8);
            assert(out@ =~= old(out)@ + varint_bytes(value));
            return;
        }
        assert((left as u8 & 0x7f) | 0x80 == (left % 128 + 128) as u8) by (bit_vector);
        assert(left >> 7 == left / 128) by (bit_vector);
        let byte: u8 = (left as u8 & 0x7f) | 0x80;
        out.push(byte);
        proof {
            done = done.push(byte);
            assert(varint_bytes(value) =~= done + varint_bytes(left / 128));
            assert(out@ =~= old(out)@ + done);
        }
        left = left >> 7;
    }
}

/// Appends a field with a length-delimited value.
pub fn write_bytes_field(out: &mut Vec<u8>, field: u64, data: &[u8])
    ensures
        final(out)@ == old(out)@ + bytes_field(field, data@),
{
    assert((field << 3u64) | 2u64 == (field * 8) % 0x1_0000_0000_0000_0000 + 2) by (bit_vector);
    write_varint(out, (field << 3) | 2);
    write_varint(out, data.len() as u64);
    let ghost before = out@;
    out.extend_from_slice(data);
    assert(out@ =~= before + data@);
    assert(out@ =~= old(out)@ + bytes_field(field, data@));
}

} // verus!
