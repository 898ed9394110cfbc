//! Records of the checksummed hexadecimal line format: a colon, then the
//! payload length, the address, the record type, the payload and the
//! checksum, each as fixed-width lowercase hexadecimal.
use vstd::prelude::*;
use vstd::string::*;
use vstd::arithmetic::div_mod::{
    lemma_add_mod_noop,
    lemma_mod_breakdown,
    lemma_mod_mod,
    lemma_mod_multiples_vanish,
    lemma_small_mod,
};

verus! {

/// The kind of a record.
#[derive(Clone, Copy, Debug, PartialEq, Eq)]
pub enum HexRecordType {
    Data,
    EndOfFile,
    ExtendedSegmentAddress,
    StartSegmentAddress,
    ExtendedLinearAddress,
    StartLinearAddress,
}

impl HexRecordType {
    /// The numeric code of the kind in a record line.
    pub open spec fn spec_code(self) -> u8 {
        match self {
            HexRecordType::Data => 0,
            HexRecordType::EndOfFile => 1,
            HexRecordType::ExtendedSegmentAddress => 2,
            HexRecordType::StartSegmentAddress => 3,
            HexRecordType::ExtendedLinearAddress => 4,
            HexRecordType::StartLinearAddress => 5,
        }
    }

    /// The numeric code of the kind in a record line.
    pub fn code(&self) -> (r: u8)
        ensures
            r == self.spec_code(),
    {
        match self {
            HexRecordType::Data => 0,
            HexRecordType::EndOfFile => 1,
            HexRecordType::ExtendedSegmentAddress => 2,
            HexRecordType::StartSegmentAddress => 3,
            HexRecordType::ExtendedLinearAddress => 4,
            HexRecordType::StartLinearAddress => 5,
        }
    }
}

/// One record: its kind, a 16-bit address and a payload.
#[derive(Debug)]
pub struct HexRecord {
    pub typ: HexRecordType,
    pub addr: u16,
    pub data: Vec<u8>,
}

/// The sum of the bytes of `s`.
pub open spec fn bytes_sum(s: Seq<u8>) -> int
    decreases s.len(),
{
    if s.len() == 0 {
        0
    } else {
        bytes_sum(s.drop_last()) + s.last()
    }
}

/// The sum that the checksum covers: the two address bytes, the type code,
/// the payload length and the payload bytes.
pub open spec fn record_sum(code: u8, addr: u16, data: Seq<u8>) -> int {
    addr % 256 + addr / 256 + code + data.len() + bytes_sum(data)
}

/// The checksum of a sum: the low byte of its two's complement.
pub open spec fn checksum_of(sum: int) -> u8 {
    ((256 - sum % 256) % 256) as u8
}

/// One step of a 16-bit wrapping sum keeps its low byte in step with the
/// exact sum.
proof fn lemma_wrap_step(r: int, before: int, x: int, p: int, y: int)
    requires
        r == before + x || r == before + x - 65536,
        before % 256 == p % 256,
        x % 256 == y % 256,
    ensures
        r % 256 == (p + y) % 256,
{
    lemma_add_mod_noop(before, x, 256);
    lemma_add_mod_noop(p, y, 256);
    if r != before + x {
        lemma_mod_multiples_vanish(-256, before + x, 256);
    }
}

/// The lowercase hexadecimal digits, by value.
pub open spec fn hex_chars() -> Seq<char> {
    seq!['0', '1', '2', '3', '4', '5', '6', '7', '8', '9', 'a', 'b', 'c', 'd', 'e', 'f']
}

/// The `width` low hexadecimal digits of `v`, most significant first.
pub open spec fn hex_field(v: nat, width: nat) -> Seq<char>
    decreases width,
{
    if width == 0 {
        seq![]
    } else {
        hex_field(v / 16, (width - 1) as nat).push(hex_chars()[(v % 16) as int])
    }
}

/// Two hexadecimal digits for each byte of `data`, in order.
pub open spec fn data_hex(data: Seq<u8>) -> Seq<char>
    decreases data.len(),
{
    if data.len() == 0 {
        seq![]
    } else {
        data_hex(data.drop_last()) + hex_field(data.last() as nat, 2)
    }
}

/// The record line of a record with type code `code`, address `addr` and
/// payload `data`.
pub open spec fn record_line(code: u8, addr: u16, data: Seq<u8>) -> Seq<char> {
    seq![':'] + hex_field(data.len() % 256, 2) + hex_field(addr as nat, 4) + hex_field(
        code as nat,
        2,
    ) + data_hex(data) + hex_field(checksum_of(record_sum(code, addr, data)) as nat, 2)
}

/// The value of a lowercase hexadecimal digit.
pub open spec fn digit_value(c: char) -> nat {
    if '0' <= c && c <= '9' {
        (c as nat - 48) as nat
    } else if 'a' <= c && c <= 'f' {
        (c as nat - 87) as nat
    } else {
        0
    }
}

/// The value of a string of hexadecimal digits, most significant first.
pub open spec fn hex_value(s: Seq<char>) -> nat
    decreases s.len(),
{
    if s.len() == 0 {
        0
    } else {
        16 * hex_value(s.drop_last()) + digit_value(s.last())
    }
}

/// Sixteen to the power `w`.
pub open spec fn pow16(w: nat) -> nat
    decreases w,
{
    if w == 0 {
        1
    } else {
        16 * pow16((w - 1) as nat)
    }
}

/// The fields read back from a record line: type code, address, payload and
/// checksum byte; `None` where the line does not have the shape of one.
pub open spec fn parse_line(line: Seq<char>) -> Option<(u8, u16, Seq<u8>, u8)> {
    if line.len() >= 11 && line[0] == ':' && (line.len() - 11) % 2 == 0 && hex_value(
        line.subrange(1, 3),
    ) == (line.len() - 11) / 2 {
        let n = (line.len() - 11) / 2;
        Some(
            (
                hex_value(line.subrange(7, 9)) as u8,
                hex_value(line.subrange(3, 7)) as u16,
                Seq::new(n as nat, |i: int| hex_value(line.subrange(9 + 2 * i, 11 + 2 * i)) as u8),
                hex_value(line.subrange(line.len() - 2, line.len() as int)) as u8,
            ),
        )
    } else {
        None
    }
}

proof fn lemma_hex_field(v: nat, w: nat)
    ensures
        hex_field(v, w).len() == w,
        hex_value(hex_field(v, w)) == v % pow16(w),
    decreases w,
{
    if w == 0 {
        assert(v % 1 == 0);
    } else {
        let w1 = (w - 1) as nat;
        lemma_hex_field(v / 16, w1);
        let d = v % 16;
        let f = hex_field(v / 16, w1);
        assert(hex_field(v, w).drop_last() =~= f);
        assert(digit_value(hex_chars()[d as int]) == d);
        lemma_pow16_pos(w1);
        lemma_mod_breakdown(v as int, 16, pow16(w1) as int);
    }
}

proof fn lemma_pow16_pos(w: nat)
    ensures
        pow16(w) > 0,
    decreases w,
{
    if w > 0 {
        lemma_pow16_pos((w - 1) as nat);
    }
}

/// A field of `w` digits reads back as the value it was written from.
proof fn lemma_hex_field_exact(v: nat, w: nat)
    requires
        v < pow16(w),
    ensures
        hex_field(v, w).len() == w,
        hex_value(hex_field(v, w)) == v,
{
    lemma_hex_field(v, w);
    lemma_small_mod(v, pow16(w));
}

proof fn lemma_pow16_values()
    ensures
        pow16(2) == 256,
        pow16(4) == 65536,
{
    assert(pow16(0) == 1);
    assert(pow16(1) == 16);
    assert(pow16(2) == 256);
    assert(pow16(3) == 4096);
    assert(pow16(4) == 65536);
}

proof fn lemma_data_hex(data: Seq<u8>)
    ensures
        data_hex(data).len() == 2 * data.len(),
        forall|i: int|
            0 <= i < data.len() ==> #[trigger] data_hex(data).subrange(2 * i, 2 * i + 2)
                == hex_field(data[i] as nat, 2),
    decreases data.len(),
{
    if data.len() > 0 {
        let d = data.drop_last();
        lemma_data_hex(d);
        lemma_hex_field(data.last() as nat, 2);
        let whole = data_hex(data);
        assert forall|i: int| 0 <= i < data.len() implies #[trigger] whole.subrange(
            2 * i,
            2 * i + 2,
        ) == hex_field(data[i] as nat, 2) by {
            if i < d.len() {
                assert(whole.subrange(2 * i, 2 * i + 2) =~= data_hex(d).subrange(2 * i, 2 * i + 2));
                assert(d[i] == data[i]);
            } else {
                assert(whole.subrange(2 * i, 2 * i + 2) =~= hex_field(data.last() as nat, 2));
            }
        }
    }
}

/// A record with at most 255 payload bytes reads back from its line with
/// the same type code, address and payload, and the checksum recomputed
/// over the fields read back is the checksum byte at the end of the line.
pub proof fn lemma_checksum_round_trip(r: &HexRecord)
    requires
        r.data@.len() <= 255,
    ensures
        parse_line(r.spec_line()) == Some(
            (r.typ.spec_code(), r.addr, r.data@, r.spec_checksum()),
        ),
        parse_line(r.spec_line()) matches Some((c, a, d, k)) && k == checksum_of(
            record_sum(c, a, d),
        ) && k == r.spec_checksum(),
{
    let data = r.data@;
    let n = data.len();
    let code = r.typ.spec_code();
    let ck = r.spec_checksum();
    lemma_pow16_values();
    let f_len = hex_field(n % 256, 2);
    let f_addr = hex_field(r.addr as nat, 4);
    let f_code = hex_field(code as nat, 2);
    let f_data = data_hex(data);
    let f_ck = hex_field(ck as nat, 2);
    lemma_hex_field_exact(n % 256, 2);
    lemma_hex_field_exact(r.addr as nat, 4);
    lemma_hex_field_exact(code as nat, 2);
    lemma_hex_field_exact(ck as nat, 2);
    lemma_data_hex(data);
    let line = r.spec_line();
    assert(line =~= seq![':'] + f_len + f_addr + f_code + f_data + f_ck);
    assert(line.len() == 11 + 2 * n);
    assert(line.subrange(1, 3) =~= f_len);
    assert(line.subrange(3, 7) =~= f_addr);
    assert(line.subrange(7, 9) =~= f_code);
    assert(line.subrange(line.len() - 2, line.len() as int) =~= f_ck);
    assert(n % 256 == n);
    let read = Seq::new(n, |i: int| hex_value(line.subrange(9 + 2 * i, 11 + 2 * i)) as u8);
    assert forall|i: int| 0 <= i < n implies read[i] == data[i] by {
        assert(line.subrange(9 + 2 * i, 11 + 2 * i) =~= f_data.subrange(2 * i, 2 * i + 2));
        lemma_hex_field_exact(data[i] as nat, 2);
    }
    assert(read =~= data);
}

/// The single-character string of the digit `d`.
fn digit_str(d: u8) -> (r: &'static str)
    requires
        d < 16,
    ensures
        r@ == seq![hex_chars()[d as int]],
{
    let digits = "0123456789abcdef";
    proof {
        reveal_strlit("0123456789abcdef");
        assert(digits@ =~= hex_chars());
        assert(digits.is_ascii());
    }
    let r = digits.substring_ascii(d as usize, d as usize + 1);
    proof {
        assert(r@ =~= seq![hex_chars()[d as int]]);
    }
    r
}

/// Appends the `width` low hexadecimal digits of `v` to `line`.
fn push_hex(line: &mut String, v: u64, width: u32)
    ensures
        final(line)@ == old(line)@ + hex_field(v as nat, width as nat),
    decreases width,
{
    if width > 0 {
        push_hex(line, v / 16, width - 1);
        let s = digit_str((v % 16) as u8);
        line.append(s);
        proof {
            assert(final(line)@ =~= old(line)@ + hex_field(v as nat, width as nat));
        }
    }
}

impl HexRecord {
    /// The checksum of the record.
    pub open spec fn spec_checksum(&self) -> u8 {
        checksum_of(record_sum(self.typ.spec_code(), self.addr, self.data@))
    }

    /// The record's line.
    pub open spec fn spec_line(&self) -> Seq<char> {
        record_line(self.typ.spec_code(), self.addr, self.data@)
    }

    /// The checksum byte of the record: the low byte of the two's
    /// complement of the sum, with 16-bit wraparound, of the address bytes,
    /// the type code, the payload length and the payload bytes.
    pub fn checksum(&self) -> (r: u8)
        ensures
            r == self.spec_checksum(),
    {
        let mut ret: u16 = 0;
        let code = self.typ.code() as u16;
        let n = self.data.len();
        let a = self.addr;
        let ghost before = ret;
        ret = ret.wrapping_add(a);
        proof {
            lemma_wrap_step(ret as int, before as int, a as int, 0, a as int % 256);
        }
        let ghost before = ret;
        ret = ret.wrapping_add(code);
        proof {
            lemma_wrap_step(ret as int, before as int, code as int, a as int % 256, code as int);
        }
        let ghost before = ret;
        let high = a >> 8;
        proof {
            assert(high == a / 256) by (bit_vector)
                requires
                    high == a >> 8,
            ;
        }
        ret = ret.wrapping_add(high);
        proof {
            lemma_wrap_step(
                ret as int,
                before as int,
                high as int,
                a as int % 256 + code,
                a as int / 256,
            );
        }
        let ghost before = ret;
        let len16 = (n % 65536) as u16;
        ret = ret.wrapping_add(len16);
        proof {
            assert(256 * 256 == 65536);
            lemma_mod_mod(n as int, 256, 256);
            lemma_wrap_step(
                ret as int,
                before as int,
                len16 as int,
                a as int % 256 + code + a as int / 256,
                n as int,
            );
            assert(bytes_sum(self.data@.take(0)) == 0);
        }
        let mut i: usize = 0;
        while i < n
            invariant
                n == self.data@.len(),
                i <= n,
                ret as int % 256 == (self.addr % 256 + self.addr / 256 + code + n + bytes_sum(
                    self.data@.take(i as int),
                )) % 256,
            decreases n - i,
        {
            let ghost before = ret;
            let x = self.data[i] as u16;
            ret = ret.wrapping_add(x);
            proof {
                let d = self.data@;
                assert(d.take(i + 1).drop_last() =~= d.take(i as int));
                let s = self.addr % 256 + self.addr / 256 + code + n;
                lemma_wrap_step(
                    ret as int,
                    before as int,
                    x as int,
                    s + bytes_sum(d.take(i as int)),
                    x as int,
                );
            }
            i = i + 1;
        }
        let twos = (ret ^ 0xffff).wrapping_add(1);
        proof {
            assert(self.data@.take(n as int) =~= self.data@);
            let x = ret ^ 0xffffu16;
            let low = ret & 0xffu16;
            assert(low <= 0xffu16) by (bit_vector)
                requires
                    low == ret & 0xffu16,
            ;
            let v = (0x100u16 - low) as u16;
            assert(0xffu16 & twos == v & 0xffu16) by (bit_vector)
                requires
                    x == ret ^ 0xffffu16,
                    low == ret & 0xffu16,
                    v == (0x100u16 - low) as u16,
                    x == 0xffffu16 ==> twos == 0u16,
                    x < 0xffffu16 ==> twos == (x + 1) as u16,
            ;
            assert(low == ret % 256) by (bit_vector)
                requires
                    low == ret & 0xffu16,
            ;
            assert(v & 0xffu16 == v % 256) by (bit_vector);
        }
        (0xff & twos) as u8
    }

    /// The record's line: `:`, two digits of payload length, four of address,
    /// two of type, two per payload byte and two of checksum, in lowercase.
    pub fn render(&self) -> (r: String)
        ensures
            r@ == self.spec_line(),
    {
        let mut line = String::from_str(":");
        proof {
            reveal_strlit(":");
        }
        push_hex(&mut line, (self.data.len() % 256) as u64, 2);
        push_hex(&mut line, self.addr as u64, 4);
        push_hex(&mut line, self.typ.code() as u64, 2);
        let ghost head = line@;
        let mut i: usize = 0;
        while i < self.data.len()
            invariant
                i <= self.data@.len(),
                line@ == head + data_hex(self.data@.take(i as int)),
            decreases self.data@.len() - i,
        {
            push_hex(&mut line, self.data[i] as u64, 2);
            proof {
                let d = self.data@;
                assert(d.take(i + 1).drop_last() =~= d.take(i as int));
            }
            i = i + 1;
        }
        proof {
            assert(self.data@.take(self.data@.len() as int) =~= self.data@);
        }
        let c = self.checksum();
        push_hex(&mut line, c as u64, 2);
        proof {
            assert(line@ =~= self.spec_line());
        }
        line
    }
}

} // verus!
