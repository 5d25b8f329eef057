//! Parsing one trace record: `"<r|w> <hex-address>"`.
//!
//! A record is one line of the trace: an operation byte `r` or `w`, a
//! single space, and the accessed address in hexadecimal, at most the
//! 32-bit address width wide. Anything after a further space is ignored.
//! A malformed record is a fatal condition the caller aborts on.

use vstd::prelude::*;

verus! {

/// The two kinds of memory access a trace record can carry.
#[derive(Clone, Copy, Debug, PartialEq, Eq, Structural)]
pub enum Operation {
    Read,
    Write,
}

/// A trace record whose operation code or address cannot be understood.
#[derive(Debug)]
pub struct TraceFormatError;

/// `b` is an ASCII hexadecimal digit.
pub open spec fn is_hex_digit(b: u8) -> bool {
    (0x30 <= b <= 0x39) || (0x41 <= b <= 0x46) || (0x61 <= b <= 0x66)
}

/// The numeric value of one hexadecimal digit.
pub open spec fn hex_digit_value(b: u8) -> int {
    if 0x30 <= b <= 0x39 {
        b - 0x30
    } else if 0x41 <= b <= 0x46 {
        b - 0x41 + 10
    } else {
        b - 0x61 + 10
    }
}

pub open spec fn all_hex(s: Seq<u8>) -> bool {
    forall|i: int| 0 <= i < s.len() ==> is_hex_digit(#[trigger] s[i])
}

/// The value of a big-endian string of hexadecimal digits.
pub open spec fn hex_value(s: Seq<u8>) -> int
    decreases s.len(),
{
    if s.len() == 0 {
        0
    } else {
        16 * hex_value(s.drop_last()) + hex_digit_value(s.last())
    }
}

/// Where the address field of a record ends: at the next space at or
/// after position `i`, or at the end of the line.
pub open spec fn addr_end_from(s: Seq<u8>, i: int) -> int
    decreases s.len() - i,
{
    if i < 0 || i >= s.len() {
        s.len() as int
    } else if s[i] == 32 {
        i
    } else {
        addr_end_from(s, i + 1)
    }
}

pub open spec fn addr_end(s: Seq<u8>) -> int {
    addr_end_from(s, 2)
}

/// The digits of the address field: from after the operation byte and
/// its space up to the next space or the end of the line.
pub open spec fn addr_digits(s: Seq<u8>) -> Seq<u8> {
    s.subrange(2, addr_end(s))
}

/// A well-formed trace record: `r` or `w`, one space, then at least one
/// hexadecimal digit whose value fits the 32-bit address space.
pub open spec fn line_ok(s: Seq<u8>) -> bool {
    &&& s.len() >= 3
    &&& (s[0] == 114 || s[0] == 119)  // 'r' or 'w'
    &&& s[1] == 32  // ' '
    &&& addr_digits(s).len() >= 1
    &&& all_hex(addr_digits(s))
    &&& hex_value(addr_digits(s)) < 0x1_0000_0000
}

/// The operation of a well-formed record.
pub open spec fn line_op(s: Seq<u8>) -> Operation {
    if s[0] == 114 {
        Operation::Read
    } else {
        Operation::Write
    }
}

proof fn lemma_hex_value_mono(s: Seq<u8>, k: int)
    requires
        all_hex(s),
        0 <= k <= s.len(),
    ensures
        hex_value(s) >= hex_value(s.take(k)) >= 0,
    decreases s.len(),
{
    if s.len() == 0 {
    } else if k == s.len() {
        assert(s.take(k) =~= s);
        lemma_hex_value_mono(s.drop_last(), s.len() - 1);
        assert(s.drop_last() =~= s.drop_last().take(s.len() - 1));
    } else {
        let d = s.drop_last();
        assert(forall|i: int| 0 <= i < d.len() ==> d[i] == s[i]);
        assert(all_hex(d));
        lemma_hex_value_mono(d, k);
        assert(d.take(k) =~= s.take(k));
        assert(hex_value(s) == 16 * hex_value(d) + hex_digit_value(s.last()));
        assert(hex_digit_value(s.last()) >= 0);
    }
}

/// Appending one more digit multiplies the prefix value by 16.
proof fn lemma_hex_value_extend(s: Seq<u8>, k: int)
    requires
        all_hex(s),
        0 <= k < s.len(),
    ensures
        hex_value(s) >= 16 * hex_value(s.take(k)),
    decreases s.len(),
{
    let d = s.drop_last();
    assert(forall|i: int| 0 <= i < d.len() ==> d[i] == s[i]);
    assert(all_hex(d));
    if k == s.len() - 1 {
        assert(d =~= s.take(k));
        assert(hex_digit_value(s.last()) >= 0);
    } else {
        lemma_hex_value_extend(d, k);
        assert(d.take(k) =~= s.take(k));
        lemma_hex_value_mono(d, k);
        assert(hex_digit_value(s.last()) >= 0);
    }
}

proof fn lemma_addr_end_skip(s: Seq<u8>, i: int)
    requires
        2 <= i <= s.len(),
        forall|j: int| 2 <= j < i ==> (#[trigger] s[j]) != 32,
    ensures
        addr_end(s) == addr_end_from(s, i),
        decreases i,
{
    if i > 2 {
        lemma_addr_end_skip(s, i - 1);
    }
}

proof fn lemma_addr_end_range(s: Seq<u8>, i: int)
    requires
        0 <= i <= s.len(),
    ensures
        i <= addr_end_from(s, i) <= s.len(),
    decreases s.len() - i,
{
    if i < s.len() && s[i] != 32 {
        lemma_addr_end_range(s, i + 1);
    }
}

/// Parse one trace record. A well-formed record yields its operation and
/// the address value; any other line is a format error.
pub fn parse_trace_line(line: &Vec<u8>) -> (r: Result<(Operation, usize), TraceFormatError>)
    ensures
        (r is Ok) == line_ok(line@),
        line_ok(line@) ==> (r matches Ok(v) && v.0 == line_op(line@) && v.1 as int == hex_value(
            addr_digits(line@),
        ) && (v.1 as int) < 0x1_0000_0000),
{
    let s = line;
    if s.len() < 3 {
        return Err(TraceFormatError);
    }
    let op_byte = s[0];
    if op_byte != 114 && op_byte != 119 {
        return Err(TraceFormatError);
    }
    if s[1] != 32 {
        return Err(TraceFormatError);
    }
    let op = if op_byte == 114 {
        Operation::Read
    } else {
        Operation::Write
    };
    let n = s.len();
    let mut i: usize = 2;
    let mut value: usize = 0;
    while i < n && s[i] != 32
        invariant
            s == line,
            n == s@.len(),
            n >= 3,
            2 <= i <= n,
            forall|j: int| 2 <= j < i ==> (#[trigger] s@[j]) != 32,
            all_hex(s@.subrange(2, i as int)),
            value as int == hex_value(s@.subrange(2, i as int)),
            (value as int) < 0x1_0000_0000,
        decreases n - i,
    {
        let b = s[i];
        let d: usize;
        if 0x30 <= b && b <= 0x39 {
            d = (b - 0x30) as usize;
        } else if 0x41 <= b && b <= 0x46 {
            d = (b - 0x41 + 10) as usize;
        } else if 0x61 <= b && b <= 0x66 {
            d = (b - 0x61 + 10) as usize;
        } else {
            // a non-hexadecimal, non-space byte inside the address field
            proof {
                lemma_addr_end_skip(s@, i as int);
                lemma_addr_end_range(s@, i as int + 1);
                if line_ok(s@) {
                    assert(addr_end(s@) > i as int);
                    assert(addr_digits(s@)[i as int - 2] == s@[i as int]);
                    assert(is_hex_digit(addr_digits(s@)[i as int - 2]));
                    assert(false);
                }
                assert(!line_ok(s@));
            }
            return Err(TraceFormatError);
        }
        if value >= 0x1000_0000 {
            // one more digit would exceed the 32-bit address space
            proof {
                lemma_addr_end_skip(s@, i as int);
                lemma_addr_end_range(s@, i as int + 1);
                if line_ok(s@) {
                    assert(addr_end(s@) > i as int);
                    assert(addr_digits(s@).take(i as int - 2) =~= s@.subrange(2, i as int));
                    lemma_hex_value_extend(addr_digits(s@), i as int - 2);
                    assert(hex_value(addr_digits(s@)) >= 16 * (value as int));
                    assert(false);
                }
                assert(!line_ok(s@));
            }
            return Err(TraceFormatError);
        }
        proof {
            assert(s@.subrange(2, i as int + 1).drop_last() =~= s@.subrange(2, i as int));
            assert(s@.subrange(2, i as int + 1).last() == s@[i as int]);
        }
        value = value * 16 + d;
        i = i + 1;
    }
    proof {
        lemma_addr_end_skip(s@, i as int);
        assert(addr_end(s@) == i as int);
        assert(addr_digits(s@) == s@.subrange(2, i as int));
    }
    if i == 2 {
        // an empty address field
        return Err(TraceFormatError);
    }
    Ok((op, value))
}

} // verus!
