//! What the shim's serial console sends: the bytes of a trace message with
//! each line feed preceded by a carriage return, and hexadecimal values.

use vstd::prelude::*;
use vstd::string::StringSliceAdditionalSpecFns;

verus! {

/// A line feed.
pub const LF: u8 = 10;
/// A carriage return.
pub const CR: u8 = 13;

/// The bytes the UART sends for `message`: each line feed becomes a
/// carriage return followed by the line feed.
pub open spec fn serial_bytes(message: Seq<u8>) -> Seq<u8>
    decreases message.len(),
{
    if message.len() == 0 {
        Seq::empty()
    } else {
        serial_bytes(message.drop_last()) + if message.last() == LF {
            seq![CR, LF]
        } else {
            seq![message.last()]
        }
    }
}

/// The lowercase hexadecimal digit for `n` below 16.
pub open spec fn hex_digit(n: int) -> u8 {
    if n < 10 {
        (48 + n) as u8
    } else {
        (87 + n) as u8
    }
}

/// The last `count` hexadecimal digits of `value`, most significant first.
pub open spec fn hex_digits(value: int, count: nat) -> Seq<u8>
    decreases count,
{
    if count == 0 {
        Seq::empty()
    } else {
        hex_digits(value / 16, (count - 1) as nat).push(hex_digit(value % 16))
    }
}

/// The bytes to send for a trace message.
pub fn write_str(message: &str) -> (bytes: Vec<u8>)
    ensures
        bytes@ == serial_bytes(message.spec_bytes()),
{
    let data = message.as_bytes();
    let mut out: Vec<u8> = Vec::new();
    let mut i: usize = 0;
    while i < data.len()
        invariant
            i <= data@.len(),
            data@ == message.spec_bytes(),
            out@ == serial_bytes(data@.subrange(0, i as int)),
        decreases data@.len() - i,
    {
        let byte = data[i];
        if byte == LF {
            out.push(CR);
        }
        out.push(byte);
        proof {
            let next = data@.subrange(0, i + 1);
            assert(next.drop_last() =~= data@.subrange(0, i as int));
            assert(next.last() == byte);
            if byte == LF {
                assert(out@ =~= serial_bytes(data@.subrange(0, i as int)) + seq![CR, LF]);
            } else {
                assert(out@ =~= serial_bytes(data@.subrange(0, i as int)) + seq![byte]);
            }
        }
        i += 1;
    }
    assert(data@.subrange(0, data@.len() as int) =~= data@);
    out
}

/// Appends the last `count` hexadecimal digits of `value`.
fn push_hex_digits(out: &mut Vec<u8>, value: usize, count: u32)
    ensures
        final(out)@ == old(out)@ + hex_digits(value as int, count as nat),
    decreases count,
{
    if count == 0 {
        assert(old(out)@ + hex_digits(value as int, 0) =~= old(out)@);
        return;
    }
    push_hex_digits(out, value / 16, count - 1);
    let nibble = (value % 16) as u8;
    let digit = if nibble < 10 {
        48 + nibble
    } else {
        87 + nibble
    };
    out.push(digit);
    assert(out@ =~= old(out)@ + hex_digits(value as int, count as nat));
}

/// The bytes to send for a labelled value: the label, `0x`, one lowercase
/// hexadecimal digit per four bits of `usize`, and a line end.
pub fn write_hex(label: &str, value: usize) -> (bytes: Vec<u8>)
    ensures
        bytes@ == serial_bytes(label.spec_bytes()) + seq![48u8, 120u8] + hex_digits(
            value as int,
            (usize::BITS / 4) as nat,
        ) + seq![CR, LF],
{
    let mut out = write_str(label);
    out.push(48);
    out.push(120);
    push_hex_digits(&mut out, value, usize::BITS / 4);
    out.push(CR);
    out.push(LF);
    assert(out@ =~= serial_bytes(label.spec_bytes()) + seq![48u8, 120u8] + hex_digits(
        value as int,
        (usize::BITS / 4) as nat,
    ) + seq![CR, LF]);
    out
}

} // verus!
