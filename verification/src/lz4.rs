//! Decoding of raw LZ4 blocks, the format in which the assembler stores the
//! kernel for the shim.

use vstd::prelude::*;

verus! {

/// The length that a sequence's 4-bit `base` field and the extension bytes
/// at `pos` encode, with the position after them. A field below 15 is the
/// length itself; 15 is followed by bytes that are added until one is not
/// 255. `None` when the bytes run out or the sum overflows `usize`.
pub open spec fn lz4_length(input: Seq<u8>, pos: int, base: int) -> Option<(int, int)> {
    if base != 15 {
        Some((base, pos))
    } else {
        lz4_extension(input, pos, base)
    }
}

/// The extension bytes from `pos` added to `sum`.
pub open spec fn lz4_extension(input: Seq<u8>, pos: int, sum: int) -> Option<(int, int)>
    decreases input.len() - pos,
{
    if pos < 0 || pos >= input.len() {
        None
    } else if sum + input[pos] > usize::MAX {
        None
    } else if input[pos] != 255 {
        Some((sum + input[pos], pos + 1))
    } else {
        lz4_extension(input, pos + 1, sum + input[pos])
    }
}

/// Extension bytes from `pos` that are `k - 1` bytes of 255 and then one
/// byte below 255 add up, with `sum`, to `sum + 255 * (k - 1)` plus that
/// last byte.
proof fn lemma_extension_adds_bytes(input: Seq<u8>, pos: int, sum: int, k: int)
    requires
        0 <= pos,
        0 <= sum,
        1 <= k,
        pos + k <= input.len(),
        forall|i: int| pos <= i < pos + k - 1 ==> input[i] == 255,
        input[pos + k - 1] < 255,
        sum + 255 * (k - 1) + input[pos + k - 1] <= usize::MAX,
    ensures
        lz4_extension(input, pos, sum) == Some((sum + 255 * (k - 1) + input[pos + k - 1], pos + k)),
    decreases k,
{
    if k > 1 {
        lemma_extension_adds_bytes(input, pos + 1, sum + 255, k - 1);
    }
}

/// A length field of 15 followed by `k - 1` extension bytes of 255 and a
/// last extension byte below 255 encodes 15 plus all the extension bytes,
/// and the sequence goes on after them; a field below 15 is the length
/// itself, with no extension bytes.
pub proof fn lemma_lz4_length_value(input: Seq<u8>, pos: int, base: int, k: int)
    requires
        0 <= pos,
        0 <= base < 16,
        base == 15 ==> {
            &&& 1 <= k
            &&& pos + k <= input.len()
            &&& forall|i: int| pos <= i < pos + k - 1 ==> input[i] == 255
            &&& input[pos + k - 1] < 255
            &&& 15 + 255 * (k - 1) + input[pos + k - 1] <= usize::MAX
        },
    ensures
        base < 15 ==> lz4_length(input, pos, base) == Some((base, pos)),
        base == 15 ==> lz4_length(input, pos, base) == Some((15 + 255 * (k - 1) + input[pos + k - 1], pos + k)),
{
    if base == 15 {
        lemma_extension_adds_bytes(input, pos, 15, k);
    }
}

/// A block of one sequence made only of literals decodes to those
/// literals: a token of `15 << 4` followed by extension bytes (`k - 1`
/// bytes of 255, then one below 255) that add up, with 15, to the number of
/// literals, then the literals themselves.
pub proof fn lemma_literal_run_decodes(literals: Seq<u8>, extension: Seq<u8>, capacity: int)
    requires
        extension.len() >= 1,
        forall|i: int| 0 <= i < extension.len() - 1 ==> extension[i] == 255,
        extension.last() < 255,
        literals.len() == 15 + 255 * (extension.len() - 1) + extension.last(),
        literals.len() <= capacity,
        1 + extension.len() + literals.len() <= usize::MAX,
    ensures
        spec_decompress_lz4_block(seq![0xf0u8] + extension + literals, capacity) == Some(literals),
{
    let input = seq![0xf0u8] + extension + literals;
    let k = extension.len() as int;
    assert forall|i: int| 1 <= i < 1 + k - 1 implies input[i] == 255 by {
        assert(input[i] == extension[i - 1]);
    }
    assert(input[1 + k - 1] == extension.last());
    assert(input[0] == 0xf0u8);
    lemma_lz4_length_value(input, 1, 15, k);
    assert(input.subrange(1 + k, input.len() as int) =~= literals);
    assert(Seq::<u8>::empty() + literals =~= literals);
}

/// `produced` followed by `len` bytes copied from `offset` bytes back,
/// where the copy may read bytes it has itself just written: the last
/// `offset` bytes repeat.
pub open spec fn lz4_match(produced: Seq<u8>, offset: int, len: int) -> Seq<u8> {
    let n = produced.len() as int;
    Seq::new((n + len) as nat, |i: int| if i < n { produced[i] } else { produced[n - offset + (i - n) % offset] })
}

/// A match keeps what was produced and appends `len` bytes, each a copy of
/// the byte `offset` places before it.
pub proof fn lemma_lz4_match_copies(produced: Seq<u8>, offset: int, len: int)
    requires
        0 < offset <= produced.len(),
        0 <= len,
    ensures
        lz4_match(produced, offset, len).len() == produced.len() + len,
        lz4_match(produced, offset, len).subrange(0, produced.len() as int) == produced,
        forall|i: int|
            produced.len() <= i < produced.len() + len ==> #[trigger] lz4_match(produced, offset, len)[i]
                == lz4_match(produced, offset, len)[i - offset],
{
    let r = lz4_match(produced, offset, len);
    let n = produced.len() as int;
    assert(r.subrange(0, n) =~= produced);
    assert forall|i: int| n <= i < n + len implies #[trigger] r[i] == r[i - offset] by {
        if i - offset < n {
            assert((i - n) % offset == i - n) by (nonlinear_arith)
                requires
                    0 <= i - n < offset,
            ;
        } else {
            assert((i - n) % offset == (i - offset - n) % offset) by (nonlinear_arith)
                requires
                    0 < offset,
                    i - offset - n >= 0,
            {
                vstd::arithmetic::div_mod::lemma_mod_add_multiples_vanish(i - offset - n, offset);
            }
        }
    }
}

/// Decodes the sequences of an LZ4 block from `pos`, appending to
/// `produced` without ever exceeding `capacity` bytes. Returns what has been
/// produced and whether the block decoded completely; on failure, what was
/// produced before the failing sequence.
pub open spec fn lz4_decode(input: Seq<u8>, pos: int, produced: Seq<u8>, capacity: int) -> (Seq<u8>, bool)
    decreases input.len() - pos,
{
    if pos < 0 || pos >= input.len() {
        (produced, true)
    } else {
        let token = input[pos];
        proof {
            lemma_lz4_length(input, pos + 1, (token / 16) as int);
        }
        match lz4_length(input, pos + 1, (token / 16) as int) {
            None => (produced, false),
            Some((literal_len, literal_start)) => {
                let literal_end = literal_start + literal_len;
                let output_literal_end = produced.len() + literal_len;
                if literal_end > usize::MAX || output_literal_end > usize::MAX || literal_end > input.len()
                    || output_literal_end > capacity || literal_start <= pos {
                    (produced, false)
                } else {
                    let with_literals = produced + input.subrange(literal_start, literal_end);
                    if literal_end == input.len() {
                        (with_literals, true)
                    } else if literal_end + 2 > input.len() {
                        (with_literals, false)
                    } else {
                        let offset = input[literal_end] + input[literal_end + 1] * 256;
                        if offset == 0 || offset > with_literals.len() {
                            (with_literals, false)
                        } else {
                            proof {
                                lemma_lz4_length(input, literal_end + 2, (token % 16) as int);
                            }
                            match lz4_length(input, literal_end + 2, (token % 16) as int) {
                                None => (with_literals, false),
                                Some((extra, next)) => {
                                    let match_len = extra + 4;
                                    let match_end = with_literals.len() + match_len;
                                    if match_len > usize::MAX || match_end > usize::MAX || match_end > capacity
                                        || next < literal_end + 2 || next > input.len() {
                                        (with_literals, false)
                                    } else {
                                        proof {
                                            assert(pos < next <= input.len());
                                        }
                                        lz4_decode(input, next, lz4_match(with_literals, offset, match_len), capacity)
                                    }
                                },
                            }
                        }
                    }
                }
            },
        }
    }
}

/// What decoding a whole block into a buffer of `capacity` bytes gives:
/// the decoded bytes, or `None` when the block is malformed or does not
/// fit.
pub open spec fn spec_decompress_lz4_block(input: Seq<u8>, capacity: int) -> Option<Seq<u8>> {
    let (produced, complete) = lz4_decode(input, 0, Seq::empty(), capacity);
    if complete {
        Some(produced)
    } else {
        None
    }
}

/// An LZ4 length extension adds its bytes to the base length.
pub proof fn lemma_lz4_length(input: Seq<u8>, pos: int, base: int)
    requires
        0 <= base < 16,
    ensures
        lz4_length(input, pos, base) matches Some((len, next)) ==> pos <= next && 0 <= base <= len <= usize::MAX && (
        next == pos || next <= input.len()),
{
    if base == 15 {
        lemma_lz4_extension(input, pos, base);
    }
}

/// The extension bytes of an LZ4 length stay within bounds as they add up.
pub proof fn lemma_lz4_extension(input: Seq<u8>, pos: int, sum: int)
    requires
        0 <= sum,
    ensures
        lz4_extension(input, pos, sum) matches Some((len, next)) ==> pos < next <= input.len() && sum <= len <= usize::MAX,
    decreases input.len() - pos,
{
    if !(pos < 0 || pos >= input.len()) && !(sum + input[pos] > usize::MAX) && input[pos] == 255 {
        lemma_lz4_extension(input, pos + 1, sum + input[pos]);
    }
}

/// Reads a sequence length whose 4-bit field is `len`, advancing
/// `*input_pos` over any extension bytes.
pub fn read_lz4_length(input: &[u8], input_pos: &mut usize, len: usize) -> (length: Option<usize>)
    requires
        len < 16,
    ensures
        match lz4_length(input@, *old(input_pos) as int, len as int) {
            None => length is None,
            Some((l, next)) => length == Some(l as usize) && *final(input_pos) == next,
        },
{
    if len != 15 {
        return Some(len);
    }
    let mut total = len;
    let ghost first = *input_pos;
    proof {
        lemma_lz4_extension(input@, first as int, 15);
    }
    loop
        invariant
            first == *old(input_pos),
            lz4_extension(input@, *input_pos as int, total as int) == lz4_length(input@, first as int, 15),
            len == 15,
            first <= *input_pos,
        decreases input@.len() - *input_pos,
    {
        let pos = *input_pos;
        if pos >= input.len() {
            return None;
        }
        let extra = input[pos];
        *input_pos = pos + 1;
        total = match total.checked_add(extra as usize) {
            Some(sum) => sum,
            None => return None,
        };
        if extra != 255 {
            return Some(total);
        }
    }
}

/// Appends `len` bytes to `output[..output_pos]`, copied from `offset`
/// bytes back; the copy may overlap what it writes.
pub fn copy_lz4_match(output: &mut [u8], output_pos: usize, offset: usize, len: usize)
    requires
        0 < offset <= output_pos,
        output_pos + len <= old(output)@.len(),
    ensures
        final(output)@.len() == old(output)@.len(),
        final(output)@.subrange(0, output_pos + len) == lz4_match(old(output)@.subrange(0, output_pos as int), offset as int, len as int),
        forall|i: int| output_pos + len <= i < final(output)@.len() ==> final(output)@[i] == old(output)@[i],
{
    let total = output.len();
    let ghost produced = output@.subrange(0, output_pos as int);
    let ghost target = lz4_match(produced, offset as int, len as int);
    let mut copied: usize = 0;
    while copied < len
        invariant
            0 < offset <= output_pos,
            output_pos + len <= output@.len(),
            output_pos + len <= usize::MAX,
            output@.len() == old(output)@.len(),
            produced == old(output)@.subrange(0, output_pos as int),
            target == lz4_match(produced, offset as int, len as int),
            copied <= len,
            forall|i: int| 0 <= i < output_pos + copied ==> output@[i] == target[i],
            forall|i: int| output_pos + copied <= i < output@.len() ==> output@[i] == old(output)@[i],
        decreases len - copied,
    {
        let ghost k = copied as int;
        proof {
            let n = output_pos as int;
            let o = offset as int;
            if k >= o {
                assert((k - o) % o == k % o) by (nonlinear_arith)
                    requires
                        k >= o,
                        o > 0,
                ;
            } else {
                assert(k % o == k) by (nonlinear_arith)
                    requires
                        0 <= k < o,
                ;
            }
            assert(0 <= k % o < o) by (nonlinear_arith)
                requires
                    o > 0,
                    k >= 0,
            ;
            let src = n - o + k;
            assert(0 <= src < n + k);
            assert(output@[src] == target[src]);
            if k >= o {
                assert(target[src] == produced[n - o + (k - o) % o]);
            } else {
                assert(target[src] == produced[src]);
            }
            assert(target[n + k] == produced[n - o + k % o]);
        }
        output[output_pos + copied] = output[output_pos - offset + copied];
        copied += 1;
    }
    assert(output@.subrange(0, output_pos + len) =~= target);
}

/// Decodes one raw LZ4 block from `input` into the front of `output`.
/// Returns the number of bytes produced, or `None` when the block is
/// malformed or would overrun `output`. Bytes past what was produced keep
/// their old values.
pub fn decompress_lz4_block(input: &[u8], output: &mut [u8]) -> (written: Option<usize>)
    ensures
        final(output)@.len() == old(output)@.len(),
        ({
            let (produced, complete) = lz4_decode(input@, 0, Seq::empty(), old(output)@.len() as int);
            &&& produced.len() <= old(output)@.len()
            &&& final(output)@ == produced + old(output)@.subrange(produced.len() as int, old(output)@.len() as int)
            &&& written == if complete {
                Some(produced.len() as usize)
            } else {
                None::<usize>
            }
        }),
{
    let capacity = output.len();
    decompress_lz4_block_within(input, output, capacity)
}

/// Like `decompress_lz4_block`, but never writes past `capacity`.
pub fn decompress_lz4_block_within(input: &[u8], output: &mut [u8], capacity: usize) -> (written: Option<usize>)
    requires
        capacity <= old(output)@.len(),
    ensures
        final(output)@.len() == old(output)@.len(),
        ({
            let (produced, complete) = lz4_decode(input@, 0, Seq::empty(), capacity as int);
            &&& produced.len() <= capacity
            &&& final(output)@ == produced + old(output)@.subrange(produced.len() as int, old(output)@.len() as int)
            &&& written == if complete {
                Some(produced.len() as usize)
            } else {
                None::<usize>
            }
        }),
{
    let ghost whole = lz4_decode(input@, 0, Seq::empty(), capacity as int);
    let ghost total = output@.len() as int;
    let mut input_pos: usize = 0;
    let mut output_pos: usize = 0;
    proof {
        assert(output@.subrange(0, 0) =~= Seq::<u8>::empty());
    }
    while input_pos < input.len()
        invariant
            total == old(output)@.len(),
            output@.len() == total,
            capacity <= total,
            output_pos <= capacity,
            whole == lz4_decode(input@, 0, Seq::empty(), capacity as int),
            lz4_decode(input@, input_pos as int, output@.subrange(0, output_pos as int), capacity as int) == whole,
            forall|i: int| output_pos <= i < total ==> output@[i] == old(output)@[i],
        decreases input@.len() - input_pos,
    {
        let ghost produced = output@.subrange(0, output_pos as int);
        let ghost sequence_start = input_pos as int;
        let token = input[input_pos];
        input_pos += 1;
        proof {
            lemma_lz4_length(input@, input_pos as int, (token / 16) as int);
        }
        let literal_len = match read_lz4_length(input, &mut input_pos, (token / 16) as usize) {
            Some(len) => len,
            None => {
                proof {
                    assert(output@ =~= produced + old(output)@.subrange(produced.len() as int, total));
                }
                return None;
            },
        };
        let literal_end = input_pos.checked_add(literal_len);
        let output_literal_end = output_pos.checked_add(literal_len);
        if literal_end.is_none() || output_literal_end.is_none() {
            proof {
                assert(output@ =~= produced + old(output)@.subrange(produced.len() as int, total));
            }
            return None;
        }
        let literal_end = literal_end.unwrap();
        let output_literal_end = output_literal_end.unwrap();
        if literal_end > input.len() || output_literal_end > capacity {
            proof {
                assert(output@ =~= produced + old(output)@.subrange(produced.len() as int, total));
            }
            return None;
        }
        let ghost literal_start = input_pos;
        while input_pos < literal_end
            invariant
                literal_start <= input_pos <= literal_end <= input@.len(),
                output_pos + (literal_end - input_pos) == output_literal_end,
                output_literal_end <= capacity,
                capacity <= total,
                output@.len() == total,
                output@.subrange(0, output_pos as int) == produced + input@.subrange(literal_start as int, input_pos as int),
                forall|i: int| output_pos <= i < total ==> output@[i] == old(output)@[i],
            decreases literal_end - input_pos,
        {
            let ghost before = output@;
            output[output_pos] = input[input_pos];
            proof {
                assert(output@.subrange(0, output_pos + 1) =~= before.subrange(0, output_pos as int).push(input@[input_pos as int]));
                assert(input@.subrange(literal_start as int, input_pos + 1) =~= input@.subrange(literal_start as int, input_pos as int).push(input@[input_pos as int]));
            }
            output_pos += 1;
            input_pos += 1;
        }
        let ghost with_literals = output@.subrange(0, output_pos as int);
        proof {
            assert(lz4_length(input@, sequence_start + 1, (token / 16) as int) == Some((literal_len as int, literal_start as int)));
            assert(with_literals == produced + input@.subrange(literal_start as int, literal_end as int));
        }
        if input_pos == input.len() {
            proof {
                assert(lz4_decode(input@, sequence_start, produced, capacity as int) == (with_literals, true));
                assert(output@ =~= with_literals + old(output)@.subrange(output_pos as int, total));
            }
            return Some(output_pos);
        }
        let after_offset = input_pos.checked_add(2);
        if after_offset.is_none() || after_offset.unwrap() > input.len() {
            proof {
                assert(lz4_decode(input@, sequence_start, produced, capacity as int) == (with_literals, false));
                assert(output@ =~= with_literals + old(output)@.subrange(output_pos as int, total));
            }
            return None;
        }
        let offset = input[input_pos] as usize + (input[input_pos + 1] as usize) * 256;
        input_pos += 2;
        if offset == 0 || offset > output_pos {
            proof {
                assert(output@ =~= with_literals + old(output)@.subrange(output_pos as int, total));
            }
            return None;
        }
        proof {
            lemma_lz4_length(input@, input_pos as int, (token % 16) as int);
        }
        let extra = match read_lz4_length(input, &mut input_pos, (token % 16) as usize) {
            Some(len) => len,
            None => {
                proof {
                    assert(output@ =~= with_literals + old(output)@.subrange(output_pos as int, total));
                }
                return None;
            },
        };
        let match_len = extra.checked_add(4);
        if match_len.is_none() || output_pos.checked_add(match_len.unwrap()).is_none()
            || output_pos + match_len.unwrap() > capacity {
            proof {
                assert(output@ =~= with_literals + old(output)@.subrange(output_pos as int, total));
            }
            return None;
        }
        let match_len = match_len.unwrap();
        copy_lz4_match(output, output_pos, offset, match_len);
        output_pos += match_len;
    }
    proof {
        assert(output@ =~= output@.subrange(0, output_pos as int) + old(output)@.subrange(output_pos as int, total));
    }
    Some(output_pos)
}

} // verus!
