//! What a property rewrite leaves readable: the `/chosen` walk never reads
//! property values, so writing one value leaves every lookup as it was, and
//! the initrd range that `rewrite_initrd_range` writes is the one
//! `find_initrd_range` reads back.

use vstd::prelude::*;

use crate::fdt::{
    be32, be32_bytes, be64, be64_bytes, chosen_walk, lemma_be32_bytes_roundtrip, lemma_be64_bytes_roundtrip,
    lemma_align4, lemma_next_token_advances, lemma_scan_nul, overwrite, scan_nul, spec_be32_at, spec_fdt_blocks,
    spec_find_chosen_prop, spec_find_initrd_range, spec_next_token, spec_read_address_prop, spec_rewrite_initrd_range,
    spec_string_at, spec_write_address_prop, FdtBlocks, FdtError, FdtToken, CHOSEN_NAME, FDT_HEADER_SIZE,
    INITRD_END_NAME, INITRD_START_NAME,
};

verus! {

/// `f1` and `f2` have the same length and the same bytes outside `a..b`.
pub open spec fn agree_outside(f1: Seq<u8>, f2: Seq<u8>, a: int, b: int) -> bool {
    &&& f1.len() == f2.len()
    &&& forall|i: int| 0 <= i < f1.len() && (i < a || b <= i) ==> f1[i] == f2[i]
}

/// `a..b` lies clear of the header and of the strings block.
pub open spec fn clear_of_tables(blocks: FdtBlocks, a: int, b: int) -> bool {
    &&& FDT_HEADER_SIZE <= a
    &&& (b <= blocks.strings_offset || blocks.strings_end <= a)
}

/// The walk for `name` goes on past a property named by `name_offset`: it
/// is not directly in `/chosen`, or its name reads and is another.
pub open spec fn passes_prop(
    fdt: Seq<u8>,
    blocks: FdtBlocks,
    name: Seq<u8>,
    depth: int,
    chosen: Option<int>,
    name_offset: int,
) -> bool {
    chosen != Some(depth) || (spec_string_at(fdt, blocks.strings_offset as int, blocks.strings_end as int, name_offset)
        matches Ok(found) && found != name)
}

/// The walk for `name` from `pos` reads no byte of `a..b`: each token it
/// reads ends before `a`, or `a..b` lies inside the value of a property it
/// passes or stops at.
pub open spec fn walk_avoids(
    fdt: Seq<u8>,
    blocks: FdtBlocks,
    name: Seq<u8>,
    pos: int,
    depth: int,
    chosen: Option<int>,
    a: int,
    b: int,
) -> bool
    decreases fdt.len() + 8 - pos,
{
    if pos >= blocks.struct_end || pos < 0 || blocks.struct_end > fdt.len() || b <= pos {
        true
    } else {
        proof {
            lemma_next_token_advances(fdt, blocks.struct_end as int, pos);
        }
        match spec_next_token(fdt, blocks.struct_end as int, pos) {
            Err(_) => false,
            Ok((token, next)) => match token {
                FdtToken::BeginNode { name_start, name_end } => {
                    let opened = if depth == 1 && fdt.subrange(name_start as int, name_end as int) == CHOSEN_NAME@ {
                        Some(depth + 1)
                    } else {
                        chosen
                    };
                    name_end + 1 <= a && walk_avoids(fdt, blocks, name, next, depth + 1, opened, a, b)
                },
                FdtToken::EndNode => pos + 4 <= a && (depth == 0 || walk_avoids(
                    fdt,
                    blocks,
                    name,
                    next,
                    depth - 1,
                    if chosen == Some(depth) {
                        None
                    } else {
                        chosen
                    },
                    a,
                    b,
                )),
                FdtToken::Prop { len, name_offset, value_offset } => {
                    let continues = passes_prop(fdt, blocks, name, depth, chosen, name_offset as int);
                    (value_offset <= a && b <= value_offset + len) || (pos + 12 <= a && (continues ==> walk_avoids(
                        fdt,
                        blocks,
                        name,
                        next,
                        depth,
                        chosen,
                        a,
                        b,
                    )))
                },
                FdtToken::Nop => pos + 4 <= a && walk_avoids(fdt, blocks, name, next, depth, chosen, a, b),
                FdtToken::End => pos + 4 <= a,
            },
        }
    }
}

proof fn lemma_scan_nul_frame(f1: Seq<u8>, f2: Seq<u8>, pos: int, end: int, a: int, b: int)
    requires
        agree_outside(f1, f2, a, b),
        0 <= pos,
        end <= f1.len(),
        scan_nul(f1, pos, end) < a,
        scan_nul(f1, pos, end) < end,
    ensures
        scan_nul(f2, pos, end) == scan_nul(f1, pos, end),
    decreases end - pos,
{
    lemma_scan_nul(f1, pos, end);
    if pos < end && f1[pos] != 0 {
        assert(f2[pos] == f1[pos]);
        lemma_scan_nul_frame(f1, f2, pos + 1, end, a, b);
    } else if pos < end {
        assert(f2[pos] == f1[pos]);
    }
}

/// The walk reads the same in two blobs that differ only where it does
/// not read.
pub proof fn lemma_walk_frame(
    f1: Seq<u8>,
    f2: Seq<u8>,
    blocks: FdtBlocks,
    name: Seq<u8>,
    pos: int,
    depth: int,
    chosen: Option<int>,
    a: int,
    b: int,
)
    requires
        agree_outside(f1, f2, a, b),
        clear_of_tables(blocks, a, b),
        blocks.strings_end <= f1.len(),
        f1.len() <= usize::MAX,
        walk_avoids(f1, blocks, name, pos, depth, chosen, a, b),
    ensures
        chosen_walk(f1, blocks, name, pos, depth, chosen) == chosen_walk(f2, blocks, name, pos, depth, chosen),
    decreases f1.len() + 8 - pos,
{
    if pos >= blocks.struct_end || pos < 0 || blocks.struct_end > f1.len() {
    } else if b <= pos {
        lemma_walk_frame_after(f1, f2, blocks, name, pos, depth, chosen, a, b);
    } else {
        let se = blocks.struct_end as int;
        lemma_next_token_advances(f1, se, pos);
        lemma_next_token_advances(f2, se, pos);
        let (token, next) = spec_next_token(f1, se, pos)->Ok_0;
        assert(pos + 4 <= a);
        lemma_be32_same(f1, f2, pos);
        match token {
            FdtToken::BeginNode { name_start, name_end } => {
                if pos + 4 < se {
                    lemma_scan_nul(f1, pos + 4, se);
                    assert(name_end == scan_nul(f1, pos + 4, se) && name_end < se);
                    lemma_scan_nul_frame(f1, f2, pos + 4, se, a, b);
                }
                assert(spec_next_token(f2, se, pos) == spec_next_token(f1, se, pos));
                assert(f1.subrange(name_start as int, name_end as int) =~= f2.subrange(name_start as int, name_end as int));
                let opened = if depth == 1 && f1.subrange(name_start as int, name_end as int) == CHOSEN_NAME@ {
                    Some(depth + 1)
                } else {
                    chosen
                };
                lemma_walk_frame(f1, f2, blocks, name, next, depth + 1, opened, a, b);
            },
            FdtToken::EndNode => {
                assert(spec_next_token(f2, se, pos) == spec_next_token(f1, se, pos));
                if depth != 0 {
                    let closed = if chosen == Some(depth) { None } else { chosen };
                    lemma_walk_frame(f1, f2, blocks, name, next, depth - 1, closed, a, b);
                }
            },
            FdtToken::Prop { len, name_offset, value_offset } => {
                lemma_be32_same(f1, f2, pos + 4);
                lemma_be32_same(f1, f2, pos + 8);
                assert(spec_next_token(f2, se, pos) == spec_next_token(f1, se, pos));
                lemma_string_at_frame(f1, f2, blocks, name_offset as int, a, b);
                if passes_prop(f1, blocks, name, depth, chosen, name_offset as int) {
                    if value_offset <= a && b <= value_offset + len {
                        lemma_walk_frame_after(f1, f2, blocks, name, next, depth, chosen, a, b);
                    } else {
                        lemma_walk_frame(f1, f2, blocks, name, next, depth, chosen, a, b);
                    }
                }
            },
            FdtToken::Nop => {
                assert(spec_next_token(f2, se, pos) == spec_next_token(f1, se, pos));
                lemma_walk_frame(f1, f2, blocks, name, next, depth, chosen, a, b);
            },
            FdtToken::End => {
                assert(spec_next_token(f2, se, pos) == spec_next_token(f1, se, pos));
            },
        }
    }
}

/// Four bytes that agree read the same big-endian value.
proof fn lemma_be32_same(f1: Seq<u8>, f2: Seq<u8>, off: int)
    requires
        forall|i: int| off <= i < off + 4 ==> f1[i] == f2[i],
    ensures
        be32(f1, off) == be32(f2, off),
{
    assert(f1[off] == f2[off]);
    assert(f1[off + 1] == f2[off + 1]);
    assert(f1[off + 2] == f2[off + 2]);
    assert(f1[off + 3] == f2[off + 3]);
}

/// Past the region, both blobs are the same, and so is the walk.
proof fn lemma_walk_frame_after(
    f1: Seq<u8>,
    f2: Seq<u8>,
    blocks: FdtBlocks,
    name: Seq<u8>,
    pos: int,
    depth: int,
    chosen: Option<int>,
    a: int,
    b: int,
)
    requires
        agree_outside(f1, f2, a, b),
        clear_of_tables(blocks, a, b),
        blocks.strings_end <= f1.len(),
        f1.len() <= usize::MAX,
        b <= pos,
    ensures
        chosen_walk(f1, blocks, name, pos, depth, chosen) == chosen_walk(f2, blocks, name, pos, depth, chosen),
    decreases f1.len() + 8 - pos,
{
    if pos >= blocks.struct_end || pos < 0 || blocks.struct_end > f1.len() {
    } else {
        let se = blocks.struct_end as int;
        lemma_next_token_advances(f1, se, pos);
        lemma_next_token_advances(f2, se, pos);
        assert(f1.subrange(pos, f1.len() as int) =~= f2.subrange(pos, f2.len() as int));
        lemma_next_token_suffix(f1, f2, se, pos);
        match spec_next_token(f1, se, pos) {
            Err(_) => {},
            Ok((token, next)) => match token {
                FdtToken::BeginNode { name_start, name_end } => {
                    assert(f1.subrange(name_start as int, name_end as int) =~= f2.subrange(
                        name_start as int,
                        name_end as int,
                    ));
                    let opened = if depth == 1 && f1.subrange(name_start as int, name_end as int) == CHOSEN_NAME@ {
                        Some(depth + 1)
                    } else {
                        chosen
                    };
                    lemma_walk_frame_after(f1, f2, blocks, name, next, depth + 1, opened, a, b);
                },
                FdtToken::EndNode => {
                    if depth != 0 {
                        let closed = if chosen == Some(depth) { None } else { chosen };
                        lemma_walk_frame_after(f1, f2, blocks, name, next, depth - 1, closed, a, b);
                    }
                },
                FdtToken::Prop { len, name_offset, value_offset } => {
                    lemma_string_at_frame(f1, f2, blocks, name_offset as int, a, b);
                    lemma_walk_frame_after(f1, f2, blocks, name, next, depth, chosen, a, b);
                },
                FdtToken::Nop => lemma_walk_frame_after(f1, f2, blocks, name, next, depth, chosen, a, b),
                FdtToken::End => {},
            },
        }
    }
}

/// Two blobs equal from `pos` on give the same token at `pos`.
proof fn lemma_next_token_suffix(f1: Seq<u8>, f2: Seq<u8>, se: int, pos: int)
    requires
        f1.len() == f2.len(),
        0 <= pos,
        se <= f1.len(),
        forall|i: int| pos <= i < f1.len() ==> f1[i] == f2[i],
    ensures
        spec_next_token(f1, se, pos) == spec_next_token(f2, se, pos),
{
    if pos + 4 <= f1.len() {
        assert(be32(f1, pos) == be32(f2, pos)) by {
            assert(f1[pos] == f2[pos] && f1[pos + 1] == f2[pos + 1] && f1[pos + 2] == f2[pos + 2] && f1[pos + 3]
                == f2[pos + 3]);
        }
        lemma_scan_nul_suffix(f1, f2, pos + 4, se, pos);
        if pos + 12 <= f1.len() {
            assert(be32(f1, pos + 4) == be32(f2, pos + 4)) by {
                assert(f1[pos + 4] == f2[pos + 4] && f1[pos + 5] == f2[pos + 5] && f1[pos + 6] == f2[pos + 6]
                    && f1[pos + 7] == f2[pos + 7]);
            }
            assert(be32(f1, pos + 8) == be32(f2, pos + 8)) by {
                assert(f1[pos + 8] == f2[pos + 8] && f1[pos + 9] == f2[pos + 9] && f1[pos + 10] == f2[pos + 10]
                    && f1[pos + 11] == f2[pos + 11]);
            }
        } else if pos + 8 <= f1.len() {
            assert(be32(f1, pos + 4) == be32(f2, pos + 4)) by {
                assert(f1[pos + 4] == f2[pos + 4] && f1[pos + 5] == f2[pos + 5] && f1[pos + 6] == f2[pos + 6]
                    && f1[pos + 7] == f2[pos + 7]);
            }
        }
    }
}

proof fn lemma_scan_nul_suffix(f1: Seq<u8>, f2: Seq<u8>, p: int, end: int, from: int)
    requires
        f1.len() == f2.len(),
        0 <= from <= p,
        end <= f1.len(),
        forall|i: int| from <= i < f1.len() ==> f1[i] == f2[i],
    ensures
        scan_nul(f1, p, end) == scan_nul(f2, p, end),
    decreases end - p,
{
    if p < end && f1[p] != 0 {
        lemma_scan_nul_suffix(f1, f2, p + 1, end, from);
    }
}

/// Names in the strings block read the same when the region is clear of
/// it.
proof fn lemma_string_at_frame(f1: Seq<u8>, f2: Seq<u8>, blocks: FdtBlocks, name_offset: int, a: int, b: int)
    requires
        agree_outside(f1, f2, a, b),
        clear_of_tables(blocks, a, b),
        blocks.strings_end <= f1.len(),
        0 <= name_offset,
    ensures
        spec_string_at(f1, blocks.strings_offset as int, blocks.strings_end as int, name_offset)
            == spec_string_at(f2, blocks.strings_offset as int, blocks.strings_end as int, name_offset),
{
    let start = blocks.strings_offset + name_offset;
    let end = blocks.strings_end as int;
    if start <= usize::MAX && start < end && 0 <= name_offset {
        lemma_scan_nul_strings(f1, f2, blocks, start, a, b);
        let nul = scan_nul(f1, start, end);
        lemma_scan_nul(f1, start, end);
        assert forall|i: int| start <= i < nul implies f1[i] == f2[i] by {
            assert(blocks.strings_offset <= i < blocks.strings_end);
        }
        assert(f1.subrange(start, nul) =~= f2.subrange(start, nul));
    }
}

proof fn lemma_scan_nul_strings(f1: Seq<u8>, f2: Seq<u8>, blocks: FdtBlocks, p: int, a: int, b: int)
    requires
        agree_outside(f1, f2, a, b),
        clear_of_tables(blocks, a, b),
        blocks.strings_end <= f1.len(),
        blocks.strings_offset <= p,
    ensures
        scan_nul(f1, p, blocks.strings_end as int) == scan_nul(f2, p, blocks.strings_end as int),
    decreases blocks.strings_end - p,
{
    if p < blocks.strings_end && f1[p] != 0 {
        lemma_scan_nul_strings(f1, f2, blocks, p + 1, a, b);
    }
}


/// Where the walk for `found_name` stops at a property, the walk for any
/// `name` reads none of that property's value, and where `name` is another
/// name that is found too, the two values do not overlap. A found value
/// lies past the token header at `pos`.
pub proof fn lemma_found_value_avoided(
    fdt: Seq<u8>,
    blocks: FdtBlocks,
    found_name: Seq<u8>,
    name: Seq<u8>,
    pos: int,
    depth: int,
    chosen: Option<int>,
)
    requires
        chosen_walk(fdt, blocks, found_name, pos, depth, chosen) is Ok,
        fdt.len() <= usize::MAX,
    ensures
        chosen_walk(fdt, blocks, found_name, pos, depth, chosen) matches Ok((v, l)) ==> {
            &&& v >= pos + 12
            &&& walk_avoids(fdt, blocks, name, pos, depth, chosen, v as int, v + l)
            &&& name != found_name ==> (chosen_walk(fdt, blocks, name, pos, depth, chosen) matches Ok((v2, l2)) ==> (
            v2 + l2 <= v || v + l <= v2))
        },
    decreases fdt.len() + 8 - pos,
{
    let se = blocks.struct_end as int;
    lemma_next_token_advances(fdt, se, pos);
    let (token, next) = spec_next_token(fdt, se, pos)->Ok_0;
    match token {
        FdtToken::BeginNode { name_start, name_end } => {
            let opened = if depth == 1 && fdt.subrange(name_start as int, name_end as int) == CHOSEN_NAME@ {
                Some(depth + 1)
            } else {
                chosen
            };
            lemma_found_value_avoided(fdt, blocks, found_name, name, next, depth + 1, opened);
            if pos + 4 < se {
                lemma_scan_nul(fdt, pos + 4, se);
            }
            lemma_align4(name_end + 1);
        },
        FdtToken::EndNode => {
            let closed = if chosen == Some(depth) { None } else { chosen };
            lemma_found_value_avoided(fdt, blocks, found_name, name, next, depth - 1, closed);
        },
        FdtToken::Prop { len, name_offset, value_offset } => {
            lemma_align4(value_offset + len);
            if passes_prop(fdt, blocks, found_name, depth, chosen, name_offset as int) {
                lemma_found_value_avoided(fdt, blocks, found_name, name, next, depth, chosen);
            } else if name != found_name && passes_prop(fdt, blocks, name, depth, chosen, name_offset as int) {
                if chosen_walk(fdt, blocks, name, next, depth, chosen) is Ok {
                    lemma_found_value_avoided(fdt, blocks, name, name, next, depth, chosen);
                }
            }
        },
        FdtToken::Nop => {
            lemma_found_value_avoided(fdt, blocks, found_name, name, next, depth, chosen);
        },
        FdtToken::End => {},
    }
}


/// A value written into a one- or two-cell address property reads back.
pub proof fn lemma_address_prop_read_back(fdt: Seq<u8>, offset: int, len: int, value: int)
    requires
        spec_write_address_prop(fdt, offset, len, value) is Ok,
        0 <= offset,
        0 <= value <= usize::MAX,
    ensures
        spec_read_address_prop(spec_write_address_prop(fdt, offset, len, value)->Ok_0, offset, len) == Ok::<
            usize,
            FdtError,
        >(value as usize),
{
    let written = spec_write_address_prop(fdt, offset, len, value)->Ok_0;
    if len == 4 {
        lemma_be32_bytes_roundtrip(value);
        let bytes = be32_bytes(value);
        assert(written.subrange(offset, offset + 4) =~= bytes);
        assert(be32(written, offset) == be32(bytes, 0)) by {
            assert(written[offset] == bytes[0]);
            assert(written[offset + 1] == bytes[1]);
            assert(written[offset + 2] == bytes[2]);
            assert(written[offset + 3] == bytes[3]);
        }
    } else {
        lemma_be64_bytes_roundtrip(value);
        let bytes = be64_bytes(value);
        assert(be32(written, offset) == be32(bytes, 0)) by {
            assert(written[offset] == bytes[0]);
            assert(written[offset + 1] == bytes[1]);
            assert(written[offset + 2] == bytes[2]);
            assert(written[offset + 3] == bytes[3]);
        }
        assert(be32(written, offset + 4) == be32(bytes, 4)) by {
            assert(written[offset + 4] == bytes[4]);
            assert(written[offset + 5] == bytes[5]);
            assert(written[offset + 6] == bytes[6]);
            assert(written[offset + 7] == bytes[7]);
        }
    }
}

/// An address property reads the same in two blobs that agree on its value.
proof fn lemma_address_prop_frame(f1: Seq<u8>, f2: Seq<u8>, offset: int, len: int)
    requires
        f1.len() == f2.len(),
        0 <= offset,
        forall|i: int| offset <= i < offset + len ==> f1[i] == f2[i],
    ensures
        spec_read_address_prop(f1, offset, len) == spec_read_address_prop(f2, offset, len),
{
    if (len == 4 || len == 8) && offset + len <= f1.len() {
        lemma_be32_same(f1, f2, offset);
        if len == 8 {
            lemma_be32_same(f1, f2, offset + 4);
        }
    }
}

/// Writing outside the header leaves the blocks it describes as they were.
proof fn lemma_blocks_frame(f1: Seq<u8>, f2: Seq<u8>, a: int, b: int)
    requires
        agree_outside(f1, f2, a, b),
        FDT_HEADER_SIZE <= a,
    ensures
        spec_fdt_blocks(f1) == spec_fdt_blocks(f2),
{
    if f1.len() >= FDT_HEADER_SIZE {
        lemma_be32_same(f1, f2, 0);
        lemma_be32_same(f1, f2, 8);
        lemma_be32_same(f1, f2, 12);
        lemma_be32_same(f1, f2, 32);
        lemma_be32_same(f1, f2, 36);
    }
}

/// Writing a property value that the walk for `found` stops at, clear of
/// the tables, leaves both lookups as they were.
proof fn lemma_lookups_survive_write(f1: Seq<u8>, f2: Seq<u8>, found: Seq<u8>, other: Seq<u8>, v: usize, l: usize)
    requires
        spec_find_chosen_prop(f1, found) == Ok::<(usize, usize), FdtError>((v, l)),
        agree_outside(f1, f2, v as int, v + l),
        f1.len() <= usize::MAX,
        clear_of_tables(spec_fdt_blocks(f1)->Ok_0, v as int, v + l),
    ensures
        spec_fdt_blocks(f2) == spec_fdt_blocks(f1),
        spec_find_chosen_prop(f2, found) == spec_find_chosen_prop(f1, found),
        spec_find_chosen_prop(f2, other) == spec_find_chosen_prop(f1, other),
{
    lemma_blocks_frame(f1, f2, v as int, v + l);
    let blocks = spec_fdt_blocks(f1)->Ok_0;
    crate::fdt::lemma_fdt_blocks_fit(f1);
    let start = blocks.struct_offset as int;
    lemma_found_value_avoided(f1, blocks, found, found, start, 0, None);
    lemma_found_value_avoided(f1, blocks, found, other, start, 0, None);
    lemma_walk_frame(f1, f2, blocks, found, start, 0, None, v as int, v + l);
    lemma_walk_frame(f1, f2, blocks, other, start, 0, None, v as int, v + l);
}

/// The initrd properties' values lie clear of the header and the strings
/// block, as in any well-formed tree.
pub open spec fn initrd_values_clear(fdt: Seq<u8>) -> bool {
    match (spec_fdt_blocks(fdt), spec_find_chosen_prop(fdt, INITRD_START_NAME@), spec_find_chosen_prop(
        fdt,
        INITRD_END_NAME@,
    )) {
        (Ok(blocks), Ok((vs, ls)), Ok((ve, le))) => clear_of_tables(blocks, vs as int, vs + ls) && clear_of_tables(
            blocks,
            ve as int,
            ve + le,
        ),
        _ => true,
    }
}

/// A successful address write changes only the property's own value.
proof fn lemma_address_write_agrees(fdt: Seq<u8>, offset: int, len: int, value: int)
    requires
        spec_write_address_prop(fdt, offset, len, value) is Ok,
        0 <= offset,
        0 <= value,
    ensures
        agree_outside(fdt, spec_write_address_prop(fdt, offset, len, value)->Ok_0, offset, offset + len),
{
    let written = spec_write_address_prop(fdt, offset, len, value)->Ok_0;
    if len == 4 {
        lemma_be32_bytes_roundtrip(value);
    } else {
        lemma_be64_bytes_roundtrip(value);
    }
    assert forall|i: int| 0 <= i < fdt.len() && (i < offset || offset + len <= i) implies fdt[i] == written[i] by {
        if i < offset {
            assert(written[i] == fdt.subrange(0, offset)[i]);
        } else {
            let tail = fdt.subrange(offset + len, fdt.len() as int);
            assert(written[i] == tail[i - offset - len]);
        }
    }
}

/// Two lookups and two address reads that give `start` and `end` make the
/// initrd range `start..end`.
proof fn lemma_initrd_range_from_reads(fdt: Seq<u8>, vs: usize, ls: usize, ve: usize, le: usize, start: int, end: int)
    requires
        spec_find_chosen_prop(fdt, INITRD_START_NAME@) == Ok::<(usize, usize), FdtError>((vs, ls)),
        spec_find_chosen_prop(fdt, INITRD_END_NAME@) == Ok::<(usize, usize), FdtError>((ve, le)),
        spec_read_address_prop(fdt, vs as int, ls as int) == Ok::<usize, FdtError>(start as usize),
        spec_read_address_prop(fdt, ve as int, le as int) == Ok::<usize, FdtError>(end as usize),
        0 <= start < end <= usize::MAX,
    ensures
        spec_find_initrd_range(fdt) == Ok::<Option<(usize, usize)>, FdtError>(Some((start as usize, end as usize))),
{
}

/// After `rewrite_initrd_range` succeeds, the tree has its old length and
/// differs from the old one only inside the two initrd values; wherever the
/// two property lookups still find the properties they found before the
/// writes, `find_initrd_range` reads back exactly the range written.
pub proof fn lemma_initrd_rewrite_reads_back(fdt: Seq<u8>, start: int, end: int)
    requires
        spec_rewrite_initrd_range(fdt, start, end).1 is Ok,
        0 <= start <= usize::MAX,
        0 <= end <= usize::MAX,
        fdt.len() <= usize::MAX,
    ensures
        ({
            let new = spec_rewrite_initrd_range(fdt, start, end).0;
            let (vs, ls) = spec_find_chosen_prop(fdt, INITRD_START_NAME@)->Ok_0;
            let (ve, le) = spec_find_chosen_prop(fdt, INITRD_END_NAME@)->Ok_0;
            &&& new.len() == fdt.len()
            &&& forall|i: int|
                0 <= i < fdt.len() && !(vs <= i < vs + ls) && !(ve <= i < ve + le) ==> #[trigger] new[i] == fdt[i]
            &&& spec_find_chosen_prop(new, INITRD_START_NAME@) == spec_find_chosen_prop(fdt, INITRD_START_NAME@)
                && spec_find_chosen_prop(new, INITRD_END_NAME@) == spec_find_chosen_prop(fdt, INITRD_END_NAME@)
                ==> spec_find_initrd_range(new) == Ok::<Option<(usize, usize)>, FdtError>(
                Some((start as usize, end as usize)),
            )
        }),
{
    let start_name = INITRD_START_NAME@;
    let end_name = INITRD_END_NAME@;
    assert(start_name.len() != end_name.len());
    let blocks = spec_fdt_blocks(fdt)->Ok_0;
    let (vs, ls) = spec_find_chosen_prop(fdt, start_name)->Ok_0;
    let (ve, le) = spec_find_chosen_prop(fdt, end_name)->Ok_0;
    crate::fdt::lemma_fdt_blocks_fit(fdt);
    let origin = blocks.struct_offset as int;
    lemma_found_value_avoided(fdt, blocks, start_name, end_name, origin, 0, None);
    assert(ve + le <= vs || vs + ls <= ve);
    let first = spec_write_address_prop(fdt, vs as int, ls as int, start)->Ok_0;
    let second = spec_write_address_prop(first, ve as int, le as int, end)->Ok_0;
    assert(spec_rewrite_initrd_range(fdt, start, end) == (second, Ok::<(), FdtError>(())));
    lemma_address_write_agrees(fdt, vs as int, ls as int, start);
    lemma_address_write_agrees(first, ve as int, le as int, end);
    lemma_address_prop_read_back(fdt, vs as int, ls as int, start);
    lemma_address_prop_read_back(first, ve as int, le as int, end);
    lemma_address_prop_frame(first, second, vs as int, ls as int);
    if spec_find_chosen_prop(second, start_name) == spec_find_chosen_prop(fdt, start_name)
        && spec_find_chosen_prop(second, end_name) == spec_find_chosen_prop(fdt, end_name) {
        lemma_initrd_range_from_reads(second, vs, ls, ve, le, start, end);
    }
}

/// In a well-formed tree, after `rewrite_initrd_range` succeeds,
/// `find_initrd_range` reads back exactly the range written, and the tree
/// keeps its length and changes only inside the two initrd values.
pub proof fn lemma_initrd_range_read_back(fdt: Seq<u8>, start: int, end: int)
    requires
        spec_rewrite_initrd_range(fdt, start, end).1 is Ok,
        0 <= start <= usize::MAX,
        0 <= end <= usize::MAX,
        fdt.len() <= usize::MAX,
        initrd_values_clear(fdt),
    ensures
        ({
            let new = spec_rewrite_initrd_range(fdt, start, end).0;
            let (vs, ls) = spec_find_chosen_prop(fdt, INITRD_START_NAME@)->Ok_0;
            let (ve, le) = spec_find_chosen_prop(fdt, INITRD_END_NAME@)->Ok_0;
            &&& spec_find_initrd_range(new) == Ok::<Option<(usize, usize)>, FdtError>(
                Some((start as usize, end as usize)),
            )
            &&& new.len() == fdt.len()
            &&& forall|i: int|
                0 <= i < fdt.len() && !(vs <= i < vs + ls) && !(ve <= i < ve + le) ==> #[trigger] new[i] == fdt[i]
        }),
{
    lemma_initrd_rewrite_reads_back(fdt, start, end);
    let start_name = INITRD_START_NAME@;
    let end_name = INITRD_END_NAME@;
    assert(start_name.len() != end_name.len());
    let blocks = spec_fdt_blocks(fdt)->Ok_0;
    let (vs, ls) = spec_find_chosen_prop(fdt, start_name)->Ok_0;
    let (ve, le) = spec_find_chosen_prop(fdt, end_name)->Ok_0;
    crate::fdt::lemma_fdt_blocks_fit(fdt);
    let origin = blocks.struct_offset as int;
    lemma_found_value_avoided(fdt, blocks, start_name, end_name, origin, 0, None);
    assert(ve + le <= vs || vs + ls <= ve);
    let first = spec_write_address_prop(fdt, vs as int, ls as int, start)->Ok_0;
    let second = spec_write_address_prop(first, ve as int, le as int, end)->Ok_0;
    assert(spec_rewrite_initrd_range(fdt, start, end) == (second, Ok::<(), FdtError>(())));
    lemma_address_write_agrees(fdt, vs as int, ls as int, start);
    lemma_lookups_survive_write(fdt, first, start_name, end_name, vs, ls);
    lemma_address_write_agrees(first, ve as int, le as int, end);
    lemma_lookups_survive_write(first, second, end_name, start_name, ve, le);
    lemma_address_prop_read_back(fdt, vs as int, ls as int, start);
    lemma_address_prop_read_back(first, ve as int, le as int, end);
    lemma_address_prop_frame(first, second, vs as int, ls as int);
    lemma_initrd_range_from_reads(second, vs, ls, ve, le, start, end);
}

} // verus!
