//! Flattened device tree access: the header, the structure block walk that
//! finds `/chosen` properties and reserved memory, and in-place rewrites of
//! `bootargs` and the initrd range.

use vstd::prelude::*;

use crate::align::{align_up_checked, lemma_round_up, spec_align_up_checked};
use crate::fdt_rewrite::{initrd_values_clear, lemma_initrd_range_read_back};
use crate::cmdline::{clean_string_tail, filter_cmdline_in_place, spec_clean_string_tail, spec_filter_cmdline};
use vstd::slice::slice_to_vec;

verus! {

/// `0xd00dfeed`, the big-endian magic at the start of every FDT.
pub const FDT_MAGIC: u32 = 0xd00d_feed;
/// Size of the version 17 FDT header.
pub const FDT_HEADER_SIZE: usize = 40;
/// Structure block token: start of a node.
pub const FDT_BEGIN_NODE: u32 = 1;
/// Structure block token: end of a node.
pub const FDT_END_NODE: u32 = 2;
/// Structure block token: a property.
pub const FDT_PROP: u32 = 3;
/// Structure block token: nothing.
pub const FDT_NOP: u32 = 4;
/// Structure block token: end of the structure block.
pub const FDT_END: u32 = 9;

/// Why a device tree could not be read or written.
#[derive(Clone, Copy, Debug, PartialEq, Eq)]
pub enum FdtError {
    BadHeader,
    BadStructure,
    NotFound,
}

/// A byte slice can never be longer than `isize::MAX`.
pub open spec fn slice_len_ok(len: int) -> bool {
    len <= isize::MAX
}

/// The big-endian value of the four bytes at `offset`.
pub open spec fn be32(data: Seq<u8>, offset: int) -> int {
    data[offset] * 0x100_0000 + data[offset + 1] * 0x1_0000 + data[offset + 2] * 0x100
        + data[offset + 3]
}

/// The big-endian value of the eight bytes at `offset`.
pub open spec fn be64(data: Seq<u8>, offset: int) -> int {
    be32(data, offset) * 0x1_0000_0000 + be32(data, offset + 4)
}

/// What `be32_at` reads.
pub open spec fn spec_be32_at(data: Seq<u8>, offset: int) -> Result<u32, FdtError> {
    if offset + 4 <= data.len() {
        Ok(be32(data, offset) as u32)
    } else {
        Err(FdtError::BadStructure)
    }
}

/// What `be64_at` reads.
pub open spec fn spec_be64_at(data: Seq<u8>, offset: int) -> Result<u64, FdtError> {
    if offset + 8 <= data.len() {
        Ok(be64(data, offset) as u64)
    } else {
        Err(FdtError::BadStructure)
    }
}

/// `start + len` when it neither overflows nor passes `max`.
pub open spec fn spec_checked_end(start: int, len: int, max: int) -> Result<usize, FdtError> {
    if start + len > usize::MAX || start + len > max {
        Err(FdtError::BadStructure)
    } else {
        Ok((start + len) as usize)
    }
}

/// A big-endian `u32` read from four bytes fits in a `u32`.
proof fn lemma_be32_bound(data: Seq<u8>, offset: int)
    requires
        0 <= offset,
        offset + 4 <= data.len(),
    ensures
        0 <= be32(data, offset) <= u32::MAX,
{
}

/// A big-endian `u64` read from eight bytes fits in a `u64`.
proof fn lemma_be64_bound(data: Seq<u8>, offset: int)
    requires
        0 <= offset,
        offset + 8 <= data.len(),
    ensures
        0 <= be64(data, offset) <= u64::MAX,
{
    lemma_be32_bound(data, offset);
    lemma_be32_bound(data, offset + 4);
}

/// Reads a big-endian `u32`.
pub fn be32_at(data: &[u8], offset: usize) -> (value: Result<u32, FdtError>)
    ensures
        value == spec_be32_at(data@, offset as int),
{
    let len = data.len();
    let end = match offset.checked_add(4) {
        Some(end) => end,
        None => return Err(FdtError::BadStructure),
    };
    if end > len {
        return Err(FdtError::BadStructure);
    }
    proof {
        lemma_be32_bound(data@, offset as int);
    }
    Ok((data[offset] as u32) * 0x100_0000 + (data[offset + 1] as u32) * 0x1_0000
        + (data[offset + 2] as u32) * 0x100 + (data[offset + 3] as u32))
}

/// Reads a big-endian `u64`.
pub fn be64_at(data: &[u8], offset: usize) -> (value: Result<u64, FdtError>)
    ensures
        value == spec_be64_at(data@, offset as int),
{
    let len = data.len();
    let end = match offset.checked_add(8) {
        Some(end) => end,
        None => return Err(FdtError::BadStructure),
    };
    if end > len {
        return Err(FdtError::BadStructure);
    }
    proof {
        lemma_be64_bound(data@, offset as int);
        lemma_be32_bound(data@, offset as int);
        lemma_be32_bound(data@, offset + 4);
    }
    let high = (data[offset] as u64) * 0x100_0000 + (data[offset + 1] as u64) * 0x1_0000
        + (data[offset + 2] as u64) * 0x100 + (data[offset + 3] as u64);
    let low = (data[offset + 4] as u64) * 0x100_0000 + (data[offset + 5] as u64) * 0x1_0000
        + (data[offset + 6] as u64) * 0x100 + (data[offset + 7] as u64);
    Ok(high * 0x1_0000_0000 + low)
}

/// `start + len`, rejecting overflow and anything past `max`.
pub fn checked_end(start: usize, len: usize, max: usize) -> (end: Result<usize, FdtError>)
    ensures
        end == spec_checked_end(start as int, len as int, max as int),
{
    let end = match start.checked_add(len) {
        Some(end) => end,
        None => return Err(FdtError::BadStructure),
    };
    if end > max {
        return Err(FdtError::BadStructure);
    }
    Ok(end)
}


/// Where the structure and strings blocks lie, as the header gives them.
#[derive(Clone, Copy)]
pub struct FdtBlocks {
    pub struct_offset: usize,
    pub struct_end: usize,
    pub strings_offset: usize,
    pub strings_end: usize,
}

/// The header checks shared by every reader: size, magic, and the
/// structure and strings blocks lying inside the blob.
pub open spec fn spec_fdt_blocks(fdt: Seq<u8>) -> Result<FdtBlocks, FdtError> {
    if fdt.len() < FDT_HEADER_SIZE || be32(fdt, 0) != FDT_MAGIC {
        Err(FdtError::BadHeader)
    } else {
        let struct_offset = be32(fdt, 8);
        let strings_offset = be32(fdt, 12);
        let strings_size = be32(fdt, 32);
        let struct_size = be32(fdt, 36);
        match spec_checked_end(struct_offset, struct_size, fdt.len() as int) {
            Err(e) => Err(e),
            Ok(struct_end) => match spec_checked_end(strings_offset, strings_size, fdt.len() as int) {
                Err(e) => Err(e),
                Ok(strings_end) => Ok(
                    FdtBlocks {
                        struct_offset: struct_offset as usize,
                        struct_end,
                        strings_offset: strings_offset as usize,
                        strings_end,
                    },
                ),
            },
        }
    }
}

/// Both blocks end inside the blob.
pub open spec fn blocks_fit(fdt: Seq<u8>, blocks: FdtBlocks) -> bool {
    &&& blocks.struct_end <= fdt.len()
    &&& blocks.strings_end <= fdt.len()
}

/// The blocks that the header describes lie inside the blob.
pub(crate) proof fn lemma_fdt_blocks_fit(fdt: Seq<u8>)
    ensures
        spec_fdt_blocks(fdt) matches Ok(b) ==> blocks_fit(fdt, b),
{
}

/// Reads the header fields that locate the structure and strings blocks.
pub fn fdt_blocks(fdt: &[u8]) -> (blocks: Result<FdtBlocks, FdtError>)
    ensures
        blocks == spec_fdt_blocks(fdt@),
{
    if fdt.len() < FDT_HEADER_SIZE {
        return Err(FdtError::BadHeader);
    }
    let magic = be32_at(fdt, 0)?;
    if magic != FDT_MAGIC {
        return Err(FdtError::BadHeader);
    }
    proof {
        lemma_be32_bound(fdt@, 8);
        lemma_be32_bound(fdt@, 12);
        lemma_be32_bound(fdt@, 32);
        lemma_be32_bound(fdt@, 36);
    }
    let struct_offset = be32_at(fdt, 8)? as usize;
    let strings_offset = be32_at(fdt, 12)? as usize;
    let strings_size = be32_at(fdt, 32)? as usize;
    let struct_size = be32_at(fdt, 36)? as usize;
    let struct_end = checked_end(struct_offset, struct_size, fdt.len())?;
    let strings_end = checked_end(strings_offset, strings_size, fdt.len())?;
    Ok(FdtBlocks { struct_offset, struct_end, strings_offset, strings_end })
}

/// One token of the structure block.
#[derive(Clone, Copy)]
pub enum FdtToken {
    /// A node whose name is `fdt[name_start..name_end]`.
    BeginNode { name_start: usize, name_end: usize },
    EndNode,
    /// A property whose value is `fdt[value_offset..value_offset + len]`.
    Prop { len: usize, name_offset: usize, value_offset: usize },
    Nop,
    End,
}

/// The first NUL at or after `pos` and before `end`, or `pos` when `pos`
/// is already at or past `end`, or `end` when there is none.
pub open spec fn scan_nul(data: Seq<u8>, pos: int, end: int) -> int
    decreases end - pos,
{
    if pos >= end || data[pos] == 0 {
        pos
    } else {
        scan_nul(data, pos + 1, end)
    }
}

/// `value` rounded up to a multiple of four.
pub open spec fn align4(value: int) -> int {
    (value + 3) / 4 * 4
}

/// The token at `pos` and the position that follows it.
pub open spec fn spec_next_token(fdt: Seq<u8>, struct_end: int, pos: int) -> Result<(FdtToken, int), FdtError> {
    match spec_be32_at(fdt, pos) {
        Err(e) => Err(e),
        Ok(token) => {
            let p = pos + 4;
            if token == FDT_BEGIN_NODE {
                let nul = scan_nul(fdt, p, struct_end);
                if nul == struct_end {
                    Err(FdtError::BadStructure)
                } else {
                    Ok((FdtToken::BeginNode { name_start: p as usize, name_end: nul as usize }, align4(nul + 1)))
                }
            } else if token == FDT_END_NODE {
                Ok((FdtToken::EndNode, p))
            } else if token == FDT_PROP {
                match spec_be32_at(fdt, p) {
                    Err(e) => Err(e),
                    Ok(len) => match spec_be32_at(fdt, p + 4) {
                        Err(e) => Err(e),
                        Ok(name_offset) => match spec_checked_end(p + 8, len as int, struct_end) {
                            Err(e) => Err(e),
                            Ok(value_end) => Ok(
                                (
                                    FdtToken::Prop {
                                        len: len as usize,
                                        name_offset: name_offset as usize,
                                        value_offset: (p + 8) as usize,
                                    },
                                    align4(value_end as int),
                                ),
                            ),
                        },
                    },
                }
            } else if token == FDT_NOP {
                Ok((FdtToken::Nop, p))
            } else if token == FDT_END {
                Ok((FdtToken::End, p))
            } else {
                Err(FdtError::BadStructure)
            }
        },
    }
}

/// `scan_nul` stops at the first NUL at or after `pos`, or at `end`.
pub(crate) proof fn lemma_scan_nul(data: Seq<u8>, pos: int, end: int)
    requires
        0 <= pos,
        end <= data.len(),
    ensures
        pos >= end ==> scan_nul(data, pos, end) == pos,
        pos < end ==> pos <= scan_nul(data, pos, end) <= end,
        pos < end && scan_nul(data, pos, end) < end ==> data[scan_nul(data, pos, end)] == 0,
        forall|i: int| pos <= i < scan_nul(data, pos, end) ==> data[i] != 0,
    decreases end - pos,
{
    if pos < end && data[pos] != 0 {
        lemma_scan_nul(data, pos + 1, end);
    }
}

/// `align4` rounds up to the next multiple of four.
pub(crate) proof fn lemma_align4(value: int)
    requires
        0 <= value,
    ensures
        value <= align4(value) <= value + 3,
        align4(value) % 4 == 0,
{
}

/// Every token ends past where it starts, and no further than four bytes
/// beyond the blob.
pub proof fn lemma_next_token_advances(fdt: Seq<u8>, struct_end: int, pos: int)
    requires
        0 <= pos,
        struct_end <= fdt.len(),
    ensures
        spec_next_token(fdt, struct_end, pos) is Ok ==> pos < spec_next_token(fdt, struct_end, pos)->Ok_0.1
            <= fdt.len() + 4,
        spec_next_token(fdt, struct_end, pos) matches Ok((FdtToken::BeginNode { name_start, name_end }, _))
            ==> (fdt.len() <= usize::MAX ==> name_start <= name_end <= fdt.len()),
        spec_next_token(fdt, struct_end, pos) matches Ok((FdtToken::Prop { len, name_offset, value_offset }, _))
            ==> value_offset + len <= struct_end,
{
    if pos + 4 <= fdt.len() {
        lemma_scan_nul(fdt, pos + 4, struct_end);
        let nul = scan_nul(fdt, pos + 4, struct_end);
        lemma_align4(nul + 1);
        if pos + 12 <= fdt.len() {
            lemma_be32_bound(fdt, pos + 4);
            let len = be32(fdt, pos + 4);
            if pos + 12 + len <= struct_end {
                lemma_align4(pos + 12 + len);
            }
        }
    }
}

/// Reads the token at `pos`.
pub fn read_fdt_token(fdt: &[u8], struct_end: usize, pos: usize) -> (token: Result<(FdtToken, usize), FdtError>)
    requires
        struct_end <= fdt@.len(),
        slice_len_ok(fdt@.len() as int),
    ensures
        token matches Ok((t, next)) ==> spec_next_token(fdt@, struct_end as int, pos as int) == Ok::<(FdtToken, int), FdtError>((t, next as int)),
        token matches Err(e) ==> spec_next_token(fdt@, struct_end as int, pos as int) == Err::<(FdtToken, int), FdtError>(e),
{
    let token = be32_at(fdt, pos)?;
    let p = pos + 4;
    if token == FDT_BEGIN_NODE {
        let mut nul = p;
        while nul < struct_end && fdt[nul] != 0
            invariant
                p <= nul,
                struct_end <= fdt@.len(),
                p < struct_end ==> nul <= struct_end,
                p >= struct_end ==> nul == p,
                scan_nul(fdt@, nul as int, struct_end as int) == scan_nul(fdt@, p as int, struct_end as int),
            decreases struct_end - nul,
        {
            nul += 1;
        }
        if nul == struct_end {
            return Err(FdtError::BadStructure);
        }
        proof {
            lemma_be32_bound(fdt@, pos as int);
        }
        let next = (nul + 4) / 4 * 4;
        Ok((FdtToken::BeginNode { name_start: p, name_end: nul }, next))
    } else if token == FDT_END_NODE {
        Ok((FdtToken::EndNode, p))
    } else if token == FDT_PROP {
        let len = be32_at(fdt, p)? as usize;
        let name_offset = be32_at(fdt, p + 4)? as usize;
        let value_end = checked_end(p + 8, len, struct_end)?;
        let next = (value_end + 3) / 4 * 4;
        Ok((FdtToken::Prop { len, name_offset, value_offset: p + 8 }, next))
    } else if token == FDT_NOP {
        Ok((FdtToken::Nop, p))
    } else if token == FDT_END {
        Ok((FdtToken::End, p))
    } else {
        Err(FdtError::BadStructure)
    }
}

/// What `string_at` returns: the NUL-terminated name at `name_offset` in the
/// strings block.
pub open spec fn spec_string_at(fdt: Seq<u8>, strings_offset: int, strings_end: int, name_offset: int) -> Result<Seq<u8>, FdtError> {
    let start = strings_offset + name_offset;
    if start > usize::MAX || start >= strings_end {
        Err(FdtError::BadStructure)
    } else {
        let end = scan_nul(fdt, start, strings_end);
        if end == strings_end {
            Err(FdtError::BadStructure)
        } else {
            Ok(fdt.subrange(start, end))
        }
    }
}

/// The NUL-terminated string at `name_offset` within the strings block.
pub fn string_at(fdt: &[u8], strings_offset: usize, strings_end: usize, name_offset: usize) -> (name: Result<&[u8], FdtError>)
    requires
        strings_end <= fdt@.len(),
    ensures
        name matches Ok(n) ==> spec_string_at(fdt@, strings_offset as int, strings_end as int, name_offset as int) == Ok::<Seq<u8>, FdtError>(n@),
        name matches Err(e) ==> spec_string_at(fdt@, strings_offset as int, strings_end as int, name_offset as int) == Err::<Seq<u8>, FdtError>(e),
{
    let start = match strings_offset.checked_add(name_offset) {
        Some(start) => start,
        None => return Err(FdtError::BadStructure),
    };
    if start >= strings_end {
        return Err(FdtError::BadStructure);
    }
    let mut end = start;
    while end < strings_end && fdt[end] != 0
        invariant
            start <= end <= strings_end,
            strings_end <= fdt@.len(),
            scan_nul(fdt@, end as int, strings_end as int) == scan_nul(fdt@, start as int, strings_end as int),
        decreases strings_end - end,
    {
        end += 1;
    }
    if end == strings_end {
        return Err(FdtError::BadStructure);
    }
    Ok(&fdt[start..end])
}

/// The name `chosen`.
pub const CHOSEN_NAME: [u8; 6] = [99, 104, 111, 115, 101, 110];

/// Walks the structure block from `pos` looking for property `name` directly
/// inside `/chosen`, the node named `chosen` one level below the root.
/// `depth` counts open nodes; `chosen` is the depth at which `/chosen`'s own
/// properties sit while it is open.
pub open spec fn chosen_walk(
    fdt: Seq<u8>,
    blocks: FdtBlocks,
    name: Seq<u8>,
    pos: int,
    depth: int,
    chosen: Option<int>,
) -> Result<(usize, usize), FdtError>
    decreases fdt.len() + 8 - pos,
{
    if pos >= blocks.struct_end || pos < 0 || blocks.struct_end > fdt.len() {
        Err(FdtError::NotFound)
    } else {
        proof {
            lemma_next_token_advances(fdt, blocks.struct_end as int, pos);
        }
        match spec_next_token(fdt, blocks.struct_end as int, pos) {
            Err(e) => Err(e),
            Ok((token, next)) => match token {
                FdtToken::BeginNode { name_start, name_end } => {
                    let opened = if depth == 1 && fdt.subrange(name_start as int, name_end as int) == CHOSEN_NAME@ {
                        Some(depth + 1)
                    } else {
                        chosen
                    };
                    chosen_walk(fdt, blocks, name, next, depth + 1, opened)
                },
                FdtToken::EndNode => {
                    if depth == 0 {
                        Err(FdtError::BadStructure)
                    } else {
                        let closed = if chosen == Some(depth) { None } else { chosen };
                        chosen_walk(fdt, blocks, name, next, depth - 1, closed)
                    }
                },
                FdtToken::Prop { len, name_offset, value_offset } => {
                    if chosen == Some(depth) {
                        match spec_string_at(fdt, blocks.strings_offset as int, blocks.strings_end as int, name_offset as int) {
                            Err(e) => Err(e),
                            Ok(prop_name) => if prop_name == name {
                                Ok((value_offset, len))
                            } else {
                                chosen_walk(fdt, blocks, name, next, depth, chosen)
                            },
                        }
                    } else {
                        chosen_walk(fdt, blocks, name, next, depth, chosen)
                    }
                },
                FdtToken::Nop => chosen_walk(fdt, blocks, name, next, depth, chosen),
                FdtToken::End => Err(FdtError::NotFound),
            },
        }
    }
}

/// What `find_chosen_prop` returns: the value range of `/chosen/<name>`.
pub open spec fn spec_find_chosen_prop(fdt: Seq<u8>, name: Seq<u8>) -> Result<(usize, usize), FdtError> {
    match spec_fdt_blocks(fdt) {
        Err(e) => Err(e),
        Ok(blocks) => chosen_walk(fdt, blocks, name, blocks.struct_offset as int, 0, None),
    }
}

/// A property found by the walk lies inside the structure block.
pub proof fn lemma_chosen_walk_in_bounds(
    fdt: Seq<u8>,
    blocks: FdtBlocks,
    name: Seq<u8>,
    pos: int,
    depth: int,
    chosen: Option<int>,
)
    ensures
        chosen_walk(fdt, blocks, name, pos, depth, chosen) matches Ok((offset, len)) ==> offset + len <= blocks.struct_end,
    decreases fdt.len() + 8 - pos,
{
    if pos < blocks.struct_end && pos >= 0 && blocks.struct_end <= fdt.len() {
        lemma_next_token_advances(fdt, blocks.struct_end as int, pos);
        match spec_next_token(fdt, blocks.struct_end as int, pos) {
            Err(e) => {},
            Ok((token, next)) => match token {
                FdtToken::BeginNode { name_start, name_end } => {
                    let opened = if depth == 1 && fdt.subrange(name_start as int, name_end as int) == CHOSEN_NAME@ {
                        Some(depth + 1)
                    } else {
                        chosen
                    };
                    lemma_chosen_walk_in_bounds(fdt, blocks, name, next, depth + 1, opened);
                },
                FdtToken::EndNode => {
                    if depth != 0 {
                        let closed = if chosen == Some(depth) { None } else { chosen };
                        lemma_chosen_walk_in_bounds(fdt, blocks, name, next, depth - 1, closed);
                    }
                },
                FdtToken::Prop { len, name_offset, value_offset } => {
                    lemma_chosen_walk_in_bounds(fdt, blocks, name, next, depth, chosen);
                },
                FdtToken::Nop => lemma_chosen_walk_in_bounds(fdt, blocks, name, next, depth, chosen),
                FdtToken::End => {},
            },
        }
    }
}

/// What the walk finds is a property token whose value has the reported
/// length and whose name, read from the strings block, is `name`, and
/// which the walk reached while inside `/chosen`.
pub open spec fn found_named_prop(fdt: Seq<u8>, blocks: FdtBlocks, name: Seq<u8>, value: int, len: int) -> bool {
    &&& spec_be32_at(fdt, value - 12) == Ok::<u32, FdtError>(FDT_PROP)
    &&& spec_be32_at(fdt, value - 8) == Ok::<u32, FdtError>(len as u32)
    &&& spec_be32_at(fdt, value - 4) matches Ok(name_offset) && spec_string_at(
        fdt,
        blocks.strings_offset as int,
        blocks.strings_end as int,
        name_offset as int,
    ) == Ok::<Seq<u8>, FdtError>(name)
}

/// A property that the walk for `name` returns is a property token named
/// `name`, at or after where the walk started.
pub proof fn lemma_chosen_walk_finds_named_prop(
    fdt: Seq<u8>,
    blocks: FdtBlocks,
    name: Seq<u8>,
    pos: int,
    depth: int,
    chosen: Option<int>,
)
    ensures
        chosen_walk(fdt, blocks, name, pos, depth, chosen) matches Ok((value, len)) ==> pos + 12 <= value
            && found_named_prop(fdt, blocks, name, value as int, len as int),
    decreases fdt.len() + 8 - pos,
{
    if pos < blocks.struct_end && pos >= 0 && blocks.struct_end <= fdt.len() {
        lemma_next_token_advances(fdt, blocks.struct_end as int, pos);
        match spec_next_token(fdt, blocks.struct_end as int, pos) {
            Err(e) => {},
            Ok((token, next)) => match token {
                FdtToken::BeginNode { name_start, name_end } => {
                    let opened = if depth == 1 && fdt.subrange(name_start as int, name_end as int) == CHOSEN_NAME@ {
                        Some(depth + 1)
                    } else {
                        chosen
                    };
                    lemma_chosen_walk_finds_named_prop(fdt, blocks, name, next, depth + 1, opened);
                },
                FdtToken::EndNode => {
                    if depth != 0 {
                        let closed = if chosen == Some(depth) { None } else { chosen };
                        lemma_chosen_walk_finds_named_prop(fdt, blocks, name, next, depth - 1, closed);
                    }
                },
                FdtToken::Prop { len, name_offset, value_offset } => {
                    lemma_chosen_walk_finds_named_prop(fdt, blocks, name, next, depth, chosen);
                },
                FdtToken::Nop => lemma_chosen_walk_finds_named_prop(fdt, blocks, name, next, depth, chosen),
                FdtToken::End => {},
            },
        }
    }
}

/// A property that `find_chosen_prop` returns is a property token named
/// `name` inside the structure block.
pub proof fn lemma_found_chosen_prop_is_named(fdt: Seq<u8>, name: Seq<u8>)
    ensures
        spec_find_chosen_prop(fdt, name) matches Ok((value, len)) ==> spec_fdt_blocks(fdt) matches Ok(blocks) && {
            &&& blocks.struct_offset + 12 <= value
            &&& value + len <= blocks.struct_end
            &&& found_named_prop(fdt, blocks, name, value as int, len as int)
        },
{
    if let Ok(blocks) = spec_fdt_blocks(fdt) {
        lemma_chosen_walk_finds_named_prop(fdt, blocks, name, blocks.struct_offset as int, 0, None);
        lemma_chosen_walk_in_bounds(fdt, blocks, name, blocks.struct_offset as int, 0, None);
    }
}

/// Every property directly inside `/chosen` (the node named `chosen` one
/// level below the root) from `pos` on, in structure-block order, as its
/// name, value offset and value length; the list ends where the structure
/// block ends or stops reading.
pub open spec fn chosen_props(
    fdt: Seq<u8>,
    blocks: FdtBlocks,
    pos: int,
    depth: int,
    chosen: Option<int>,
) -> Seq<(Seq<u8>, usize, usize)>
    decreases fdt.len() + 8 - pos,
{
    if pos >= blocks.struct_end || pos < 0 || blocks.struct_end > fdt.len() {
        Seq::empty()
    } else {
        proof {
            lemma_next_token_advances(fdt, blocks.struct_end as int, pos);
        }
        match spec_next_token(fdt, blocks.struct_end as int, pos) {
            Err(_) => Seq::empty(),
            Ok((token, next)) => match token {
                FdtToken::BeginNode { name_start, name_end } => {
                    let opened = if depth == 1 && fdt.subrange(name_start as int, name_end as int) == CHOSEN_NAME@ {
                        Some(depth + 1)
                    } else {
                        chosen
                    };
                    chosen_props(fdt, blocks, next, depth + 1, opened)
                },
                FdtToken::EndNode => if depth == 0 {
                    Seq::empty()
                } else {
                    chosen_props(fdt, blocks, next, depth - 1, if chosen == Some(depth) { None } else { chosen })
                },
                FdtToken::Prop { len, name_offset, value_offset } => if chosen == Some(depth) {
                    match spec_string_at(fdt, blocks.strings_offset as int, blocks.strings_end as int, name_offset as int) {
                        Err(_) => Seq::empty(),
                        Ok(prop_name) => seq![(prop_name, value_offset, len)] + chosen_props(
                            fdt,
                            blocks,
                            next,
                            depth,
                            chosen,
                        ),
                    }
                } else {
                    chosen_props(fdt, blocks, next, depth, chosen)
                },
                FdtToken::Nop => chosen_props(fdt, blocks, next, depth, chosen),
                FdtToken::End => Seq::empty(),
            },
        }
    }
}

/// The lookup of `name` gives the first property named `name` among the
/// properties of `/chosen`, wherever `/chosen` stands among its siblings.
proof fn lemma_chosen_walk_finds_first(
    fdt: Seq<u8>,
    blocks: FdtBlocks,
    name: Seq<u8>,
    pos: int,
    depth: int,
    chosen: Option<int>,
    i: int,
)
    requires
        0 <= i < chosen_props(fdt, blocks, pos, depth, chosen).len(),
        chosen_props(fdt, blocks, pos, depth, chosen)[i].0 == name,
        forall|j: int| 0 <= j < i ==> #[trigger] chosen_props(fdt, blocks, pos, depth, chosen)[j].0 != name,
    ensures
        chosen_walk(fdt, blocks, name, pos, depth, chosen) == Ok::<(usize, usize), FdtError>(
            (chosen_props(fdt, blocks, pos, depth, chosen)[i].1, chosen_props(fdt, blocks, pos, depth, chosen)[i].2),
        ),
    decreases fdt.len() + 8 - pos,
{
    let props = chosen_props(fdt, blocks, pos, depth, chosen);
    lemma_next_token_advances(fdt, blocks.struct_end as int, pos);
    match spec_next_token(fdt, blocks.struct_end as int, pos) {
        Err(_) => {},
        Ok((token, next)) => match token {
            FdtToken::BeginNode { name_start, name_end } => {
                let opened = if depth == 1 && fdt.subrange(name_start as int, name_end as int) == CHOSEN_NAME@ {
                    Some(depth + 1)
                } else {
                    chosen
                };
                lemma_chosen_walk_finds_first(fdt, blocks, name, next, depth + 1, opened, i);
            },
            FdtToken::EndNode => {
                let closed = if chosen == Some(depth) { None } else { chosen };
                lemma_chosen_walk_finds_first(fdt, blocks, name, next, depth - 1, closed, i);
            },
            FdtToken::Prop { len, name_offset, value_offset } => {
                if chosen == Some(depth) {
                    let rest = chosen_props(fdt, blocks, next, depth, chosen);
                    let prop_name = spec_string_at(
                        fdt,
                        blocks.strings_offset as int,
                        blocks.strings_end as int,
                        name_offset as int,
                    )->Ok_0;
                    assert(props[0].0 == prop_name);
                    if i > 0 {
                        assert(prop_name != name) by {
                            assert(props[0].0 != name);
                        }
                        assert forall|j: int| 0 <= j < i - 1 implies #[trigger] rest[j].0 != name by {
                            assert(props[j + 1] == rest[j]);
                            assert(props[j + 1].0 != name);
                        }
                        assert(props[i] == rest[i - 1]);
                        lemma_chosen_walk_finds_first(fdt, blocks, name, next, depth, chosen, i - 1);
                    }
                } else {
                    lemma_chosen_walk_finds_first(fdt, blocks, name, next, depth, chosen, i);
                }
            },
            FdtToken::Nop => lemma_chosen_walk_finds_first(fdt, blocks, name, next, depth, chosen, i),
            FdtToken::End => {},
        },
    }
}

/// Whenever `/chosen` holds a property named `name`, looking `name` up
/// finds it: the first such property, whatever nodes come before
/// `/chosen` in the tree.
pub proof fn lemma_find_chosen_prop_complete(fdt: Seq<u8>, name: Seq<u8>, i: int)
    requires
        spec_fdt_blocks(fdt) matches Ok(blocks) && {
            let props = chosen_props(fdt, blocks, blocks.struct_offset as int, 0, None);
            &&& 0 <= i < props.len()
            &&& props[i].0 == name
            &&& forall|j: int| 0 <= j < i ==> #[trigger] props[j].0 != name
        },
    ensures
        spec_fdt_blocks(fdt) matches Ok(blocks) && {
            let props = chosen_props(fdt, blocks, blocks.struct_offset as int, 0, None);
            spec_find_chosen_prop(fdt, name) == Ok::<(usize, usize), FdtError>((props[i].1, props[i].2))
        },
{
    let blocks = spec_fdt_blocks(fdt)->Ok_0;
    lemma_chosen_walk_finds_first(fdt, blocks, name, blocks.struct_offset as int, 0, None, i);
}

/// Finds property `property_name` of `/chosen` and returns its value's
/// offset and length within `fdt`.
pub fn find_chosen_prop(fdt: &[u8], property_name: &[u8]) -> (prop: Result<(usize, usize), FdtError>)
    requires
        slice_len_ok(fdt@.len() as int),
    ensures
        prop == spec_find_chosen_prop(fdt@, property_name@),
        prop matches Ok((offset, len)) ==> offset + len <= fdt@.len(),
{
    let blocks = fdt_blocks(fdt)?;
    let ghost init = chosen_walk(fdt@, blocks, property_name@, blocks.struct_offset as int, 0, None);
    proof {
        lemma_chosen_walk_in_bounds(fdt@, blocks, property_name@, blocks.struct_offset as int, 0, None);
    }
    let mut pos = blocks.struct_offset;
    let mut depth: usize = 0;
    let mut chosen_depth: Option<usize> = None;

    while pos < blocks.struct_end
        invariant
            blocks_fit(fdt@, blocks),
            slice_len_ok(fdt@.len() as int),
            depth <= pos,
            init == spec_find_chosen_prop(fdt@, property_name@),
            blocks == spec_fdt_blocks(fdt@)->Ok_0,
            init matches Ok((offset, len)) ==> offset + len <= blocks.struct_end,
            chosen_walk(fdt@, blocks, property_name@, pos as int, depth as int, match chosen_depth {
                Some(d) => Some(d as int),
                None => None,
            }) == init,
        decreases fdt.len() + 8 - pos,
    {
        let ghost chosen_int = match chosen_depth {
            Some(d) => Some(d as int),
            None => None::<int>,
        };
        proof {
            lemma_next_token_advances(fdt@, blocks.struct_end as int, pos as int);
        }
        let (token, next) = read_fdt_token(fdt, blocks.struct_end, pos)?;
        match token {
            FdtToken::BeginNode { name_start, name_end } => {
                if depth == 1 && bytes_equal(&fdt[name_start..name_end], CHOSEN_NAME.as_slice()) {
                    chosen_depth = Some(depth + 1);
                }
                depth += 1;
            },
            FdtToken::EndNode => {
                if depth == 0 {
                    return Err(FdtError::BadStructure);
                }
                if chosen_depth == Some(depth) {
                    chosen_depth = None;
                }
                depth -= 1;
            },
            FdtToken::Prop { len, name_offset, value_offset } => {
                if chosen_depth == Some(depth) {
                    let prop_name = string_at(fdt, blocks.strings_offset, blocks.strings_end, name_offset)?;
                    if bytes_equal(prop_name, property_name) {
                        return Ok((value_offset, len));
                    }
                }
            },
            FdtToken::Nop => {},
            FdtToken::End => {
                return Err(FdtError::NotFound);
            },
        }
        pos = next;
    }
    Err(FdtError::NotFound)
}

/// `linux,initrd-start`.
pub const INITRD_START_NAME: [u8; 18] = [
    108, 105, 110, 117, 120, 44, 105, 110, 105, 116, 114, 100, 45, 115, 116, 97, 114, 116,
];

/// `linux,initrd-end`.
pub const INITRD_END_NAME: [u8; 16] = [
    108, 105, 110, 117, 120, 44, 105, 110, 105, 116, 114, 100, 45, 101, 110, 100,
];

/// `bootargs`.
pub const BOOTARGS_NAME: [u8; 8] = [98, 111, 111, 116, 97, 114, 103, 115];

/// The four big-endian bytes of `value`.
pub open spec fn be32_bytes(value: int) -> Seq<u8> {
    seq![
        ((value / 0x100_0000) % 0x100) as u8,
        ((value / 0x1_0000) % 0x100) as u8,
        ((value / 0x100) % 0x100) as u8,
        (value % 0x100) as u8,
    ]
}

/// The eight big-endian bytes of `value`.
pub open spec fn be64_bytes(value: int) -> Seq<u8> {
    be32_bytes(value / 0x1_0000_0000) + be32_bytes(value % 0x1_0000_0000)
}

/// Reading back the big-endian bytes of a `u32` value gives the value.
pub(crate) proof fn lemma_be32_bytes_roundtrip(value: int)
    requires
        0 <= value <= u32::MAX,
    ensures
        be32_bytes(value).len() == 4,
        be32(be32_bytes(value), 0) == value,
{
    let b = be32_bytes(value);
    assert(b[0] == value / 0x100_0000);
    assert(b[1] == (value / 0x1_0000) % 0x100);
    assert(b[2] == (value / 0x100) % 0x100);
    assert(b[3] == value % 0x100);
    assert(value == (value / 0x100_0000) * 0x100_0000 + ((value / 0x1_0000) % 0x100) * 0x1_0000
        + ((value / 0x100) % 0x100) * 0x100 + value % 0x100) by (nonlinear_arith)
        requires
            0 <= value <= u32::MAX,
    ;
}

/// Reading back the big-endian bytes of a `u64` value gives the value.
pub(crate) proof fn lemma_be64_bytes_roundtrip(value: int)
    requires
        0 <= value <= u64::MAX,
    ensures
        be64_bytes(value).len() == 8,
        be64(be64_bytes(value), 0) == value,
{
    let high = value / 0x1_0000_0000;
    let low = value % 0x1_0000_0000;
    lemma_be32_bytes_roundtrip(high);
    lemma_be32_bytes_roundtrip(low);
    let b = be64_bytes(value);
    assert(b.subrange(0, 4) =~= be32_bytes(high));
    assert(b.subrange(4, 8) =~= be32_bytes(low));
    assert(be32(b, 0) == be32(be32_bytes(high), 0));
    assert(be32(b, 4) == be32(be32_bytes(low), 0));
}

/// The four big-endian bytes of `value`, computed.
pub fn be32_to_bytes(value: u32) -> (bytes: [u8; 4])
    ensures
        bytes@ == be32_bytes(value as int),
{
    let bytes = [
        ((value / 0x100_0000) % 0x100) as u8,
        ((value / 0x1_0000) % 0x100) as u8,
        ((value / 0x100) % 0x100) as u8,
        (value % 0x100) as u8,
    ];
    assert(bytes@ =~= be32_bytes(value as int));
    bytes
}

/// What `read_address_prop` returns for the property value at
/// `offset..offset + len`: a one- or two-cell big-endian address.
pub open spec fn spec_read_address_prop(fdt: Seq<u8>, offset: int, len: int) -> Result<usize, FdtError> {
    if len == 4 {
        match spec_be32_at(fdt, offset) {
            Err(e) => Err(e),
            Ok(value) => Ok(value as usize),
        }
    } else if len == 8 {
        if offset + 8 > fdt.len() || be64(fdt, offset) > usize::MAX {
            Err(FdtError::BadStructure)
        } else {
            Ok(be64(fdt, offset) as usize)
        }
    } else {
        Err(FdtError::BadStructure)
    }
}

/// Reads a 32- or 64-bit address property.
pub fn read_address_prop(fdt: &[u8], prop: (usize, usize)) -> (address: Result<usize, FdtError>)
    ensures
        address == spec_read_address_prop(fdt@, prop.0 as int, prop.1 as int),
{
    let (offset, len) = prop;
    if len == 4 {
        let value = be32_at(fdt, offset)?;
        proof {
            assert(value as int <= u32::MAX);
        }
        Ok(value as usize)
    } else if len == 8 {
        let value = be64_at(fdt, offset)?;
        if value as u128 > usize::MAX as u128 {
            return Err(FdtError::BadStructure);
        }
        Ok(value as usize)
    } else {
        Err(FdtError::BadStructure)
    }
}

/// `fdt` with `bytes` written at `offset`.
pub open spec fn overwrite(fdt: Seq<u8>, offset: int, bytes: Seq<u8>) -> Seq<u8> {
    fdt.subrange(0, offset) + bytes + fdt.subrange(offset + bytes.len(), fdt.len() as int)
}

/// What `write_address_prop` leaves in `fdt`: the address stored big-endian
/// in a one- or two-cell property, or an error with `fdt` untouched.
pub open spec fn spec_write_address_prop(fdt: Seq<u8>, offset: int, len: int, value: int) -> Result<Seq<u8>, FdtError> {
    if len == 4 {
        if value > u32::MAX || offset + 4 > fdt.len() {
            Err(FdtError::BadStructure)
        } else {
            Ok(overwrite(fdt, offset, be32_bytes(value)))
        }
    } else if len == 8 {
        if value > u64::MAX || offset + 8 > fdt.len() {
            Err(FdtError::BadStructure)
        } else {
            Ok(overwrite(fdt, offset, be64_bytes(value)))
        }
    } else {
        Err(FdtError::BadStructure)
    }
}

/// Stores `bytes` at `offset`.
fn write_bytes_at(fdt: &mut [u8], offset: usize, bytes: &[u8])
    requires
        offset + bytes@.len() <= old(fdt)@.len(),
    ensures
        final(fdt)@ == overwrite(old(fdt)@, offset as int, bytes@),
{
    let fdt_len = fdt.len();
    let mut i: usize = 0;
    while i < bytes.len()
        invariant
            offset + bytes@.len() <= fdt@.len(),
            fdt@.len() == fdt_len,
            fdt@.len() == old(fdt)@.len(),
            i <= bytes@.len(),
            forall|j: int| 0 <= j < offset ==> fdt@[j] == old(fdt)@[j],
            forall|j: int| offset + bytes@.len() <= j < fdt@.len() ==> fdt@[j] == old(fdt)@[j],
            forall|j: int| offset + i <= j < offset + bytes@.len() ==> fdt@[j] == old(fdt)@[j],
            forall|j: int| 0 <= j < i ==> fdt@[offset + j] == bytes@[j],
        decreases bytes@.len() - i,
    {
        fdt[offset + i] = bytes[i];
        i += 1;
    }
    assert(fdt@ =~= overwrite(old(fdt)@, offset as int, bytes@));
}

/// Writes `value` into a 32- or 64-bit address property.
pub fn write_address_prop(fdt: &mut [u8], prop: (usize, usize), value: usize) -> (result: Result<(), FdtError>)
    ensures
        match spec_write_address_prop(old(fdt)@, prop.0 as int, prop.1 as int, value as int) {
            Ok(written) => result is Ok && final(fdt)@ == written,
            Err(e) => result == Err::<(), FdtError>(e) && final(fdt)@ == old(fdt)@,
        },
{
    let (offset, len) = prop;
    let fdt_len = fdt.len();
    if len == 4 {
        if value as u128 > u32::MAX as u128 {
            return Err(FdtError::BadStructure);
        }
        let end = match offset.checked_add(4) {
            Some(end) => end,
            None => return Err(FdtError::BadStructure),
        };
        if end > fdt.len() {
            return Err(FdtError::BadStructure);
        }
        let bytes = be32_to_bytes(value as u32);
        write_bytes_at(fdt, offset, bytes.as_slice());
        Ok(())
    } else if len == 8 {
        let end = match offset.checked_add(8) {
            Some(end) => end,
            None => return Err(FdtError::BadStructure),
        };
        if end > fdt.len() {
            return Err(FdtError::BadStructure);
        }
        let wide = value as u64;
        let high = be32_to_bytes((wide / 0x1_0000_0000) as u32);
        let low = be32_to_bytes((wide % 0x1_0000_0000) as u32);
        write_bytes_at(fdt, offset, high.as_slice());
        write_bytes_at(fdt, offset + 4, low.as_slice());
        proof {
            assert(be64_bytes(value as int) =~= be32_bytes(value as int / 0x1_0000_0000) + be32_bytes(value as int % 0x1_0000_0000));
            assert(fdt@ =~= overwrite(old(fdt)@, offset as int, be64_bytes(value as int)));
        }
        Ok(())
    } else {
        Err(FdtError::BadStructure)
    }
}

/// What `find_initrd_range` returns: `None` when either initrd property is
/// missing, otherwise the two addresses, which must be ordered.
pub open spec fn spec_find_initrd_range(fdt: Seq<u8>) -> Result<Option<(usize, usize)>, FdtError> {
    match spec_find_chosen_prop(fdt, INITRD_START_NAME@) {
        Err(FdtError::NotFound) => Ok(None),
        Err(e) => Err(e),
        Ok(start_prop) => match spec_find_chosen_prop(fdt, INITRD_END_NAME@) {
            Err(FdtError::NotFound) => Ok(None),
            Err(e) => Err(e),
            Ok(end_prop) => match spec_read_address_prop(fdt, start_prop.0 as int, start_prop.1 as int) {
                Err(e) => Err(e),
                Ok(start) => match spec_read_address_prop(fdt, end_prop.0 as int, end_prop.1 as int) {
                    Err(e) => Err(e),
                    Ok(end) => if end <= start {
                        Err(FdtError::BadStructure)
                    } else {
                        Ok(Some((start, end)))
                    },
                },
            },
        },
    }
}

/// Reads `/chosen/linux,initrd-start` and `/chosen/linux,initrd-end`.
pub fn find_initrd_range(fdt: &[u8]) -> (range: Result<Option<(usize, usize)>, FdtError>)
    requires
        slice_len_ok(fdt@.len() as int),
    ensures
        range == spec_find_initrd_range(fdt@),
{
    let start = match find_chosen_prop(fdt, INITRD_START_NAME.as_slice()) {
        Ok(prop) => prop,
        Err(FdtError::NotFound) => return Ok(None),
        Err(err) => return Err(err),
    };
    let end = match find_chosen_prop(fdt, INITRD_END_NAME.as_slice()) {
        Ok(prop) => prop,
        Err(FdtError::NotFound) => return Ok(None),
        Err(err) => return Err(err),
    };
    let start = read_address_prop(fdt, start)?;
    let end = read_address_prop(fdt, end)?;
    if end <= start {
        return Err(FdtError::BadStructure);
    }
    Ok(Some((start, end)))
}

/// What `rewrite_initrd_range` leaves in `fdt` and returns.
pub open spec fn spec_rewrite_initrd_range(fdt: Seq<u8>, start: int, end: int) -> (Seq<u8>, Result<(), FdtError>) {
    if end <= start {
        (fdt, Err(FdtError::BadStructure))
    } else {
        match spec_find_chosen_prop(fdt, INITRD_START_NAME@) {
            Err(e) => (fdt, Err(e)),
            Ok(start_prop) => match spec_find_chosen_prop(fdt, INITRD_END_NAME@) {
                Err(e) => (fdt, Err(e)),
                Ok(end_prop) => match spec_write_address_prop(fdt, start_prop.0 as int, start_prop.1 as int, start) {
                    Err(e) => (fdt, Err(e)),
                    Ok(first) => match spec_write_address_prop(first, end_prop.0 as int, end_prop.1 as int, end) {
                        Err(e) => (first, Err(e)),
                        Ok(second) => (second, Ok(())),
                    },
                },
            },
        }
    }
}

/// Points `/chosen`'s initrd properties at `start..end`, keeping each
/// property's cell width.
pub fn rewrite_initrd_range(fdt: &mut [u8], start: usize, end: usize) -> (result: Result<(), FdtError>)
    requires
        slice_len_ok(old(fdt)@.len() as int),
    ensures
        (final(fdt)@, result) == spec_rewrite_initrd_range(old(fdt)@, start as int, end as int),
        result is Ok && initrd_values_clear(old(fdt)@) ==> {
            let (vs, ls) = spec_find_chosen_prop(old(fdt)@, INITRD_START_NAME@)->Ok_0;
            let (ve, le) = spec_find_chosen_prop(old(fdt)@, INITRD_END_NAME@)->Ok_0;
            &&& spec_find_initrd_range(final(fdt)@) == Ok::<Option<(usize, usize)>, FdtError>(Some((start, end)))
            &&& final(fdt)@.len() == old(fdt)@.len()
            &&& forall|i: int|
                0 <= i < old(fdt)@.len() && !(vs <= i < vs + ls) && !(ve <= i < ve + le)
                    ==> #[trigger] final(fdt)@[i] == old(fdt)@[i]
        },
{
    proof {
        if spec_rewrite_initrd_range(fdt@, start as int, end as int).1 is Ok && initrd_values_clear(fdt@) {
            lemma_initrd_range_read_back(fdt@, start as int, end as int);
        }
    }
    write_initrd_range(fdt, start, end)
}

fn write_initrd_range(fdt: &mut [u8], start: usize, end: usize) -> (result: Result<(), FdtError>)
    requires
        slice_len_ok(old(fdt)@.len() as int),
    ensures
        (final(fdt)@, result) == spec_rewrite_initrd_range(old(fdt)@, start as int, end as int),
{
    if end <= start {
        return Err(FdtError::BadStructure);
    }
    let start_prop = find_chosen_prop(fdt, INITRD_START_NAME.as_slice())?;
    let end_prop = find_chosen_prop(fdt, INITRD_END_NAME.as_slice())?;
    write_address_prop(fdt, start_prop, start)?;
    write_address_prop(fdt, end_prop, end)?;
    Ok(())
}

/// Finds `/chosen/bootargs`.
pub fn find_bootargs(fdt: &[u8]) -> (prop: Result<(usize, usize), FdtError>)
    requires
        slice_len_ok(fdt@.len() as int),
    ensures
        prop == spec_find_chosen_prop(fdt@, BOOTARGS_NAME@),
        prop matches Ok((offset, len)) ==> offset + len <= fdt@.len(),
{
    find_chosen_prop(fdt, BOOTARGS_NAME.as_slice())
}

/// `reserved-memory`.
pub const RESERVED_MEMORY_NAME: [u8; 15] = [
    114, 101, 115, 101, 114, 118, 101, 100, 45, 109, 101, 109, 111, 114, 121,
];

/// `#address-cells`.
pub const ADDRESS_CELLS_NAME: [u8; 14] = [35, 97, 100, 100, 114, 101, 115, 115, 45, 99, 101, 108, 108, 115];

/// `#size-cells`.
pub const SIZE_CELLS_NAME: [u8; 11] = [35, 115, 105, 122, 101, 45, 99, 101, 108, 108, 115];

/// `reg`.
pub const REG_NAME: [u8; 3] = [114, 101, 103];

/// The header fields the reserved-memory search needs.
#[derive(Clone, Copy)]
pub struct FdtLayout {
    pub mem_rsvmap_offset: usize,
    pub blocks: FdtBlocks,
}

/// What `fdt_layout` returns.
pub open spec fn spec_fdt_layout(fdt: Seq<u8>) -> Result<FdtLayout, FdtError> {
    match spec_fdt_blocks(fdt) {
        Err(e) => Err(e),
        Ok(blocks) => if be32(fdt, 16) >= fdt.len() {
            Err(FdtError::BadStructure)
        } else {
            Ok(FdtLayout { mem_rsvmap_offset: be32(fdt, 16) as usize, blocks })
        },
    }
}

/// Reads the header, also checking that the memory reservation map starts
/// inside the blob.
pub fn fdt_layout(fdt: &[u8]) -> (layout: Result<FdtLayout, FdtError>)
    ensures
        layout == spec_fdt_layout(fdt@),
{
    let blocks = fdt_blocks(fdt)?;
    proof {
        lemma_be32_bound(fdt@, 16);
    }
    let mem_rsvmap_offset = be32_at(fdt, 16)? as usize;
    if mem_rsvmap_offset >= fdt.len() {
        return Err(FdtError::BadStructure);
    }
    Ok(FdtLayout { mem_rsvmap_offset, blocks })
}

/// `start..end` and `other_start..other_end` share an address.
pub open spec fn spec_ranges_overlap(start: int, end: int, other_start: int, other_end: int) -> bool {
    start < other_end && other_start < end
}

/// `address` lies in `start..end`.
pub open spec fn in_range(address: int, start: int, end: int) -> bool {
    start <= address < end
}

/// Two non-empty ranges overlap exactly when some address lies in both.
pub proof fn lemma_ranges_overlap_share_address(start: int, end: int, other_start: int, other_end: int)
    requires
        start < end,
        other_start < other_end,
    ensures
        spec_ranges_overlap(start, end, other_start, other_end) <==> exists|a: int|
            #[trigger] in_range(a, start, end) && in_range(a, other_start, other_end),
{
    if spec_ranges_overlap(start, end, other_start, other_end) {
        let a = if start < other_start { other_start } else { start };
        assert(in_range(a, start, end) && in_range(a, other_start, other_end));
    }
}

/// Whether two half-open ranges share an address.
pub fn ranges_overlap(start: usize, end: usize, other_start: usize, other_end: usize) -> (overlap: bool)
    ensures
        overlap == spec_ranges_overlap(start as int, end as int, other_start as int, other_end as int),
{
    start < other_end && other_start < end
}

/// Walks the memory reservation map from `pos` for the first entry that
/// overlaps `start..end`.
pub open spec fn rsvmap_walk(fdt: Seq<u8>, pos: int, start: int, end: int) -> Result<Option<(usize, usize)>, FdtError>
    decreases fdt.len() - pos,
{
    match spec_checked_end(pos, 16, fdt.len() as int) {
        Err(e) => Err(e),
        Ok(entry_end) => {
            let address = be64(fdt, pos);
            let size = be64(fdt, pos + 8);
            if pos < 0 || entry_end <= pos {
                Err(FdtError::BadStructure)
            } else if address == 0 && size == 0 {
                Ok(None)
            } else if size == 0 {
                rsvmap_walk(fdt, entry_end as int, start, end)
            } else if address > usize::MAX || size > usize::MAX || address + size > usize::MAX {
                Err(FdtError::BadStructure)
            } else if spec_ranges_overlap(start, end, address, address + size) {
                Ok(Some((address as usize, (address + size) as usize)))
            } else {
                rsvmap_walk(fdt, entry_end as int, start, end)
            }
        },
    }
}

/// What `find_mem_rsvmap_overlap` returns.
pub open spec fn spec_find_mem_rsvmap_overlap(fdt: Seq<u8>, start: int, end: int) -> Result<Option<(usize, usize)>, FdtError> {
    match spec_fdt_layout(fdt) {
        Err(e) => Err(e),
        Ok(layout) => rsvmap_walk(fdt, layout.mem_rsvmap_offset as int, start, end),
    }
}

/// The first `/memreserve/` entry that overlaps `start..end`.
pub fn find_mem_rsvmap_overlap(fdt: &[u8], start: usize, end: usize) -> (range: Result<Option<(usize, usize)>, FdtError>)
    ensures
        range == spec_find_mem_rsvmap_overlap(fdt@, start as int, end as int),
        range matches Ok(Some((s, e))) ==> start < e && s < end,
{
    proof {
        if let Ok(layout) = spec_fdt_layout(fdt@) {
            lemma_rsvmap_walk_overlaps(fdt@, layout.mem_rsvmap_offset as int, start as int, end as int);
        }
    }
    let layout = fdt_layout(fdt)?;
    let mut pos = layout.mem_rsvmap_offset;
    loop
        invariant
            spec_find_mem_rsvmap_overlap(fdt@, start as int, end as int) == rsvmap_walk(fdt@, pos as int, start as int, end as int),
        decreases fdt@.len() - pos,
    {
        let entry_end = checked_end(pos, 16, fdt.len())?;
        proof {
            lemma_be64_bound(fdt@, pos as int);
            lemma_be64_bound(fdt@, pos + 8);
        }
        let address = be64_at(fdt, pos)?;
        let size = be64_at(fdt, pos + 8)?;
        pos = entry_end;

        if address == 0 && size == 0 {
            return Ok(None);
        }
        if size == 0 {
            continue;
        }
        if address as u128 > usize::MAX as u128 || size as u128 > usize::MAX as u128 {
            return Err(FdtError::BadStructure);
        }
        let reserved_start = address as usize;
        let reserved_end = match reserved_start.checked_add(size as usize) {
            Some(reserved_end) => reserved_end,
            None => return Err(FdtError::BadStructure),
        };
        if ranges_overlap(start, end, reserved_start, reserved_end) {
            return Ok(Some((reserved_start, reserved_end)));
        }
    }
}

/// What `read_u32_prop` returns: a one-cell property's value.
pub open spec fn spec_read_u32_prop(fdt: Seq<u8>, offset: int, len: int) -> Result<usize, FdtError> {
    if len != 4 {
        Err(FdtError::BadStructure)
    } else {
        match spec_be32_at(fdt, offset) {
            Err(e) => Err(e),
            Ok(value) => Ok(value as usize),
        }
    }
}

/// Reads a property that must hold exactly one cell.
pub fn read_u32_prop(fdt: &[u8], offset: usize, len: usize) -> (value: Result<usize, FdtError>)
    ensures
        value == spec_read_u32_prop(fdt@, offset as int, len as int),
{
    if len != 4 {
        return Err(FdtError::BadStructure);
    }
    let value = be32_at(fdt, offset)?;
    Ok(value as usize)
}

/// What `read_cells` returns: `cells` big-endian cells at `offset` as one
/// number, when they fit a `usize`.
pub open spec fn spec_read_cells(fdt: Seq<u8>, offset: int, cells: int) -> Result<usize, FdtError> {
    if cells > usize::BITS / 32 {
        Err(FdtError::BadStructure)
    } else if cells == 0 {
        Ok(0)
    } else if offset + 4 * cells > fdt.len() {
        Err(FdtError::BadStructure)
    } else if cells == 1 {
        Ok(be32(fdt, offset) as usize)
    } else {
        Ok(be64(fdt, offset) as usize)
    }
}

/// Reads an address or size made of `cells` 32-bit cells.
pub fn read_cells(fdt: &[u8], offset: usize, cells: usize) -> (value: Result<usize, FdtError>)
    ensures
        value == spec_read_cells(fdt@, offset as int, cells as int),
{
    if cells > (usize::BITS as usize) / 32 {
        return Err(FdtError::BadStructure);
    }
    if cells == 0 {
        return Ok(0);
    }
    if cells == 1 {
        let value = be32_at(fdt, offset)?;
        return Ok(value as usize);
    }
    let value = be64_at(fdt, offset)?;
    proof {
        lemma_be64_bound(fdt@, offset as int);
    }
    Ok(value as usize)
}

/// Walks the entries of a `reg` value from `pos` to `value_end`.
pub open spec fn reg_walk(
    fdt: Seq<u8>,
    pos: int,
    value_end: int,
    address_cells: int,
    size_cells: int,
    start: int,
    end: int,
) -> Result<Option<(usize, usize)>, FdtError>
    decreases (if pos < value_end { value_end - pos } else { 0 }),
{
    if pos >= value_end || size_cells <= 0 || address_cells < 0 {
        Ok(None)
    } else {
        match spec_read_cells(fdt, pos, address_cells) {
            Err(e) => Err(e),
            Ok(reserved_start) => match spec_read_cells(fdt, pos + address_cells * 4, size_cells) {
                Err(e) => Err(e),
                Ok(reserved_size) => {
                    let next = pos + address_cells * 4 + size_cells * 4;
                    if reserved_size == 0 {
                        reg_walk(fdt, next, value_end, address_cells, size_cells, start, end)
                    } else if reserved_start + reserved_size > usize::MAX {
                        Err(FdtError::BadStructure)
                    } else if spec_ranges_overlap(start, end, reserved_start as int, reserved_start + reserved_size) {
                        Ok(Some((reserved_start, (reserved_start + reserved_size) as usize)))
                    } else {
                        reg_walk(fdt, next, value_end, address_cells, size_cells, start, end)
                    }
                },
            },
        }
    }
}

/// What `find_reg_overlap` returns.
pub open spec fn spec_find_reg_overlap(
    fdt: Seq<u8>,
    offset: int,
    len: int,
    address_cells: int,
    size_cells: int,
    start: int,
    end: int,
) -> Result<Option<(usize, usize)>, FdtError> {
    let entry_len = (address_cells + size_cells) * 4;
    if address_cells + size_cells > usize::MAX || entry_len > usize::MAX || entry_len == 0 || len % entry_len != 0
        || size_cells == 0 {
        Err(FdtError::BadStructure)
    } else {
        match spec_checked_end(offset, len, fdt.len() as int) {
            Err(e) => Err(e),
            Ok(value_end) => reg_walk(fdt, offset, value_end as int, address_cells, size_cells, start, end),
        }
    }
}

/// The first entry of a `reg` property that overlaps `start..end`.
pub fn find_reg_overlap(
    fdt: &[u8],
    offset: usize,
    len: usize,
    address_cells: usize,
    size_cells: usize,
    start: usize,
    end: usize,
) -> (range: Result<Option<(usize, usize)>, FdtError>)
    ensures
        range == spec_find_reg_overlap(fdt@, offset as int, len as int, address_cells as int, size_cells as int, start as int, end as int),
{
    let entry_cells = match address_cells.checked_add(size_cells) {
        Some(cells) => cells,
        None => return Err(FdtError::BadStructure),
    };
    let entry_len = match entry_cells.checked_mul(4) {
        Some(len) => len,
        None => return Err(FdtError::BadStructure),
    };
    if entry_len == 0 || len % entry_len != 0 || size_cells == 0 {
        return Err(FdtError::BadStructure);
    }
    let value_end = checked_end(offset, len, fdt.len())?;
    let mut pos = offset;
    assert((value_end - pos) % entry_len as int == 0);
    while pos < value_end
        invariant
            size_cells > 0,
            offset <= pos,
            value_end <= fdt@.len(),
            (value_end - pos) % entry_len as int == 0,
            value_end == offset + len,
            entry_len == (address_cells + size_cells) * 4,
            spec_find_reg_overlap(fdt@, offset as int, len as int, address_cells as int, size_cells as int, start as int, end as int)
                == reg_walk(fdt@, pos as int, value_end as int, address_cells as int, size_cells as int, start as int, end as int),
        decreases value_end - pos,
    {
        assert(pos + entry_len <= value_end && (value_end - (pos + entry_len)) % entry_len as int == 0)
            by (nonlinear_arith)
            requires
                pos < value_end,
                (value_end - pos) % entry_len as int == 0,
                entry_len > 0,
        ;
        let reserved_start = read_cells(fdt, pos, address_cells)?;
        pos += address_cells * 4;
        let reserved_size = read_cells(fdt, pos, size_cells)?;
        pos += size_cells * 4;
        if reserved_size == 0 {
            continue;
        }
        let reserved_end = match reserved_start.checked_add(reserved_size) {
            Some(reserved_end) => reserved_end,
            None => return Err(FdtError::BadStructure),
        };
        if ranges_overlap(start, end, reserved_start, reserved_end) {
            return Ok(Some((reserved_start, reserved_end)));
        }
    }
    Ok(None)
}

/// The `(#address-cells, #size-cells)` pair after a property named `name`
/// with value `fdt[offset..offset + len]` has been seen: the property sets
/// one of the two when it is named after it.
pub open spec fn spec_cells_after(fdt: Seq<u8>, name: Seq<u8>, offset: int, len: int, cells: (int, int)) -> Result<(int, int), FdtError> {
    if name == ADDRESS_CELLS_NAME@ {
        match spec_read_u32_prop(fdt, offset, len) {
            Err(e) => Err(e),
            Ok(value) => Ok((value as int, cells.1)),
        }
    } else if name == SIZE_CELLS_NAME@ {
        match spec_read_u32_prop(fdt, offset, len) {
            Err(e) => Err(e),
            Ok(value) => Ok((cells.0, value as int)),
        }
    } else {
        Ok(cells)
    }
}

/// The state of the reserved-memory walk between tokens.
pub struct ReservedWalk {
    pub depth: int,
    /// The root's `#address-cells` and `#size-cells`.
    pub root_cells: (int, int),
    /// The depth of `/reserved-memory`'s own properties while it is open.
    pub reserved_depth: Option<int>,
    /// The cell sizes that apply to `/reserved-memory`'s children.
    pub reserved_cells: (int, int),
}

/// Walks the structure block from `pos` for the first `reg` entry of a child
/// of `/reserved-memory` that overlaps `start..end`.
pub open spec fn reserved_walk(
    fdt: Seq<u8>,
    blocks: FdtBlocks,
    start: int,
    end: int,
    pos: int,
    state: ReservedWalk,
) -> Result<Option<(usize, usize)>, FdtError>
    decreases fdt.len() + 8 - pos,
{
    if pos >= blocks.struct_end || pos < 0 || blocks.struct_end > fdt.len() {
        Ok(None)
    } else {
        proof {
            lemma_next_token_advances(fdt, blocks.struct_end as int, pos);
        }
        match spec_next_token(fdt, blocks.struct_end as int, pos) {
            Err(e) => Err(e),
            Ok((token, next)) => match token {
                FdtToken::BeginNode { name_start, name_end } => {
                    let entered = state.depth == 1 && fdt.subrange(name_start as int, name_end as int) == RESERVED_MEMORY_NAME@;
                    let state2 = ReservedWalk {
                        depth: state.depth + 1,
                        root_cells: state.root_cells,
                        reserved_depth: if entered { Some(state.depth + 1) } else { state.reserved_depth },
                        reserved_cells: if entered { state.root_cells } else { state.reserved_cells },
                    };
                    reserved_walk(fdt, blocks, start, end, next, state2)
                },
                FdtToken::EndNode => {
                    if state.depth == 0 {
                        Err(FdtError::BadStructure)
                    } else {
                        let state2 = ReservedWalk {
                            depth: state.depth - 1,
                            reserved_depth: if state.reserved_depth == Some(state.depth) { None } else { state.reserved_depth },
                            ..state
                        };
                        reserved_walk(fdt, blocks, start, end, next, state2)
                    }
                },
                FdtToken::Prop { len, name_offset, value_offset } => {
                    match spec_string_at(fdt, blocks.strings_offset as int, blocks.strings_end as int, name_offset as int) {
                        Err(e) => Err(e),
                        Ok(name) => {
                            let root = if state.depth == 1 {
                                spec_cells_after(fdt, name, value_offset as int, len as int, state.root_cells)
                            } else {
                                Ok(state.root_cells)
                            };
                            match root {
                                Err(e) => Err(e),
                                Ok(root_cells) => {
                                    let reserved = if state.reserved_depth == Some(state.depth) {
                                        spec_cells_after(fdt, name, value_offset as int, len as int, state.reserved_cells)
                                    } else {
                                        Ok(state.reserved_cells)
                                    };
                                    match reserved {
                                        Err(e) => Err(e),
                                        Ok(reserved_cells) => {
                                            let state2 = ReservedWalk { root_cells, reserved_cells, ..state };
                                            if state.reserved_depth is Some && state.depth == state.reserved_depth->0 + 1
                                                && name == REG_NAME@ {
                                                match spec_find_reg_overlap(
                                                    fdt,
                                                    value_offset as int,
                                                    len as int,
                                                    reserved_cells.0,
                                                    reserved_cells.1,
                                                    start,
                                                    end,
                                                ) {
                                                    Err(e) => Err(e),
                                                    Ok(Some(range)) => Ok(Some(range)),
                                                    Ok(None) => reserved_walk(fdt, blocks, start, end, next, state2),
                                                }
                                            } else {
                                                reserved_walk(fdt, blocks, start, end, next, state2)
                                            }
                                        },
                                    }
                                },
                            }
                        },
                    }
                },
                FdtToken::Nop => reserved_walk(fdt, blocks, start, end, next, state),
                FdtToken::End => Ok(None),
            },
        }
    }
}

/// What `find_reserved_memory_node_overlap` returns.
pub open spec fn spec_find_reserved_memory_node_overlap(fdt: Seq<u8>, start: int, end: int) -> Result<Option<(usize, usize)>, FdtError> {
    match spec_fdt_layout(fdt) {
        Err(e) => Err(e),
        Ok(layout) => reserved_walk(
            fdt,
            layout.blocks,
            start,
            end,
            layout.blocks.struct_offset as int,
            ReservedWalk { depth: 0, root_cells: (2, 1), reserved_depth: None, reserved_cells: (2, 1) },
        ),
    }
}

/// Updates a cell-size pair from a `#address-cells` or `#size-cells`
/// property.
fn cells_after(
    fdt: &[u8],
    name: &[u8],
    offset: usize,
    len: usize,
    address_cells: usize,
    size_cells: usize,
) -> (cells: Result<(usize, usize), FdtError>)
    ensures
        cells matches Ok((a, s)) ==> spec_cells_after(fdt@, name@, offset as int, len as int, (address_cells as int, size_cells as int))
            == Ok::<(int, int), FdtError>((a as int, s as int)),
        cells matches Err(e) ==> spec_cells_after(fdt@, name@, offset as int, len as int, (address_cells as int, size_cells as int))
            == Err::<(int, int), FdtError>(e),
{
    if bytes_equal(name, ADDRESS_CELLS_NAME.as_slice()) {
        let value = read_u32_prop(fdt, offset, len)?;
        Ok((value, size_cells))
    } else if bytes_equal(name, SIZE_CELLS_NAME.as_slice()) {
        let value = read_u32_prop(fdt, offset, len)?;
        Ok((address_cells, value))
    } else {
        Ok((address_cells, size_cells))
    }
}

/// The first `reg` entry of a `/reserved-memory` child that overlaps
/// `start..end`, using the cell sizes in force for that node.
pub fn find_reserved_memory_node_overlap(fdt: &[u8], start: usize, end: usize) -> (range: Result<Option<(usize, usize)>, FdtError>)
    requires
        slice_len_ok(fdt@.len() as int),
    ensures
        range == spec_find_reserved_memory_node_overlap(fdt@, start as int, end as int),
        range matches Ok(Some((s, e))) ==> start < e && s < end,
{
    proof {
        if let Ok(layout) = spec_fdt_layout(fdt@) {
            lemma_reserved_walk_overlaps(
                fdt@,
                layout.blocks,
                start as int,
                end as int,
                layout.blocks.struct_offset as int,
                ReservedWalk { depth: 0, root_cells: (2, 1), reserved_depth: None, reserved_cells: (2, 1) },
            );
        }
    }
    walk_reserved_memory_nodes(fdt, start, end)
}

fn walk_reserved_memory_nodes(fdt: &[u8], start: usize, end: usize) -> (range: Result<Option<(usize, usize)>, FdtError>)
    requires
        slice_len_ok(fdt@.len() as int),
    ensures
        range == spec_find_reserved_memory_node_overlap(fdt@, start as int, end as int),
{
    let layout = fdt_layout(fdt)?;
    let blocks = layout.blocks;
    let mut pos = blocks.struct_offset;
    let mut depth: usize = 0;
    let mut root_address_cells: usize = 2;
    let mut root_size_cells: usize = 1;
    let mut reserved_depth: Option<usize> = None;
    let mut reserved_address_cells = root_address_cells;
    let mut reserved_size_cells = root_size_cells;

    while pos < blocks.struct_end
        invariant
            blocks_fit(fdt@, blocks),
            slice_len_ok(fdt@.len() as int),
            depth <= pos,
            spec_find_reserved_memory_node_overlap(fdt@, start as int, end as int) == reserved_walk(
                fdt@,
                blocks,
                start as int,
                end as int,
                pos as int,
                ReservedWalk {
                    depth: depth as int,
                    root_cells: (root_address_cells as int, root_size_cells as int),
                    reserved_depth: match reserved_depth {
                        Some(d) => Some(d as int),
                        None => None,
                    },
                    reserved_cells: (reserved_address_cells as int, reserved_size_cells as int),
                },
            ),
        decreases fdt@.len() + 8 - pos,
    {
        proof {
            lemma_next_token_advances(fdt@, blocks.struct_end as int, pos as int);
        }
        let (token, next) = read_fdt_token(fdt, blocks.struct_end, pos)?;
        match token {
            FdtToken::BeginNode { name_start, name_end } => {
                if depth == 1 && bytes_equal(&fdt[name_start..name_end], RESERVED_MEMORY_NAME.as_slice()) {
                    reserved_depth = Some(depth + 1);
                    reserved_address_cells = root_address_cells;
                    reserved_size_cells = root_size_cells;
                }
                depth += 1;
            },
            FdtToken::EndNode => {
                if depth == 0 {
                    return Err(FdtError::BadStructure);
                }
                if reserved_depth == Some(depth) {
                    reserved_depth = None;
                }
                depth -= 1;
            },
            FdtToken::Prop { len, name_offset, value_offset } => {
                let name = string_at(fdt, blocks.strings_offset, blocks.strings_end, name_offset)?;
                if depth == 1 {
                    let (a, s) = cells_after(fdt, name, value_offset, len, root_address_cells, root_size_cells)?;
                    root_address_cells = a;
                    root_size_cells = s;
                }
                if reserved_depth == Some(depth) {
                    let (a, s) = cells_after(fdt, name, value_offset, len, reserved_address_cells, reserved_size_cells)?;
                    reserved_address_cells = a;
                    reserved_size_cells = s;
                }
                if let Some(open_depth) = reserved_depth {
                    if depth as u128 == open_depth as u128 + 1 && bytes_equal(name, REG_NAME.as_slice()) {
                        let found = find_reg_overlap(
                            fdt,
                            value_offset,
                            len,
                            reserved_address_cells,
                            reserved_size_cells,
                            start,
                            end,
                        )?;
                        if let Some(range) = found {
                            return Ok(Some(range));
                        }
                    }
                }
            },
            FdtToken::Nop => {},
            FdtToken::End => {
                return Ok(None);
            },
        }
        pos = next;
    }
    Ok(None)
}

/// What `find_reserved_memory_overlap` returns: the first reserved range
/// overlapping `start..end`, from the reservation map and then from
/// `/reserved-memory`.
pub open spec fn spec_find_reserved_memory_overlap(fdt: Seq<u8>, start: int, end: int) -> Result<Option<(usize, usize)>, FdtError> {
    if end <= start {
        Ok(None)
    } else {
        match spec_find_mem_rsvmap_overlap(fdt, start, end) {
            Err(e) => Err(e),
            Ok(Some(range)) => Ok(Some(range)),
            Ok(None) => spec_find_reserved_memory_node_overlap(fdt, start, end),
        }
    }
}

/// The first reserved range that overlaps `start..end`.
pub fn find_reserved_memory_overlap(fdt: &[u8], start: usize, end: usize) -> (range: Result<Option<(usize, usize)>, FdtError>)
    requires
        slice_len_ok(fdt@.len() as int),
    ensures
        range == spec_find_reserved_memory_overlap(fdt@, start as int, end as int),
        range matches Ok(Some((s, e))) ==> start < e && s < end,
{
    proof {
        lemma_reserved_memory_overlap_overlaps(fdt@, start as int, end as int);
    }
    if end <= start {
        return Ok(None);
    }
    if let Some(range) = find_mem_rsvmap_overlap(fdt, start, end)? {
        return Ok(Some(range));
    }
    find_reserved_memory_node_overlap(fdt, start, end)
}

/// A memory reservation entry that the walk reports overlaps the range.
proof fn lemma_rsvmap_walk_overlaps(fdt: Seq<u8>, pos: int, start: int, end: int)
    ensures
        rsvmap_walk(fdt, pos, start, end) matches Ok(Some((s, e))) ==> start < e && s < end,
    decreases fdt.len() - pos,
{
    if let Ok(entry_end) = spec_checked_end(pos, 16, fdt.len() as int) {
        if pos >= 0 && entry_end > pos {
            lemma_rsvmap_walk_overlaps(fdt, entry_end as int, start, end);
        }
    }
}

/// A `reg` entry that the walk reports overlaps the range.
proof fn lemma_reg_walk_overlaps(
    fdt: Seq<u8>,
    pos: int,
    value_end: int,
    address_cells: int,
    size_cells: int,
    start: int,
    end: int,
)
    ensures
        reg_walk(fdt, pos, value_end, address_cells, size_cells, start, end) matches Ok(Some((s, e))) ==> start < e && s < end,
    decreases (if pos < value_end { value_end - pos } else { 0 }),
{
    if !(pos >= value_end || size_cells <= 0 || address_cells < 0) {
        let next = pos + address_cells * 4 + size_cells * 4;
        lemma_reg_walk_overlaps(fdt, next, value_end, address_cells, size_cells, start, end);
    }
}

/// A `/reserved-memory` region that the walk reports overlaps the range.
proof fn lemma_reserved_walk_overlaps(
    fdt: Seq<u8>,
    blocks: FdtBlocks,
    start: int,
    end: int,
    pos: int,
    state: ReservedWalk,
)
    ensures
        reserved_walk(fdt, blocks, start, end, pos, state) matches Ok(Some((s, e))) ==> start < e && s < end,
    decreases fdt.len() + 8 - pos,
{
    if !(pos >= blocks.struct_end || pos < 0 || blocks.struct_end > fdt.len()) {
        lemma_next_token_advances(fdt, blocks.struct_end as int, pos);
        match spec_next_token(fdt, blocks.struct_end as int, pos) {
            Err(e) => {},
            Ok((token, next)) => match token {
                FdtToken::BeginNode { name_start, name_end } => {
                    let entered = state.depth == 1 && fdt.subrange(name_start as int, name_end as int) == RESERVED_MEMORY_NAME@;
                    let state2 = ReservedWalk {
                        depth: state.depth + 1,
                        root_cells: state.root_cells,
                        reserved_depth: if entered { Some(state.depth + 1) } else { state.reserved_depth },
                        reserved_cells: if entered { state.root_cells } else { state.reserved_cells },
                    };
                    lemma_reserved_walk_overlaps(fdt, blocks, start, end, next, state2);
                },
                FdtToken::EndNode => {
                    if state.depth != 0 {
                        let state2 = ReservedWalk {
                            depth: state.depth - 1,
                            reserved_depth: if state.reserved_depth == Some(state.depth) { None } else { state.reserved_depth },
                            ..state
                        };
                        lemma_reserved_walk_overlaps(fdt, blocks, start, end, next, state2);
                    }
                },
                FdtToken::Prop { len, name_offset, value_offset } => {
                    if let Ok(name) = spec_string_at(fdt, blocks.strings_offset as int, blocks.strings_end as int, name_offset as int) {
                        let root = if state.depth == 1 {
                            spec_cells_after(fdt, name, value_offset as int, len as int, state.root_cells)
                        } else {
                            Ok(state.root_cells)
                        };
                        if let Ok(root_cells) = root {
                            let reserved = if state.reserved_depth == Some(state.depth) {
                                spec_cells_after(fdt, name, value_offset as int, len as int, state.reserved_cells)
                            } else {
                                Ok(state.reserved_cells)
                            };
                            if let Ok(reserved_cells) = reserved {
                                let state2 = ReservedWalk { root_cells, reserved_cells, ..state };
                                lemma_reserved_walk_overlaps(fdt, blocks, start, end, next, state2);
                                let entry_len = (reserved_cells.0 + reserved_cells.1) * 4;
                                if let Ok(value_end) = spec_checked_end(value_offset as int, len as int, fdt.len() as int) {
                                    lemma_reg_walk_overlaps(
                                        fdt,
                                        value_offset as int,
                                        value_end as int,
                                        reserved_cells.0,
                                        reserved_cells.1,
                                        start,
                                        end,
                                    );
                                }
                            }
                        }
                    }
                },
                FdtToken::Nop => lemma_reserved_walk_overlaps(fdt, blocks, start, end, next, state),
                FdtToken::End => {},
            },
        }
    }
}

/// A `reg` property of a child of `/reserved-memory`: where its value
/// lies, how long it is, and the cell sizes that `/reserved-memory` gives
/// its children.
pub struct RegProp {
    pub offset: int,
    pub len: int,
    pub address_cells: int,
    pub size_cells: int,
}

/// Every `reg` property of a child of `/reserved-memory` from `pos` on, in
/// structure-block order, with the cell sizes in force for it; the list
/// ends where the structure block ends or stops reading.
pub open spec fn reserved_regs(fdt: Seq<u8>, blocks: FdtBlocks, pos: int, state: ReservedWalk) -> Seq<RegProp>
    decreases fdt.len() + 8 - pos,
{
    if pos >= blocks.struct_end || pos < 0 || blocks.struct_end > fdt.len() {
        Seq::empty()
    } else {
        proof {
            lemma_next_token_advances(fdt, blocks.struct_end as int, pos);
        }
        match spec_next_token(fdt, blocks.struct_end as int, pos) {
            Err(_) => Seq::empty(),
            Ok((token, next)) => match token {
                FdtToken::BeginNode { name_start, name_end } => {
                    let entered = state.depth == 1 && fdt.subrange(name_start as int, name_end as int)
                        == RESERVED_MEMORY_NAME@;
                    reserved_regs(
                        fdt,
                        blocks,
                        next,
                        ReservedWalk {
                            depth: state.depth + 1,
                            root_cells: state.root_cells,
                            reserved_depth: if entered { Some(state.depth + 1) } else { state.reserved_depth },
                            reserved_cells: if entered { state.root_cells } else { state.reserved_cells },
                        },
                    )
                },
                FdtToken::EndNode => if state.depth == 0 {
                    Seq::empty()
                } else {
                    reserved_regs(
                        fdt,
                        blocks,
                        next,
                        ReservedWalk {
                            depth: state.depth - 1,
                            reserved_depth: if state.reserved_depth == Some(state.depth) {
                                None
                            } else {
                                state.reserved_depth
                            },
                            ..state
                        },
                    )
                },
                FdtToken::Prop { len, name_offset, value_offset } => match spec_string_at(
                    fdt,
                    blocks.strings_offset as int,
                    blocks.strings_end as int,
                    name_offset as int,
                ) {
                    Err(_) => Seq::empty(),
                    Ok(name) => {
                        let root = if state.depth == 1 {
                            spec_cells_after(fdt, name, value_offset as int, len as int, state.root_cells)
                        } else {
                            Ok(state.root_cells)
                        };
                        let reserved = if state.reserved_depth == Some(state.depth) {
                            spec_cells_after(fdt, name, value_offset as int, len as int, state.reserved_cells)
                        } else {
                            Ok(state.reserved_cells)
                        };
                        match (root, reserved) {
                            (Ok(root_cells), Ok(reserved_cells)) => {
                                let rest = reserved_regs(
                                    fdt,
                                    blocks,
                                    next,
                                    ReservedWalk { root_cells, reserved_cells, ..state },
                                );
                                if state.reserved_depth is Some && state.depth == state.reserved_depth->0 + 1
                                    && name == REG_NAME@ {
                                    seq![
                                        RegProp {
                                            offset: value_offset as int,
                                            len: len as int,
                                            address_cells: reserved_cells.0,
                                            size_cells: reserved_cells.1,
                                        },
                                    ] + rest
                                } else {
                                    rest
                                }
                            },
                            _ => Seq::empty(),
                        }
                    },
                },
                FdtToken::Nop => reserved_regs(fdt, blocks, next, state),
                FdtToken::End => Seq::empty(),
            },
        }
    }
}

/// Where the reserved-memory walk finds no overlap, no `reg` property of a
/// child of `/reserved-memory` that it passes has one either.
proof fn lemma_reserved_walk_complete(
    fdt: Seq<u8>,
    blocks: FdtBlocks,
    start: int,
    end: int,
    pos: int,
    state: ReservedWalk,
    i: int,
)
    requires
        reserved_walk(fdt, blocks, start, end, pos, state) == Ok::<Option<(usize, usize)>, FdtError>(None),
        0 <= i < reserved_regs(fdt, blocks, pos, state).len(),
    ensures
        ({
            let r = reserved_regs(fdt, blocks, pos, state)[i];
            spec_find_reg_overlap(fdt, r.offset, r.len, r.address_cells, r.size_cells, start, end)
                == Ok::<Option<(usize, usize)>, FdtError>(None)
        }),
    decreases fdt.len() + 8 - pos,
{
    let regs = reserved_regs(fdt, blocks, pos, state);
    lemma_next_token_advances(fdt, blocks.struct_end as int, pos);
    match spec_next_token(fdt, blocks.struct_end as int, pos) {
        Err(_) => {},
        Ok((token, next)) => match token {
            FdtToken::BeginNode { name_start, name_end } => {
                let entered = state.depth == 1 && fdt.subrange(name_start as int, name_end as int) == RESERVED_MEMORY_NAME@;
                let state2 = ReservedWalk {
                    depth: state.depth + 1,
                    root_cells: state.root_cells,
                    reserved_depth: if entered { Some(state.depth + 1) } else { state.reserved_depth },
                    reserved_cells: if entered { state.root_cells } else { state.reserved_cells },
                };
                lemma_reserved_walk_complete(fdt, blocks, start, end, next, state2, i);
            },
            FdtToken::EndNode => {
                let state2 = ReservedWalk {
                    depth: state.depth - 1,
                    reserved_depth: if state.reserved_depth == Some(state.depth) { None } else { state.reserved_depth },
                    ..state
                };
                lemma_reserved_walk_complete(fdt, blocks, start, end, next, state2, i);
            },
            FdtToken::Prop { len, name_offset, value_offset } => {
                let name = spec_string_at(
                    fdt,
                    blocks.strings_offset as int,
                    blocks.strings_end as int,
                    name_offset as int,
                )->Ok_0;
                let root = if state.depth == 1 {
                    spec_cells_after(fdt, name, value_offset as int, len as int, state.root_cells)
                } else {
                    Ok(state.root_cells)
                };
                let reserved = if state.reserved_depth == Some(state.depth) {
                    spec_cells_after(fdt, name, value_offset as int, len as int, state.reserved_cells)
                } else {
                    Ok(state.reserved_cells)
                };
                let root_cells = root->Ok_0;
                let reserved_cells = reserved->Ok_0;
                let state2 = ReservedWalk { root_cells, reserved_cells, ..state };
                let rest = reserved_regs(fdt, blocks, next, state2);
                if state.reserved_depth is Some && state.depth == state.reserved_depth->0 + 1 && name == REG_NAME@ {
                    if i > 0 {
                        assert(regs[i] == rest[i - 1]);
                        lemma_reserved_walk_complete(fdt, blocks, start, end, next, state2, i - 1);
                    }
                } else {
                    lemma_reserved_walk_complete(fdt, blocks, start, end, next, state2, i);
                }
            },
            FdtToken::Nop => lemma_reserved_walk_complete(fdt, blocks, start, end, next, state, i),
            FdtToken::End => {},
        },
    }
}

/// Where a `reg` value has no entry overlapping `start..end`, every entry
/// of it, read from its cells, is empty or shares no address with
/// `start..end`.
proof fn lemma_reg_walk_complete(
    fdt: Seq<u8>,
    pos: int,
    value_end: int,
    address_cells: int,
    size_cells: int,
    start: int,
    end: int,
    k: int,
)
    requires
        reg_walk(fdt, pos, value_end, address_cells, size_cells, start, end) == Ok::<
            Option<(usize, usize)>,
            FdtError,
        >(None),
        0 <= address_cells,
        0 < size_cells,
        0 <= k,
        pos + k * (address_cells + size_cells) * 4 < value_end,
        start < end,
    ensures
        ({
            let q = pos + k * (address_cells + size_cells) * 4;
            spec_read_cells(fdt, q, address_cells) matches Ok(s) && spec_read_cells(
                fdt,
                q + address_cells * 4,
                size_cells,
            ) matches Ok(size) && (size == 0 || forall|a: int|
                !(#[trigger] in_range(a, start, end) && in_range(a, s as int, s + size)))
        }),
    decreases k,
{
    let e = (address_cells + size_cells) * 4;
    let next = pos + address_cells * 4 + size_cells * 4;
    assert(e > 0) by (nonlinear_arith)
        requires
            0 <= address_cells,
            0 < size_cells,
            e == (address_cells + size_cells) * 4,
    ;
    if k == 0 {
        assert(pos + k * (address_cells + size_cells) * 4 == pos) by (nonlinear_arith)
            requires
                k == 0,
        ;
        let s = spec_read_cells(fdt, pos, address_cells)->Ok_0;
        let size = spec_read_cells(fdt, pos + address_cells * 4, size_cells)->Ok_0;
        if size > 0 {
            lemma_ranges_overlap_share_address(start, end, s as int, s + size);
        }
    } else {
        assert(pos + k * (address_cells + size_cells) * 4 == next + (k - 1) * (address_cells + size_cells) * 4)
            by (nonlinear_arith)
            requires
                next == pos + address_cells * 4 + size_cells * 4,
        ;
        assert(pos + k * (address_cells + size_cells) * 4 >= next) by (nonlinear_arith)
            requires
                k >= 1,
                next == pos + address_cells * 4 + size_cells * 4,
                0 <= address_cells,
                0 < size_cells,
        ;
        lemma_reg_walk_complete(fdt, next, value_end, address_cells, size_cells, start, end, k - 1);
    }
}

/// The `reg` properties of the children of `/reserved-memory` in `fdt`.
pub open spec fn reserved_memory_regs(fdt: Seq<u8>) -> Seq<RegProp> {
    match spec_fdt_layout(fdt) {
        Err(_) => Seq::empty(),
        Ok(layout) => reserved_regs(
            fdt,
            layout.blocks,
            layout.blocks.struct_offset as int,
            ReservedWalk { depth: 0, root_cells: (2, 1), reserved_depth: None, reserved_cells: (2, 1) },
        ),
    }
}

/// Entry `k` of the `reg` property `r` is empty or shares no address with
/// `start..end`.
pub open spec fn reg_entry_clear(fdt: Seq<u8>, r: RegProp, k: int, start: int, end: int) -> bool {
    let q = r.offset + k * (r.address_cells + r.size_cells) * 4;
    spec_read_cells(fdt, q, r.address_cells) matches Ok(s) && spec_read_cells(
        fdt,
        q + r.address_cells * 4,
        r.size_cells,
    ) matches Ok(size) && (size == 0 || forall|a: int|
        !(#[trigger] in_range(a, start, end) && in_range(a, s as int, s + size)))
}

/// The cell sizes in force for each collected `reg` property are never
/// negative.
proof fn lemma_reserved_regs_cells(fdt: Seq<u8>, blocks: FdtBlocks, pos: int, state: ReservedWalk, i: int)
    requires
        state.root_cells.0 >= 0 && state.root_cells.1 >= 0,
        state.reserved_cells.0 >= 0 && state.reserved_cells.1 >= 0,
        0 <= i < reserved_regs(fdt, blocks, pos, state).len(),
    ensures
        reserved_regs(fdt, blocks, pos, state)[i].address_cells >= 0,
        reserved_regs(fdt, blocks, pos, state)[i].size_cells >= 0,
    decreases fdt.len() + 8 - pos,
{
    let regs = reserved_regs(fdt, blocks, pos, state);
    lemma_next_token_advances(fdt, blocks.struct_end as int, pos);
    match spec_next_token(fdt, blocks.struct_end as int, pos) {
        Err(_) => {},
        Ok((token, next)) => match token {
            FdtToken::BeginNode { name_start, name_end } => {
                let entered = state.depth == 1 && fdt.subrange(name_start as int, name_end as int) == RESERVED_MEMORY_NAME@;
                let state2 = ReservedWalk {
                    depth: state.depth + 1,
                    root_cells: state.root_cells,
                    reserved_depth: if entered { Some(state.depth + 1) } else { state.reserved_depth },
                    reserved_cells: if entered { state.root_cells } else { state.reserved_cells },
                };
                lemma_reserved_regs_cells(fdt, blocks, next, state2, i);
            },
            FdtToken::EndNode => {
                let state2 = ReservedWalk {
                    depth: state.depth - 1,
                    reserved_depth: if state.reserved_depth == Some(state.depth) { None } else { state.reserved_depth },
                    ..state
                };
                lemma_reserved_regs_cells(fdt, blocks, next, state2, i);
            },
            FdtToken::Prop { len, name_offset, value_offset } => {
                let name = spec_string_at(
                    fdt,
                    blocks.strings_offset as int,
                    blocks.strings_end as int,
                    name_offset as int,
                )->Ok_0;
                let root = if state.depth == 1 {
                    spec_cells_after(fdt, name, value_offset as int, len as int, state.root_cells)
                } else {
                    Ok(state.root_cells)
                };
                let reserved = if state.reserved_depth == Some(state.depth) {
                    spec_cells_after(fdt, name, value_offset as int, len as int, state.reserved_cells)
                } else {
                    Ok(state.reserved_cells)
                };
                let state2 = ReservedWalk { root_cells: root->Ok_0, reserved_cells: reserved->Ok_0, ..state };
                let rest = reserved_regs(fdt, blocks, next, state2);
                if state.reserved_depth is Some && state.depth == state.reserved_depth->0 + 1 && name == REG_NAME@ {
                    if i > 0 {
                        assert(regs[i] == rest[i - 1]);
                        lemma_reserved_regs_cells(fdt, blocks, next, state2, i - 1);
                    }
                } else {
                    lemma_reserved_regs_cells(fdt, blocks, next, state2, i);
                }
            },
            FdtToken::Nop => lemma_reserved_regs_cells(fdt, blocks, next, state, i),
            FdtToken::End => {},
        },
    }
}

/// A `reg` property with no entry overlapping `start..end` has every
/// entry clear of it.
proof fn lemma_reg_prop_clear(fdt: Seq<u8>, r: RegProp, k: int, start: int, end: int)
    requires
        spec_find_reg_overlap(fdt, r.offset, r.len, r.address_cells, r.size_cells, start, end) == Ok::<
            Option<(usize, usize)>,
            FdtError,
        >(None),
        0 <= r.address_cells,
        0 <= r.size_cells,
        0 <= k,
        k * (r.address_cells + r.size_cells) * 4 < r.len,
        start < end,
    ensures
        reg_entry_clear(fdt, r, k, start, end),
{
    let value_end = spec_checked_end(r.offset, r.len, fdt.len() as int)->Ok_0;
    assert(r.size_cells != 0);
    lemma_reg_walk_complete(fdt, r.offset, value_end as int, r.address_cells, r.size_cells, start, end, k);
}

/// Where the `/reserved-memory` lookup finds nothing overlapping a
/// non-empty `start..end`, every entry of every `reg` property of every
/// child of `/reserved-memory` is empty or shares no address with
/// `start..end`, wherever it stands in the tree.
pub proof fn lemma_reserved_memory_nodes_clear(fdt: Seq<u8>, start: int, end: int, i: int, k: int)
    requires
        start < end,
        spec_find_reserved_memory_node_overlap(fdt, start, end) == Ok::<Option<(usize, usize)>, FdtError>(None),
        0 <= i < reserved_memory_regs(fdt).len(),
        0 <= k,
        k * (reserved_memory_regs(fdt)[i].address_cells + reserved_memory_regs(fdt)[i].size_cells) * 4
            < reserved_memory_regs(fdt)[i].len,
    ensures
        reg_entry_clear(fdt, reserved_memory_regs(fdt)[i], k, start, end),
{
    let layout = spec_fdt_layout(fdt)->Ok_0;
    let init = ReservedWalk { depth: 0, root_cells: (2, 1), reserved_depth: None, reserved_cells: (2, 1) };
    lemma_reserved_walk_complete(fdt, layout.blocks, start, end, layout.blocks.struct_offset as int, init, i);
    lemma_reserved_regs_cells(fdt, layout.blocks, layout.blocks.struct_offset as int, init, i);
    lemma_reg_prop_clear(fdt, reserved_memory_regs(fdt)[i], k, start, end);
}

/// The `k`-th entry of the memory reservation map at `pos` is its end
/// marker: address and size both zero.
pub open spec fn rsvmap_entry_is_end(fdt: Seq<u8>, pos: int, k: int) -> bool {
    be64(fdt, pos + 16 * k) == 0 && be64(fdt, pos + 16 * k + 8) == 0
}

/// The `k`-th entry of the memory reservation map at `pos` is the end
/// marker, empty, or shares no address with `start..end`.
pub open spec fn rsvmap_entry_clear(fdt: Seq<u8>, pos: int, k: int, start: int, end: int) -> bool {
    let address = be64(fdt, pos + 16 * k);
    let size = be64(fdt, pos + 16 * k + 8);
    rsvmap_entry_is_end(fdt, pos, k) || size == 0 || forall|a: int|
        !(#[trigger] in_range(a, start, end) && in_range(a, address, address + size))
}

/// Where the reservation map walk finds no overlap, every entry up to and
/// including the end marker is clear of `start..end`.
pub proof fn lemma_rsvmap_walk_complete(fdt: Seq<u8>, pos: int, start: int, end: int, k: int)
    requires
        rsvmap_walk(fdt, pos, start, end) == Ok::<Option<(usize, usize)>, FdtError>(None),
        0 <= pos,
        0 <= k,
        start < end,
        forall|j: int| 0 <= j < k ==> !#[trigger] rsvmap_entry_is_end(fdt, pos, j),
    ensures
        rsvmap_entry_clear(fdt, pos, k, start, end),
    decreases k,
{
    let address = be64(fdt, pos);
    let size = be64(fdt, pos + 8);
    if k == 0 {
        if !(address == 0 && size == 0) && size != 0 {
            lemma_ranges_overlap_share_address(start, end, address, address + size);
        }
    } else {
        assert(!rsvmap_entry_is_end(fdt, pos, 0));
        assert forall|j: int| 0 <= j < k - 1 implies !#[trigger] rsvmap_entry_is_end(fdt, pos + 16, j) by {
            assert(!rsvmap_entry_is_end(fdt, pos, j + 1));
            assert(pos + 16 * (j + 1) == pos + 16 + 16 * j);
        }
        lemma_rsvmap_walk_complete(fdt, pos + 16, start, end, k - 1);
        assert(pos + 16 + 16 * (k - 1) == pos + 16 * k);
    }
}

/// Where the reserved-memory lookup reads the whole tree and finds nothing
/// overlapping a non-empty `start..end`, every `/memreserve/` entry before
/// the end marker and every entry of every `reg` property of every child
/// of `/reserved-memory` is empty or shares no address with `start..end`.
pub proof fn lemma_reserved_memory_clear(fdt: Seq<u8>, start: int, end: int, k: int, i: int, m: int)
    requires
        start < end,
        spec_find_reserved_memory_overlap(fdt, start, end) == Ok::<Option<(usize, usize)>, FdtError>(None),
        0 <= k,
        0 <= m,
    ensures
        spec_fdt_layout(fdt) matches Ok(layout) && (
        (forall|j: int| 0 <= j < k ==> !#[trigger] rsvmap_entry_is_end(fdt, layout.mem_rsvmap_offset as int, j))
            ==> rsvmap_entry_clear(fdt, layout.mem_rsvmap_offset as int, k, start, end)),
        0 <= i < reserved_memory_regs(fdt).len() && m * (reserved_memory_regs(fdt)[i].address_cells
            + reserved_memory_regs(fdt)[i].size_cells) * 4 < reserved_memory_regs(fdt)[i].len ==> reg_entry_clear(
            fdt,
            reserved_memory_regs(fdt)[i],
            m,
            start,
            end,
        ),
{
    let layout = spec_fdt_layout(fdt)->Ok_0;
    if forall|j: int| 0 <= j < k ==> !#[trigger] rsvmap_entry_is_end(fdt, layout.mem_rsvmap_offset as int, j) {
        lemma_rsvmap_walk_complete(fdt, layout.mem_rsvmap_offset as int, start, end, k);
    }
    if 0 <= i < reserved_memory_regs(fdt).len() && m * (reserved_memory_regs(fdt)[i].address_cells
        + reserved_memory_regs(fdt)[i].size_cells) * 4 < reserved_memory_regs(fdt)[i].len {
        lemma_reserved_memory_nodes_clear(fdt, start, end, i, m);
    }
}

/// A reserved range that `find_reserved_memory_overlap` reports does
/// overlap the queried range.
pub proof fn lemma_reserved_memory_overlap_overlaps(fdt: Seq<u8>, start: int, end: int)
    ensures
        spec_find_reserved_memory_overlap(fdt, start, end) matches Ok(Some((s, e))) ==> start < e && s < end,
{
    if let Ok(layout) = spec_fdt_layout(fdt) {
        lemma_rsvmap_walk_overlaps(fdt, layout.mem_rsvmap_offset as int, start, end);
        lemma_reserved_walk_overlaps(
            fdt,
            layout.blocks,
            start,
            end,
            layout.blocks.struct_offset as int,
            ReservedWalk { depth: 0, root_cells: (2, 1), reserved_depth: None, reserved_cells: (2, 1) },
        );
    }
}

/// Kernels are placed on 2 MiB boundaries.
pub const KERNEL_ALIGN: usize = 0x20_0000;

/// From `destination`, skips past every reserved range the kernel image
/// would overlap, staying on `KERNEL_ALIGN` boundaries.
pub open spec fn destination_walk(destination: int, image_size: int, fdt: Option<Seq<u8>>) -> Option<usize>
    decreases usize::MAX - destination,
{
    if destination < 0 || destination + image_size > usize::MAX {
        None
    } else {
        match fdt {
            None => Some(destination as usize),
            Some(fdt) => {
                proof {
                    lemma_reserved_memory_overlap_overlaps(fdt, destination, destination + image_size);
                }
                match spec_find_reserved_memory_overlap(fdt, destination, destination + image_size) {
                    Ok(Some((_, reserved_end))) => {
                        proof {
                            lemma_round_up(reserved_end as int, KERNEL_ALIGN as int);
                        }
                        match spec_align_up_checked(reserved_end as int, KERNEL_ALIGN as int) {
                            None => None,
                            Some(next) => destination_walk(next as int, image_size, Some(fdt)),
                        }
                    },
                    _ => Some(destination as usize),
                }
            },
        }
    }
}

/// What `kernel_destination_after_floor` returns.
pub open spec fn spec_kernel_destination_after_floor(floor: int, image_size: int, fdt: Option<Seq<u8>>) -> Option<usize> {
    match spec_align_up_checked(floor, KERNEL_ALIGN as int) {
        None => None,
        Some(destination) => destination_walk(destination as int, image_size, fdt),
    }
}

/// A kernel image of `image_size` bytes at `destination` fits below the top
/// of memory and overlaps no reserved range that `fdt` reports.
pub open spec fn placement_clear(destination: int, image_size: int, fdt: Option<Seq<u8>>) -> bool {
    &&& destination + image_size <= usize::MAX
    &&& fdt matches Some(tree) ==> !(spec_find_reserved_memory_overlap(
        tree,
        destination,
        destination + image_size,
    ) matches Ok(Some(_)))
}

/// Where the walk from `destination` stops, the image is clear, at or above
/// `destination`, and on a `KERNEL_ALIGN` boundary if `destination` was.
proof fn lemma_destination_walk_clear(destination: int, image_size: int, fdt: Option<Seq<u8>>)
    requires
        0 <= image_size,
    ensures
        destination_walk(destination, image_size, fdt) matches Some(d) ==> {
            &&& destination <= d
            &&& placement_clear(d as int, image_size, fdt)
            &&& destination % (KERNEL_ALIGN as int) == 0 ==> (d as int) % (KERNEL_ALIGN as int) == 0
        },
    decreases usize::MAX - destination,
{
    if 0 <= destination && destination + image_size <= usize::MAX {
        if let Some(tree) = fdt {
            lemma_reserved_memory_overlap_overlaps(tree, destination, destination + image_size);
            if let Ok(Some((_, reserved_end))) = spec_find_reserved_memory_overlap(
                tree,
                destination,
                destination + image_size,
            ) {
                lemma_round_up(reserved_end as int, KERNEL_ALIGN as int);
                if let Some(next) = spec_align_up_checked(reserved_end as int, KERNEL_ALIGN as int) {
                    lemma_destination_walk_clear(next as int, image_size, fdt);
                }
            }
        }
    }
}

/// Every placement that `kernel_destination_after_floor` chooses lies at or
/// above `floor`, on a `KERNEL_ALIGN` boundary, and clear of reserved memory.
pub proof fn lemma_kernel_destination_clear(floor: int, image_size: int, fdt: Option<Seq<u8>>)
    requires
        0 <= floor,
        0 <= image_size,
    ensures
        spec_kernel_destination_after_floor(floor, image_size, fdt) matches Some(d) ==> {
            &&& floor <= d
            &&& (d as int) % (KERNEL_ALIGN as int) == 0
            &&& placement_clear(d as int, image_size, fdt)
        },
{
    lemma_round_up(floor, KERNEL_ALIGN as int);
    if let Some(start) = spec_align_up_checked(floor, KERNEL_ALIGN as int) {
        lemma_destination_walk_clear(start as int, image_size, fdt);
    }
}

/// Where the kernel is placed in a tree whose reservations read, the
/// kernel's bytes share no address with any `/memreserve/` entry before the
/// end marker, nor with any entry of any `reg` property of any child of
/// `/reserved-memory`.
pub proof fn lemma_kernel_destination_avoids_reservations(
    floor: int,
    image_size: int,
    tree: Seq<u8>,
    k: int,
    i: int,
    m: int,
)
    requires
        0 <= floor,
        0 < image_size,
        0 <= k,
        0 <= m,
        spec_kernel_destination_after_floor(floor, image_size, Some(tree)) matches Some(d)
            && spec_find_reserved_memory_overlap(tree, d as int, d + image_size) is Ok,
    ensures
        ({
            let d = spec_kernel_destination_after_floor(floor, image_size, Some(tree))->0 as int;
            &&& spec_fdt_layout(tree) matches Ok(layout) && ((forall|j: int|
                0 <= j < k ==> !#[trigger] rsvmap_entry_is_end(tree, layout.mem_rsvmap_offset as int, j))
                ==> rsvmap_entry_clear(tree, layout.mem_rsvmap_offset as int, k, d, d + image_size))
            &&& 0 <= i < reserved_memory_regs(tree).len() && m * (reserved_memory_regs(tree)[i].address_cells
                + reserved_memory_regs(tree)[i].size_cells) * 4 < reserved_memory_regs(tree)[i].len
                ==> reg_entry_clear(tree, reserved_memory_regs(tree)[i], m, d, d + image_size)
        }),
{
    lemma_kernel_destination_clear(floor, image_size, Some(tree));
    let d = spec_kernel_destination_after_floor(floor, image_size, Some(tree))->0 as int;
    lemma_reserved_memory_clear(tree, d, d + image_size, k, i, m);
}

/// The first 2 MiB-aligned address at or above `floor` where `image_size`
/// bytes overlap no reserved memory that `fdt` describes. A device tree
/// that cannot be read reserves nothing.
pub fn kernel_destination_after_floor(floor: usize, image_size: usize, fdt: Option<&[u8]>) -> (destination: Option<usize>)
    requires
        fdt matches Some(f) ==> slice_len_ok(f@.len() as int),
    ensures
        destination == spec_kernel_destination_after_floor(floor as int, image_size as int, match fdt {
            Some(f) => Some(f@),
            None => None,
        }),
        destination matches Some(d) ==> {
            &&& floor <= d
            &&& d % KERNEL_ALIGN == 0
            &&& placement_clear(d as int, image_size as int, match fdt {
                Some(f) => Some(f@),
                None => None,
            })
        },
{
    let ghost fdt_view = match fdt {
        Some(f) => Some(f@),
        None => None,
    };
    proof {
        lemma_kernel_destination_clear(floor as int, image_size as int, fdt_view);
    }
    walk_to_destination(floor, image_size, fdt)
}

fn walk_to_destination(floor: usize, image_size: usize, fdt: Option<&[u8]>) -> (destination: Option<usize>)
    requires
        fdt matches Some(f) ==> slice_len_ok(f@.len() as int),
    ensures
        destination == spec_kernel_destination_after_floor(floor as int, image_size as int, match fdt {
            Some(f) => Some(f@),
            None => None,
        }),
{
    let ghost fdt_view = match fdt {
        Some(f) => Some(f@),
        None => None,
    };
    let mut destination = align_up_checked(floor, KERNEL_ALIGN)?;
    loop
        invariant
            fdt matches Some(f) ==> slice_len_ok(f@.len() as int),
            fdt_view == match fdt {
                Some(f) => Some(f@),
                None => None,
            },
            spec_kernel_destination_after_floor(floor as int, image_size as int, fdt_view)
                == destination_walk(destination as int, image_size as int, fdt_view),
        decreases usize::MAX - destination,
    {
        let end = destination.checked_add(image_size)?;
        let fdt = match fdt {
            Some(fdt) => fdt,
            None => return Some(destination),
        };
        proof {
            lemma_reserved_memory_overlap_overlaps(fdt@, destination as int, end as int);
        }
        match find_reserved_memory_overlap(fdt, destination, end) {
            Ok(Some((_reserved_start, reserved_end))) => {
                destination = align_up_checked(reserved_end, KERNEL_ALIGN)?;
            },
            Ok(None) | Err(_) => return Some(destination),
        }
    }
}

/// What `rewrite_bootargs` leaves in `fdt` and returns.
pub open spec fn spec_rewrite_bootargs(fdt: Seq<u8>) -> (Seq<u8>, Result<bool, FdtError>) {
    match spec_find_chosen_prop(fdt, BOOTARGS_NAME@) {
        Err(e) => (fdt, Err(e)),
        Ok((offset, len)) => match spec_filter_cmdline(fdt.subrange(offset as int, offset + len)) {
            None => (fdt, Ok(false)),
            Some(filtered) => (overwrite(fdt, offset as int, spec_clean_string_tail(filtered)), Ok(true)),
        },
    }
}

/// Filters `/chosen/bootargs` in place (see `filter_cmdline_in_place`).
/// Returns whether it was marked and so rewritten.
pub fn rewrite_bootargs(fdt: &mut [u8]) -> (result: Result<bool, FdtError>)
    requires
        slice_len_ok(old(fdt)@.len() as int),
    ensures
        (final(fdt)@, result) == spec_rewrite_bootargs(old(fdt)@),
{
    let (offset, len) = find_bootargs(fdt)?;
    let mut value = slice_to_vec(&fdt[offset..offset + len]);
    let changed = filter_cmdline_in_place(value.as_mut_slice());
    if changed {
        clean_string_tail(value.as_mut_slice());
        write_bytes_at(fdt, offset, value.as_slice());
    }
    Ok(changed)
}

/// Byte-for-byte equality of two slices.
pub fn bytes_equal(a: &[u8], b: &[u8]) -> (equal: bool)
    ensures
        equal == (a@ == b@),
{
    if a.len() != b.len() {
        return false;
    }
    let mut i: usize = 0;
    while i < a.len()
        invariant
            a@.len() == b@.len(),
            i <= a@.len(),
            forall|j: int| 0 <= j < i ==> a@[j] == b@[j],
        decreases a@.len() - i,
    {
        if a[i] != b[i] {
            return false;
        }
        i += 1;
    }
    assert(a@ =~= b@);
    true
}

} // verus!
