//! The values behind the shim's cache and MMU handling: the exception
//! level and data cache line size read from system registers, the cache
//! lines covering a memory range, and the identity-mapping page tables of
//! the SDM670 D-cache experiment.

use vstd::prelude::*;

use crate::align::{is_pow2, lemma_round_up, round_up};

verus! {

/// Entries in one translation table.
pub const PAGE_TABLE_ENTRIES: usize = 512;
/// The 2 MiB window holding the UART, mapped as device memory.
pub const UART_WINDOW_BASE: u64 = 0x00a0_0000;
/// Its index in the level-2 table.
pub const UART_WINDOW_L2_INDEX: usize = 5;
/// The first GiB of DRAM, mapped as normal memory.
pub const DRAM_BASE: u64 = 0x8000_0000;
/// Its index in the level-1 table.
pub const DRAM_L1_INDEX: usize = 2;
/// A block descriptor.
pub const PTE_TYPE_BLOCK: u64 = 1;
/// A table descriptor.
pub const PTE_TYPE_TABLE: u64 = 3;
/// The access flag.
pub const PTE_AF: u64 = 0x400;
/// Inner shareable.
pub const PTE_INNER_SHAREABLE: u64 = 0x300;
/// Memory attribute index 0: device nGnRnE.
pub const PTE_ATTR_DEVICE_NGNRNE: u64 = 0;
/// Memory attribute index 1: normal write-back.
pub const PTE_ATTR_NORMAL: u64 = 4;
/// Privileged execute-never.
pub const PTE_PXN: u64 = 0x0020_0000_0000_0000;
/// Unprivileged execute-never.
pub const PTE_UXN: u64 = 0x0040_0000_0000_0000;
/// `MAIR_EL1`: attribute 0 device nGnRnE, attribute 1 normal write-back.
pub const MAIR_EL1_VALUE: u64 = 0xff00;
/// `TCR_EL1`: a 32-bit, inner-shareable, write-back walk of `TTBR0` only.
pub const TCR_EL1_VALUE: u64 = 0x8080_3520;
/// `SCTLR_EL1.M`, the MMU enable.
pub const SCTLR_M: u64 = 1;
/// `SCTLR_EL1.C`, the data cache enable.
pub const SCTLR_C: u64 = 4;

/// The device block that maps the UART window.
pub open spec fn uart_block() -> u64 {
    UART_WINDOW_BASE | PTE_ATTR_DEVICE_NGNRNE | PTE_AF | PTE_PXN | PTE_UXN | PTE_TYPE_BLOCK
}

/// The normal block that maps the first GiB of DRAM.
pub open spec fn dram_block() -> u64 {
    DRAM_BASE | PTE_ATTR_NORMAL | PTE_INNER_SHAREABLE | PTE_AF | PTE_TYPE_BLOCK
}

/// The level-1 table: the level-2 table at `l2_table` for the first GiB,
/// DRAM as one block, nothing else.
pub open spec fn spec_l1_table(l2_table: u64) -> Seq<u64> {
    Seq::new(
        PAGE_TABLE_ENTRIES as nat,
        |i: int|
            if i == 0 {
                l2_table | PTE_TYPE_TABLE
            } else if i == DRAM_L1_INDEX {
                dram_block()
            } else {
                0
            },
    )
}

/// The level-2 table for the first GiB: only the UART window.
pub open spec fn spec_l2_table() -> Seq<u64> {
    Seq::new(PAGE_TABLE_ENTRIES as nat, |i: int| if i == UART_WINDOW_L2_INDEX { uart_block() } else { 0 })
}

fn zero_table() -> (table: Vec<u64>)
    ensures
        table@ == Seq::new(PAGE_TABLE_ENTRIES as nat, |i: int| 0u64),
{
    let mut table: Vec<u64> = Vec::with_capacity(PAGE_TABLE_ENTRIES);
    let mut i: usize = 0;
    while i < PAGE_TABLE_ENTRIES
        invariant
            i <= PAGE_TABLE_ENTRIES,
            table@ == Seq::new(i as nat, |j: int| 0u64),
        decreases PAGE_TABLE_ENTRIES - i,
    {
        table.push(0);
        i += 1;
        assert(table@ =~= Seq::new(i as nat, |j: int| 0u64));
    }
    table
}

/// The level-1 table of the identity mapping, given where the level-2
/// table lies.
pub fn l1_table(l2_table: u64) -> (table: Vec<u64>)
    ensures
        table@ == spec_l1_table(l2_table),
{
    let mut table = zero_table();
    table.set(0, l2_table | PTE_TYPE_TABLE);
    table.set(DRAM_L1_INDEX, DRAM_BASE | PTE_ATTR_NORMAL | PTE_INNER_SHAREABLE | PTE_AF | PTE_TYPE_BLOCK);
    assert(table@ =~= spec_l1_table(l2_table));
    table
}

/// The level-2 table of the identity mapping.
pub fn l2_table() -> (table: Vec<u64>)
    ensures
        table@ == spec_l2_table(),
{
    let mut table = zero_table();
    table.set(
        UART_WINDOW_L2_INDEX,
        UART_WINDOW_BASE | PTE_ATTR_DEVICE_NGNRNE | PTE_AF | PTE_PXN | PTE_UXN | PTE_TYPE_BLOCK,
    );
    assert(table@ =~= spec_l2_table());
    table
}

/// The exception level that a `CurrentEL` value reports.
pub fn exception_level(current_el: usize) -> (level: usize)
    ensures
        level == (current_el / 4) % 4,
        level < 4,
{
    (current_el / 4) % 4
}

/// `4 << n` bytes, the size that a 4-bit line size field `n` stands for.
pub open spec fn line_bytes(n: nat) -> nat
    decreases n,
{
    if n == 0 {
        4
    } else {
        2 * line_bytes((n - 1) as nat)
    }
}

proof fn lemma_line_bytes(n: nat)
    ensures
        is_pow2(line_bytes(n) as int),
        4 <= line_bytes(n),
    decreases n,
{
    if n == 0 {
        reveal_with_fuel(is_pow2, 3);
    } else {
        lemma_line_bytes((n - 1) as nat);
        assert(line_bytes(n) / 2 == line_bytes((n - 1) as nat));
    }
}

proof fn lemma_line_bytes_bound(n: nat)
    requires
        n <= 15,
    ensures
        line_bytes(n) <= 0x2_0000,
    decreases 15 - n,
{
    if n < 15 {
        lemma_line_bytes_bound(n + 1);
        assert(line_bytes(n + 1) == 2 * line_bytes(n));
    } else {
        reveal_with_fuel(line_bytes, 16);
        assert(line_bytes(15) == 0x2_0000);
    }
}

/// The smallest data cache line, from `CTR_EL0.DminLine` (bits 16 to 19):
/// `4 << DminLine` bytes.
pub fn dcache_line_size(ctr: usize) -> (size: usize)
    ensures
        size == line_bytes(((ctr / 0x1_0000) % 16) as nat),
        is_pow2(size as int),
{
    let field = (ctr / 0x1_0000) % 16;
    let mut size: usize = 4;
    let mut i: usize = 0;
    while i < field
        invariant
            field < 16,
            i <= field,
            size == line_bytes(i as nat),
        decreases field - i,
    {
        proof {
            lemma_line_bytes_bound(i as nat);
        }
        size = size * 2;
        i += 1;
    }
    proof {
        lemma_line_bytes(field as nat);
    }
    size
}

/// What `cache_line_range` returns: the line-aligned addresses covering
/// `start..start + size` (the end saturating at the top of memory), or
/// `None` when there is nothing to do: an empty range, or an end too close
/// to the top of memory to round up.
pub open spec fn spec_cache_line_range(start: int, size: int, line: int) -> Option<(usize, usize)> {
    let end = if start + size > usize::MAX { usize::MAX as int } else { start + size };
    if size == 0 || end + line - 1 > usize::MAX {
        None
    } else {
        Some(((start - start % line) as usize, round_up(end, line) as usize))
    }
}

/// The cache lines covering `start..start + size`, for the data cache
/// maintenance loops.
pub fn cache_line_range(start: usize, size: usize, line: usize) -> (range: Option<(usize, usize)>)
    requires
        is_pow2(line as int),
    ensures
        range == spec_cache_line_range(start as int, size as int, line as int),
        range matches Some((first, end)) ==> first <= start && start + size <= end || end == usize::MAX,
{
    if size == 0 {
        return None;
    }
    let end = start.saturating_add(size);
    if end > usize::MAX - (line - 1) {
        return None;
    }
    let raised = end + (line - 1);
    proof {
        lemma_round_up(end as int, line as int);
        assert(raised - raised % line == round_up(end as int, line as int)) by (nonlinear_arith)
            requires
                line > 0,
                raised == end + line - 1,
        ;
        assert(start % line <= start) by (nonlinear_arith)
            requires
                line > 0,
        ;
    }
    Some((start - start % line, raised - raised % line))
}

/// The size of the DRAM block that the level-1 table maps: 1 GiB.
pub const DRAM_BLOCK_SIZE: u64 = 0x4000_0000;

/// `start..start + size` lies inside the DRAM block that the identity
/// mapping covers.
pub open spec fn identity_mapped(start: int, size: int) -> bool {
    DRAM_BASE <= start && start + size <= DRAM_BASE + DRAM_BLOCK_SIZE
}

/// The MMU and the data cache are both off in `sctlr`.
pub open spec fn mmu_and_cache_off(sctlr: int) -> bool {
    sctlr % 2 == 0 && (sctlr / 4) % 2 == 0
}

/// Whether `start..start + size` lies inside the identity-mapped DRAM.
pub fn range_identity_mapped(start: usize, size: usize) -> (mapped: bool)
    ensures
        mapped == identity_mapped(start as int, size as int),
{
    let base = DRAM_BASE as u128;
    let end = start as u128 + size as u128;
    base <= start as u128 && end <= base + DRAM_BLOCK_SIZE as u128
}

/// Whether the D-cache experiment may switch the identity mapping on: the
/// shim runs at EL1 with the MMU and the data cache off, and every live
/// range (`(start, size)` pairs) lies inside the identity-mapped DRAM.
pub fn cache_experiment_allowed(current_el: usize, sctlr: usize, ranges: &[(usize, usize)]) -> (allowed: bool)
    ensures
        allowed == ((current_el / 4) % 4 == 1 && mmu_and_cache_off(sctlr as int) && forall|i: int|
            0 <= i < ranges@.len() ==> identity_mapped(#[trigger] ranges@[i].0 as int, ranges@[i].1 as int)),
{
    if exception_level(current_el) != 1 || sctlr % 2 != 0 || (sctlr / 4) % 2 != 0 {
        return false;
    }
    let mut i: usize = 0;
    while i < ranges.len()
        invariant
            i <= ranges@.len(),
            forall|j: int| 0 <= j < i ==> identity_mapped(#[trigger] ranges@[j].0 as int, ranges@[j].1 as int),
        decreases ranges@.len() - i,
    {
        let (start, size) = ranges[i];
        if !range_identity_mapped(start, size) {
            return false;
        }
        i += 1;
    }
    true
}

} // verus!
