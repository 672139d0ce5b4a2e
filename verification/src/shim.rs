//! The decisions the shim makes at boot, on the values its platform glue
//! reads from memory: where the package is, where the kernel goes, whether
//! the decompressed kernel is sound, and how long things took.

use vstd::prelude::*;
use vstd::bytes::{spec_u64_from_le_bytes, u64_from_le_bytes};

use crate::arm64::{arm64_magic, magic_at};

use crate::align::{align_up_checked, spec_align_up_checked};
use crate::fdt::{
    be32, be32_at, find_initrd_range, kernel_destination_after_floor, slice_len_ok, spec_find_initrd_range,
    placement_clear, spec_kernel_destination_after_floor, FDT_HEADER_SIZE, FDT_MAGIC, KERNEL_ALIGN,
};
use crate::lz4::{decompress_lz4_block_within, lz4_decode};
use crate::package::{KernelPackage, PACKAGE_ALIGN};

verus! {

/// The kernel is never placed below this offset from the shim's base.
pub const KERNEL_MIN_DESTINATION_OFFSET: usize = 0x0600_0000;

/// What `counter_ticks_to_ms` returns.
pub open spec fn spec_counter_ticks_to_ms(ticks: int, frequency: int) -> Option<usize> {
    if frequency == 0 || ticks * 1000 / frequency > usize::MAX {
        None
    } else {
        Some((ticks * 1000 / frequency) as usize)
    }
}

/// Converts generic-timer ticks to milliseconds at `frequency` Hz.
pub fn counter_ticks_to_ms(ticks: usize, frequency: usize) -> (ms: Option<usize>)
    ensures
        ms == spec_counter_ticks_to_ms(ticks as int, frequency as int),
{
    if frequency == 0 {
        return None;
    }
    let scaled = (ticks as u128) * 1000;
    let ms = scaled / (frequency as u128);
    if ms > usize::MAX as u128 {
        return None;
    }
    Some(ms as usize)
}

/// What `raw_fdt_range` returns for the device tree at address `fdt`
/// whose first bytes are `header`.
pub open spec fn spec_raw_fdt_range(fdt: int, header: Seq<u8>) -> Option<(usize, usize)> {
    if fdt == 0 || header.len() < 8 || be32(header, 0) != FDT_MAGIC || be32(header, 4) < FDT_HEADER_SIZE
        || fdt + be32(header, 4) > usize::MAX {
        None
    } else {
        Some((fdt as usize, (fdt + be32(header, 4)) as usize))
    }
}

/// The address range of the device tree at `fdt`, from its magic and
/// `totalsize` fields; `header` holds its first eight bytes (or nothing
/// when `fdt` is null).
pub fn raw_fdt_range(fdt: usize, header: &[u8]) -> (range: Option<(usize, usize)>)
    ensures
        range == spec_raw_fdt_range(fdt as int, header@),
{
    if fdt == 0 || header.len() < 8 {
        return None;
    }
    let magic = match be32_at(header, 0) {
        Ok(magic) => magic,
        Err(_) => return None,
    };
    if magic != FDT_MAGIC {
        return None;
    }
    let totalsize = match be32_at(header, 4) {
        Ok(size) => size as usize,
        Err(_) => return None,
    };
    if totalsize < FDT_HEADER_SIZE {
        return None;
    }
    Some((fdt, fdt.checked_add(totalsize)?))
}

/// What `package_source` returns.
pub open spec fn spec_package_source(base: int, image_size: int) -> Option<usize> {
    if image_size > usize::MAX {
        None
    } else {
        match spec_align_up_checked(image_size, PACKAGE_ALIGN as int) {
            None => None,
            Some(offset) => if base + offset > usize::MAX {
                None
            } else {
                Some((base + offset) as usize)
            },
        }
    }
}

/// Where the appended package starts: the shim's own `image_size`, from its
/// arm64 header at `base`, rounded up to 4 KiB.
pub fn package_source(base: usize, image_size: u64) -> (source: Option<usize>)
    ensures
        source == spec_package_source(base as int, image_size as int),
{
    if image_size as u128 > usize::MAX as u128 {
        return None;
    }
    let offset = align_up_checked(image_size as usize, PACKAGE_ALIGN)?;
    base.checked_add(offset)
}

/// What `kernel_destination` returns: the first suitable address above the
/// package, the shim's minimum offset, the device tree and the initrd.
pub open spec fn spec_kernel_destination(
    package_end: int,
    image_size: int,
    base: int,
    fdt_start: int,
    fdt: Option<Seq<u8>>,
) -> Option<usize> {
    if base + KERNEL_MIN_DESTINATION_OFFSET > usize::MAX {
        None
    } else {
        let floor = if package_end >= base + KERNEL_MIN_DESTINATION_OFFSET {
            package_end
        } else {
            base + KERNEL_MIN_DESTINATION_OFFSET
        };
        match fdt {
            None => spec_kernel_destination_after_floor(floor, image_size, None),
            Some(tree) => {
                let fdt_end = fdt_start + tree.len();
                let floor = if floor >= fdt_end { floor } else { fdt_end };
                let floor = match spec_find_initrd_range(tree) {
                    Ok(Some((_, initrd_end))) => if floor >= initrd_end { floor } else { initrd_end as int },
                    _ => floor,
                };
                spec_kernel_destination_after_floor(floor, image_size, Some(tree))
            },
        }
    }
}

/// Where to decompress a kernel of `image_size` bytes: above the package,
/// above `base + KERNEL_MIN_DESTINATION_OFFSET`, above the device tree
/// `fdt` that starts at `fdt_start`, above its initrd, and clear of its
/// reserved memory.
pub fn kernel_destination(
    package_end: usize,
    image_size: usize,
    base: usize,
    fdt_start: usize,
    fdt: Option<&[u8]>,
) -> (destination: Option<usize>)
    requires
        fdt matches Some(tree) ==> slice_len_ok(tree@.len() as int) && fdt_start + tree@.len() <= usize::MAX,
    ensures
        destination == spec_kernel_destination(package_end as int, image_size as int, base as int, fdt_start as int, match fdt {
            Some(tree) => Some(tree@),
            None => None,
        }),
        destination matches Some(d) ==> {
            &&& package_end <= d
            &&& base + KERNEL_MIN_DESTINATION_OFFSET <= d
            &&& d % KERNEL_ALIGN == 0
            &&& fdt matches Some(tree) ==> {
                &&& fdt_start + tree@.len() <= d
                &&& spec_find_initrd_range(tree@) matches Ok(Some((_, initrd_end))) ==> initrd_end <= d
            }
            &&& placement_clear(d as int, image_size as int, match fdt {
                Some(tree) => Some(tree@),
                None => None,
            })
        },
{
    let mut floor = package_end;
    let minimum = base.checked_add(KERNEL_MIN_DESTINATION_OFFSET)?;
    if minimum > floor {
        floor = minimum;
    }
    match fdt {
        None => kernel_destination_after_floor(floor, image_size, None),
        Some(tree) => {
            let fdt_end = fdt_start + tree.len();
            if fdt_end > floor {
                floor = fdt_end;
            }
            if let Ok(Some((_, initrd_end))) = find_initrd_range(tree) {
                if initrd_end > floor {
                    floor = initrd_end;
                }
            }
            kernel_destination_after_floor(floor, image_size, Some(tree))
        },
    }
}

/// The arm64 header checks of a decompressed kernel: the `ARM\x64` magic at
/// 56 and the promised `image_size` at 16.
pub open spec fn kernel_header_ok(kernel: Seq<u8>, image_size: int) -> bool {
    &&& kernel.subrange(56, 60) == arm64_magic()
    &&& spec_u64_from_le_bytes(kernel.subrange(16, 24)) as int == image_size
}

/// What `decompress_kernel` leaves in `destination` and returns.
pub open spec fn spec_decompress_kernel(package: KernelPackage, compressed: Seq<u8>, destination: Seq<u8>) -> (Seq<u8>, bool) {
    let (produced, complete) = lz4_decode(compressed, 0, Seq::empty(), package.uncompressed_size as int);
    let written = produced + destination.subrange(produced.len() as int, destination.len() as int);
    if !complete || produced.len() != package.uncompressed_size || !kernel_header_ok(produced, package.image_size as int) {
        (written, false)
    } else {
        (
            produced + Seq::new((package.image_size - package.uncompressed_size) as nat, |i: int| 0u8),
            true,
        )
    }
}

/// Decompresses the package's kernel into `destination`, which spans the
/// kernel's whole `image_size`, checks its arm64 header, and zeroes the
/// memory between the decompressed file and `image_size`.
pub fn decompress_kernel(package: &KernelPackage, compressed: &[u8], destination: &mut [u8]) -> (ok: bool)
    requires
        compressed@.len() == package.compressed_size,
        old(destination)@.len() == package.image_size,
        64 <= package.uncompressed_size <= package.image_size,
    ensures
        (final(destination)@, ok) == spec_decompress_kernel(*package, compressed@, old(destination)@),
{
    let written = match decompress_lz4_block_within(compressed, destination, package.uncompressed_size) {
        Some(written) => written,
        None => return false,
    };
    if written != package.uncompressed_size {
        return false;
    }
    proof {
        let (decoded, _) = lz4_decode(compressed@, 0, Seq::empty(), package.uncompressed_size as int);
        assert(destination@.subrange(0, written as int) =~= decoded);
        assert(destination@.subrange(56, 60) =~= decoded.subrange(56, 60));
        assert(destination@.subrange(16, 24) =~= decoded.subrange(16, 24));
    }
    if !magic_at(destination, 56) {
        return false;
    }
    if u64_from_le_bytes(&destination[16..24]) as u128 != package.image_size as u128 {
        return false;
    }
    let ghost produced = destination@.subrange(0, written as int);
    let mut pos = package.uncompressed_size;
    while pos < package.image_size
        invariant
            package.uncompressed_size <= pos <= package.image_size,
            destination@.len() == package.image_size,
            destination@.subrange(0, package.uncompressed_size as int) == produced,
            forall|i: int| package.uncompressed_size <= i < pos ==> destination@[i] == 0u8,
        decreases package.image_size - pos,
    {
        destination[pos] = 0;
        pos += 1;
    }
    proof {
        assert(destination@ =~= produced + Seq::new((package.image_size - package.uncompressed_size) as nat, |i: int| 0u8));
    }
    true
}

} // verus!
