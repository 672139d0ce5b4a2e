//! The two containers in which the assembler hands the compressed kernel to
//! the shim, as the shim reads them: the package appended to the shim
//! image, and the `ABLXRD1` ramdisk container.

use vstd::prelude::*;
use vstd::bytes::{spec_u32_from_le_bytes, spec_u64_from_le_bytes, u32_from_le_bytes, u64_from_le_bytes};

verus! {

/// `ABLXPKG1`, the magic of a kernel package appended to the shim.
pub const PACKAGE_MAGIC: [u8; 8] = [65, 66, 76, 88, 80, 75, 71, 49];
/// Size of the appended package header.
pub const PACKAGE_HEADER_LEN: usize = 48;
/// Alignment of the appended package after the shim image.
pub const PACKAGE_ALIGN: usize = 0x1000;
/// The one compression method: a raw LZ4 block.
pub const PACKAGE_COMPRESSION_LZ4: u32 = 2;
/// `ABLXRD1\0`, the magic of a ramdisk container.
pub const RAMDISK_MAGIC: [u8; 8] = [65, 66, 76, 88, 82, 68, 49, 0];
/// Size of the ramdisk container header.
pub const RAMDISK_HEADER_LEN: usize = 72;
/// Alignment of the payloads inside a ramdisk container.
pub const RAMDISK_ALIGN: usize = 0x1000;
/// The smallest kernel that holds an arm64 `Image` header.
pub const KERNEL_MIN_SIZE: usize = 64;

/// Where the compressed kernel is and how large it unpacks, as read from
/// either container.
#[derive(Clone, Copy, Debug, PartialEq, Eq)]
pub struct KernelPackage {
    pub source_start: usize,
    pub source_end: usize,
    pub compressed_source: usize,
    pub compressed_size: usize,
    pub uncompressed_size: usize,
    pub image_size: usize,
    /// The first address past the container.
    pub end: usize,
    /// Where the real initramfs lies, for a ramdisk container.
    pub initrd_range: Option<(usize, usize)>,
}

/// The little-endian `u32` at `offset`.
pub open spec fn le32(data: Seq<u8>, offset: int) -> int {
    spec_u32_from_le_bytes(data.subrange(offset, offset + 4)) as int
}

/// The little-endian `u64` at `offset`.
pub open spec fn le64(data: Seq<u8>, offset: int) -> int {
    spec_u64_from_le_bytes(data.subrange(offset, offset + 8)) as int
}

/// What `read_le_u32` returns.
pub open spec fn spec_read_le_u32(data: Seq<u8>, offset: int) -> Option<u32> {
    if offset + 4 > usize::MAX || offset + 4 > data.len() {
        None
    } else {
        Some(le32(data, offset) as u32)
    }
}

/// What `read_le_u64` returns.
pub open spec fn spec_read_le_u64(data: Seq<u8>, offset: int) -> Option<u64> {
    if offset + 8 > usize::MAX || offset + 8 > data.len() {
        None
    } else {
        Some(le64(data, offset) as u64)
    }
}

/// Reads a little-endian `u32`, or `None` past the end.
pub fn read_le_u32(data: &[u8], offset: usize) -> (value: Option<u32>)
    ensures
        value == spec_read_le_u32(data@, offset as int),
{
    let end = offset.checked_add(4)?;
    if end > data.len() {
        return None;
    }
    Some(u32_from_le_bytes(&data[offset..end]))
}

/// Reads a little-endian `u64`, or `None` past the end.
pub fn read_le_u64(data: &[u8], offset: usize) -> (value: Option<u64>)
    ensures
        value == spec_read_le_u64(data@, offset as int),
{
    let end = offset.checked_add(8)?;
    if end > data.len() {
        return None;
    }
    Some(u64_from_le_bytes(&data[offset..end]))
}

/// The sizes a kernel package must have: something to decompress, a whole
/// arm64 header after decompression, and room for it in the image.
pub open spec fn sizes_ok(compressed_size: int, uncompressed_size: int, image_size: int) -> bool {
    &&& compressed_size != 0
    &&& uncompressed_size >= KERNEL_MIN_SIZE
    &&& image_size != 0
    &&& uncompressed_size <= image_size
}

/// What `read_kernel_package` returns for the package header `header`
/// found at address `source`.
pub open spec fn spec_read_kernel_package(source: int, header: Seq<u8>) -> Option<KernelPackage> {
    let compressed_size = le64(header, 16);
    let uncompressed_size = le64(header, 24);
    let image_size = le64(header, 32);
    let compressed_source = source + PACKAGE_HEADER_LEN;
    if header.subrange(0, 8) == PACKAGE_MAGIC@ && le32(header, 8) == PACKAGE_HEADER_LEN && le32(header, 12)
        == PACKAGE_COMPRESSION_LZ4 && compressed_size <= usize::MAX && uncompressed_size <= usize::MAX
        && image_size <= usize::MAX && sizes_ok(compressed_size, uncompressed_size, image_size)
        && compressed_source + compressed_size <= usize::MAX {
        Some(
            KernelPackage {
                source_start: compressed_source as usize,
                source_end: (compressed_source + compressed_size) as usize,
                compressed_source: compressed_source as usize,
                compressed_size: compressed_size as usize,
                uncompressed_size: uncompressed_size as usize,
                image_size: image_size as usize,
                end: (compressed_source + compressed_size) as usize,
                initrd_range: None,
            },
        )
    } else {
        None
    }
}

/// Reads the package header that sits at address `source`, right after
/// the shim image; `header` holds its bytes.
pub fn read_kernel_package(source: usize, header: &[u8]) -> (package: Option<KernelPackage>)
    requires
        header@.len() >= PACKAGE_HEADER_LEN,
    ensures
        package == spec_read_kernel_package(source as int, header@),
{
    let mut i: usize = 0;
    while i < 8
        invariant
            header@.len() >= PACKAGE_HEADER_LEN,
            i <= 8,
            forall|j: int| 0 <= j < i ==> header@[j] == PACKAGE_MAGIC@[j],
        decreases 8 - i,
    {
        if header[i] != PACKAGE_MAGIC[i] {
            proof {
                if header@.subrange(0, 8) == PACKAGE_MAGIC@ {
                    assert(header@.subrange(0, 8)[i as int] == header@[i as int]);
                }
            }
            return None;
        }
        i += 1;
    }
    proof {
        assert(header@.subrange(0, 8) =~= PACKAGE_MAGIC@);
    }
    if u32_from_le_bytes(&header[8..12]) as usize != PACKAGE_HEADER_LEN {
        return None;
    }
    if u32_from_le_bytes(&header[12..16]) != PACKAGE_COMPRESSION_LZ4 {
        return None;
    }
    let compressed_size = u64_from_le_bytes(&header[16..24]);
    let uncompressed_size = u64_from_le_bytes(&header[24..32]);
    let image_size = u64_from_le_bytes(&header[32..40]);
    if compressed_size as u128 > usize::MAX as u128 || uncompressed_size as u128 > usize::MAX as u128
        || image_size as u128 > usize::MAX as u128 {
        return None;
    }
    let compressed_size = compressed_size as usize;
    let uncompressed_size = uncompressed_size as usize;
    let image_size = image_size as usize;
    if compressed_size == 0 || uncompressed_size < KERNEL_MIN_SIZE || image_size == 0
        || uncompressed_size > image_size {
        return None;
    }
    let compressed_source = source.checked_add(PACKAGE_HEADER_LEN)?;
    let end = compressed_source.checked_add(compressed_size)?;
    Some(
        KernelPackage {
            source_start: compressed_source,
            source_end: end,
            compressed_source,
            compressed_size,
            uncompressed_size,
            image_size,
            end,
            initrd_range: None,
        },
    )
}

/// What `read_ramdisk_container` returns for the container `ramdisk`
/// loaded at address `base`.
pub open spec fn spec_read_ramdisk_container(base: int, ramdisk: Seq<u8>) -> Option<KernelPackage> {
    let kernel_offset = le64(ramdisk, 16);
    let compressed_size = le64(ramdisk, 24);
    let uncompressed_size = le64(ramdisk, 32);
    let image_size = le64(ramdisk, 40);
    let initrd_offset = le64(ramdisk, 48);
    let initrd_size = le64(ramdisk, 56);
    let kernel_end = kernel_offset + compressed_size;
    let initrd_end = initrd_offset + initrd_size;
    if ramdisk.len() >= 64 && ramdisk.subrange(0, 8) == RAMDISK_MAGIC@ && le32(ramdisk, 8) == RAMDISK_HEADER_LEN
        && le32(ramdisk, 12) == PACKAGE_COMPRESSION_LZ4 && kernel_offset <= usize::MAX && compressed_size
        <= usize::MAX && uncompressed_size <= usize::MAX && image_size <= usize::MAX && initrd_offset
        <= usize::MAX && initrd_size <= usize::MAX && kernel_end <= usize::MAX && initrd_end <= usize::MAX
        && sizes_ok(compressed_size, uncompressed_size, image_size) && initrd_size != 0 && kernel_offset
        >= RAMDISK_HEADER_LEN && kernel_end <= ramdisk.len() && initrd_offset >= RAMDISK_HEADER_LEN
        && initrd_end <= ramdisk.len() && base + kernel_end <= usize::MAX && base + initrd_end <= usize::MAX
        && base + ramdisk.len() <= usize::MAX {
        Some(
            KernelPackage {
                source_start: (base + kernel_offset) as usize,
                source_end: (base + kernel_end) as usize,
                compressed_source: (base + kernel_offset) as usize,
                compressed_size: compressed_size as usize,
                uncompressed_size: uncompressed_size as usize,
                image_size: image_size as usize,
                end: (base + ramdisk.len()) as usize,
                initrd_range: Some(((base + initrd_offset) as usize, (base + initrd_end) as usize)),
            },
        )
    } else {
        None
    }
}

/// Reads an `ABLXRD1` container that the bootloader loaded as the ramdisk
/// at address `base`: the compressed kernel and the real initramfs inside
/// it.
pub fn read_ramdisk_container(base: usize, ramdisk: &[u8]) -> (package: Option<KernelPackage>)
    ensures
        package == spec_read_ramdisk_container(base as int, ramdisk@),
{
    if ramdisk.len() < 8 {
        return None;
    }
    let mut i: usize = 0;
    while i < 8
        invariant
            ramdisk@.len() >= 8,
            i <= 8,
            forall|j: int| 0 <= j < i ==> ramdisk@[j] == RAMDISK_MAGIC@[j],
        decreases 8 - i,
    {
        if ramdisk[i] != RAMDISK_MAGIC[i] {
            proof {
                if ramdisk@.subrange(0, 8) == RAMDISK_MAGIC@ {
                    assert(ramdisk@.subrange(0, 8)[i as int] == ramdisk@[i as int]);
                }
            }
            return None;
        }
        i += 1;
    }
    proof {
        assert(ramdisk@.subrange(0, 8) =~= RAMDISK_MAGIC@);
    }
    if read_le_u32(ramdisk, 8)? as usize != RAMDISK_HEADER_LEN {
        return None;
    }
    if read_le_u32(ramdisk, 12)? != PACKAGE_COMPRESSION_LZ4 {
        return None;
    }
    let kernel_offset = read_le_u64(ramdisk, 16)?;
    let compressed_size = read_le_u64(ramdisk, 24)?;
    let uncompressed_size = read_le_u64(ramdisk, 32)?;
    let image_size = read_le_u64(ramdisk, 40)?;
    let initrd_offset = read_le_u64(ramdisk, 48)?;
    let initrd_size = read_le_u64(ramdisk, 56)?;
    if kernel_offset as u128 > usize::MAX as u128 || compressed_size as u128 > usize::MAX as u128
        || uncompressed_size as u128 > usize::MAX as u128 || image_size as u128 > usize::MAX as u128
        || initrd_offset as u128 > usize::MAX as u128 || initrd_size as u128 > usize::MAX as u128 {
        return None;
    }
    let kernel_offset = kernel_offset as usize;
    let compressed_size = compressed_size as usize;
    let uncompressed_size = uncompressed_size as usize;
    let image_size = image_size as usize;
    let initrd_offset = initrd_offset as usize;
    let initrd_size = initrd_size as usize;

    let kernel_end = kernel_offset.checked_add(compressed_size)?;
    let initrd_end_offset = initrd_offset.checked_add(initrd_size)?;
    if compressed_size == 0 || uncompressed_size < KERNEL_MIN_SIZE || image_size == 0
        || uncompressed_size > image_size || initrd_size == 0 || kernel_offset < RAMDISK_HEADER_LEN
        || kernel_end > ramdisk.len() || initrd_offset < RAMDISK_HEADER_LEN || initrd_end_offset
        > ramdisk.len() {
        return None;
    }

    let compressed_source = base.checked_add(kernel_offset)?;
    let source_end = compressed_source.checked_add(compressed_size)?;
    let initrd_start = base.checked_add(initrd_offset)?;
    let initrd_end = initrd_start.checked_add(initrd_size)?;
    let end = base.checked_add(ramdisk.len())?;
    Some(
        KernelPackage {
            source_start: compressed_source,
            source_end,
            compressed_source,
            compressed_size,
            uncompressed_size,
            image_size,
            end,
            initrd_range: Some((initrd_start, initrd_end)),
        },
    )
}

} // verus!
