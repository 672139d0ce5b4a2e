//! What the shim reads back of what the assembler writes: the package or
//! the ramdisk container, their headers, and the kernel inside.

use vstd::prelude::*;
use vstd::bytes::{lemma_auto_spec_u32_to_from_le_bytes, lemma_auto_spec_u64_to_from_le_bytes};

use crate::align::{is_pow2, lemma_round_up, round_up};
use crate::arm64::{header_image_size, spec_arm64_image_size, ImageKind};
use crate::assembler::{
    lemma_header_lengths, package_header, ramdisk_header, spec_assemble, spec_assemble_ramdisk,
};
use crate::cmdline::zeros;
use crate::lz4::{lz4_decode, spec_decompress_lz4_block};
use crate::package::{
    le32, le64, spec_read_kernel_package, spec_read_ramdisk_container, KernelPackage, PACKAGE_ALIGN,
    PACKAGE_HEADER_LEN, RAMDISK_ALIGN, RAMDISK_HEADER_LEN,
};
use crate::shim::{spec_decompress_kernel, spec_package_source};

verus! {

/// The shim decompresses `block`, the compressed kernel that `package`
/// describes, into `kernel` zero-filled up to `image_size`.
pub open spec fn boots_kernel(package: KernelPackage, block: Seq<u8>, kernel: Seq<u8>, destination: Seq<u8>) -> bool {
    spec_decompress_kernel(package, block, destination) == (
        kernel + zeros(package.image_size - kernel.len()),
        true,
    )
}

proof fn lemma_pow2_page()
    ensures
        is_pow2(PACKAGE_ALIGN as int),
        is_pow2(RAMDISK_ALIGN as int),
{
    reveal_with_fuel(is_pow2, 14);
}

/// A block that decodes to a kernel with a sound arm64 header is not empty,
/// and the shim's decompression yields that kernel.
proof fn lemma_block_boots(package: KernelPackage, block: Seq<u8>, kernel: Seq<u8>, destination: Seq<u8>)
    requires
        spec_decompress_lz4_block(block, kernel.len() as int) == Some(kernel),
        spec_arm64_image_size(kernel, ImageKind::Kernel) == Ok::<u64, crate::arm64::AssembleError>(
            package.image_size as u64,
        ),
        package.uncompressed_size == kernel.len(),
        destination.len() == package.image_size,
    ensures
        block.len() > 0,
        boots_kernel(package, block, kernel, destination),
{
    if block.len() == 0 {
        assert(lz4_decode(block, 0, Seq::empty(), kernel.len() as int) == (Seq::<u8>::empty(), true));
    }
}

/// What the shim, loaded at `base`, reads of `image` is the package that
/// `assemble` appends to `shim`: it finds the package header after its own
/// `image_size`, and the compressed kernel behind it decodes to `kernel`.
pub open spec fn package_reads_back(kernel: Seq<u8>, shim: Seq<u8>, image: Seq<u8>, base: int) -> bool {
    spec_package_source(base, header_image_size(shim) as int) matches Some(source) && spec_read_kernel_package(
        source as int,
        image.subrange(source - base, source - base + PACKAGE_HEADER_LEN),
    ) matches Some(package) && {
        &&& package.compressed_source == source + PACKAGE_HEADER_LEN
        &&& spec_decompress_lz4_block(
            image.subrange(source - base + PACKAGE_HEADER_LEN, package.end - base),
            kernel.len() as int,
        ) == Some(kernel)
        &&& package.uncompressed_size == kernel.len()
        &&& package.image_size == header_image_size(kernel)
    }
}

/// The shim, loaded at `base`, finds the package that `assemble` appended
/// after it at the 4 KiB boundary after its own `image_size`, reads the
/// package header back, and boots exactly the kernel the assembler was
/// given, zero-filled up to the kernel's `image_size`. `block` is the
/// compressed kernel, which decodes to the kernel as `compress_kernel`
/// promises; the image, with a page to spare, lies within the address
/// space.
pub proof fn lemma_shim_reads_assembled_package(
    kernel: Seq<u8>,
    shim: Seq<u8>,
    block: Seq<u8>,
    base: int,
    destination: Seq<u8>,
)
    requires
        spec_assemble(kernel, shim, Ok(block)) is Ok,
        spec_decompress_lz4_block(block, kernel.len() as int) == Some(kernel),
        0 <= base,
        base + spec_assemble(kernel, shim, Ok(block))->Ok_0.len() + PACKAGE_ALIGN <= usize::MAX,
        header_image_size(kernel) <= usize::MAX,
        destination.len() == header_image_size(kernel),
    ensures
        ({
            let image = spec_assemble(kernel, shim, Ok(block))->Ok_0;
            &&& spec_package_source(base, header_image_size(shim) as int) matches Some(source)
            &&& spec_read_kernel_package(
                source as int,
                image.subrange(source - base, source - base + PACKAGE_HEADER_LEN),
            ) matches Some(package)
            &&& package.compressed_source == source + PACKAGE_HEADER_LEN
            &&& image.subrange(source - base + PACKAGE_HEADER_LEN, package.end - base) == block
            &&& package.uncompressed_size == kernel.len()
            &&& package.image_size == header_image_size(kernel)
            &&& boots_kernel(package, block, kernel, destination)
            &&& package_reads_back(kernel, shim, image, base)
        }),
{
    lemma_pow2_page();
    lemma_auto_spec_u32_to_from_le_bytes();
    lemma_auto_spec_u64_to_from_le_bytes();
    let image = spec_assemble(kernel, shim, Ok(block))->Ok_0;
    let kernel_size = header_image_size(kernel);
    let shim_size = header_image_size(shim);
    let offset = round_up(shim_size as int, PACKAGE_ALIGN as int);
    lemma_round_up(shim_size as int, PACKAGE_ALIGN as int);
    let header = package_header(block.len() as u64, kernel.len() as u64, kernel_size);
    lemma_header_lengths();
    assert(image == shim + zeros(offset - shim.len()) + header + block);
    assert(image.subrange(offset, offset + PACKAGE_HEADER_LEN) =~= header);
    assert(image.subrange(offset + PACKAGE_HEADER_LEN, offset + PACKAGE_HEADER_LEN + block.len()) =~= block);
    assert(header.subrange(0, 8) =~= crate::package::PACKAGE_MAGIC@);
    assert(header.subrange(8, 12) =~= vstd::bytes::spec_u32_to_le_bytes(PACKAGE_HEADER_LEN as u32));
    assert(header.subrange(12, 16) =~= vstd::bytes::spec_u32_to_le_bytes(crate::package::PACKAGE_COMPRESSION_LZ4));
    assert(header.subrange(16, 24) =~= vstd::bytes::spec_u64_to_le_bytes(block.len() as u64));
    assert(header.subrange(24, 32) =~= vstd::bytes::spec_u64_to_le_bytes(kernel.len() as u64));
    assert(header.subrange(32, 40) =~= vstd::bytes::spec_u64_to_le_bytes(kernel_size));
    assert(le32(header, 8) == PACKAGE_HEADER_LEN);
    assert(le32(header, 12) == crate::package::PACKAGE_COMPRESSION_LZ4);
    assert(le64(header, 16) == block.len());
    assert(le64(header, 24) == kernel.len());
    assert(le64(header, 32) == kernel_size);
    let package = spec_read_kernel_package(base + offset, header)->0;
    lemma_block_boots(
        KernelPackage {
            source_start: (base + offset + PACKAGE_HEADER_LEN) as usize,
            source_end: (base + offset + PACKAGE_HEADER_LEN + block.len()) as usize,
            compressed_source: (base + offset + PACKAGE_HEADER_LEN) as usize,
            compressed_size: block.len() as usize,
            uncompressed_size: kernel.len() as usize,
            image_size: kernel_size as usize,
            end: (base + offset + PACKAGE_HEADER_LEN + block.len()) as usize,
            initrd_range: None,
        },
        block,
        kernel,
        destination,
    );
}


/// What the shim reads of `image`, loaded at `base`, is the ramdisk
/// container of `kernel` and `initrd`: the compressed kernel right after
/// the header's page, decoding to `kernel`, and the initramfs unchanged.
pub open spec fn container_reads_back(kernel: Seq<u8>, initrd: Seq<u8>, image: Seq<u8>, base: int) -> bool {
    spec_read_ramdisk_container(base, image) matches Some(package) && {
        &&& package.source_start == base + RAMDISK_ALIGN
        &&& package.compressed_source == package.source_start
        &&& package.source_end == package.compressed_source + package.compressed_size
        &&& spec_decompress_lz4_block(
            image.subrange(package.compressed_source - base, package.source_end - base),
            kernel.len() as int,
        ) == Some(kernel)
        &&& package.initrd_range matches Some((start, end)) && image.subrange(start - base, end - base) == initrd
        &&& package.end == base + image.len()
        &&& package.uncompressed_size == kernel.len()
        &&& package.image_size == header_image_size(kernel)
    }
}

/// The shim reads back a ramdisk container that `assemble_ramdisk` built,
/// once the bootloader has loaded it at `base`: the header gives the
/// compressed kernel and the initramfs where the assembler put them.
/// `block` decodes to the kernel as `compress_kernel` promises, and the
/// container lies within the address space.
pub proof fn lemma_ramdisk_container_reads_back(kernel: Seq<u8>, initrd: Seq<u8>, block: Seq<u8>, base: int)
    requires
        spec_assemble_ramdisk(kernel, initrd, Ok(block)) is Ok,
        spec_decompress_lz4_block(block, kernel.len() as int) == Some(kernel),
        0 <= base,
        base + spec_assemble_ramdisk(kernel, initrd, Ok(block))->Ok_0.len() <= usize::MAX,
        header_image_size(kernel) <= usize::MAX,
    ensures
        ({
            let image = spec_assemble_ramdisk(kernel, initrd, Ok(block))->Ok_0;
            &&& container_reads_back(kernel, initrd, image, base)
            &&& image.subrange(RAMDISK_ALIGN as int, RAMDISK_ALIGN + block.len()) == block
            &&& spec_read_ramdisk_container(base, image)->0.compressed_size == block.len()
        }),
{
    lemma_pow2_page();
    lemma_auto_spec_u32_to_from_le_bytes();
    lemma_auto_spec_u64_to_from_le_bytes();
    let image = spec_assemble_ramdisk(kernel, initrd, Ok(block))->Ok_0;
    let kernel_size = header_image_size(kernel);
    let kernel_offset = round_up(RAMDISK_HEADER_LEN as int, RAMDISK_ALIGN as int);
    lemma_round_up(RAMDISK_HEADER_LEN as int, RAMDISK_ALIGN as int);
    let initrd_offset = round_up(kernel_offset + block.len(), RAMDISK_ALIGN as int);
    lemma_round_up(kernel_offset + block.len(), RAMDISK_ALIGN as int);
    let header = ramdisk_header(
        kernel_offset as u64,
        block.len() as u64,
        kernel.len() as u64,
        kernel_size,
        initrd_offset as u64,
        initrd.len() as u64,
    );
    lemma_header_lengths();
    assert(image == header + zeros(kernel_offset - RAMDISK_HEADER_LEN) + block + zeros(
        initrd_offset - kernel_offset - block.len(),
    ) + initrd);
    assert(image.subrange(0, 8) =~= header.subrange(0, 8));
    assert(image.subrange(8, 12) =~= header.subrange(8, 12));
    assert(image.subrange(12, 16) =~= header.subrange(12, 16));
    assert(image.subrange(16, 24) =~= header.subrange(16, 24));
    assert(image.subrange(24, 32) =~= header.subrange(24, 32));
    assert(image.subrange(32, 40) =~= header.subrange(32, 40));
    assert(image.subrange(40, 48) =~= header.subrange(40, 48));
    assert(image.subrange(48, 56) =~= header.subrange(48, 56));
    assert(image.subrange(56, 64) =~= header.subrange(56, 64));
    assert(header.subrange(0, 8) =~= crate::package::RAMDISK_MAGIC@);
    assert(header.subrange(8, 12) =~= vstd::bytes::spec_u32_to_le_bytes(RAMDISK_HEADER_LEN as u32));
    assert(header.subrange(12, 16) =~= vstd::bytes::spec_u32_to_le_bytes(crate::package::PACKAGE_COMPRESSION_LZ4));
    assert(header.subrange(16, 24) =~= vstd::bytes::spec_u64_to_le_bytes(kernel_offset as u64));
    assert(header.subrange(24, 32) =~= vstd::bytes::spec_u64_to_le_bytes(block.len() as u64));
    assert(header.subrange(32, 40) =~= vstd::bytes::spec_u64_to_le_bytes(kernel.len() as u64));
    assert(header.subrange(40, 48) =~= vstd::bytes::spec_u64_to_le_bytes(kernel_size));
    assert(header.subrange(48, 56) =~= vstd::bytes::spec_u64_to_le_bytes(initrd_offset as u64));
    assert(header.subrange(56, 64) =~= vstd::bytes::spec_u64_to_le_bytes(initrd.len() as u64));
    assert(le32(image, 8) == RAMDISK_HEADER_LEN);
    assert(le32(image, 12) == crate::package::PACKAGE_COMPRESSION_LZ4);
    assert(le64(image, 16) == kernel_offset);
    assert(le64(image, 24) == block.len());
    assert(le64(image, 32) == kernel.len());
    assert(le64(image, 40) == kernel_size);
    assert(le64(image, 48) == initrd_offset);
    assert(le64(image, 56) == initrd.len());
    assert(image.subrange(kernel_offset, kernel_offset + block.len()) =~= block);
    assert(image.subrange(initrd_offset, initrd_offset + initrd.len()) =~= initrd);
}

/// The shim boots exactly the kernel that `assemble_ramdisk` was given,
/// from the container it built, loaded at `base`.
pub proof fn lemma_shim_reads_assembled_ramdisk(
    kernel: Seq<u8>,
    initrd: Seq<u8>,
    block: Seq<u8>,
    base: int,
    destination: Seq<u8>,
)
    requires
        spec_assemble_ramdisk(kernel, initrd, Ok(block)) is Ok,
        spec_decompress_lz4_block(block, kernel.len() as int) == Some(kernel),
        0 <= base,
        base + spec_assemble_ramdisk(kernel, initrd, Ok(block))->Ok_0.len() <= usize::MAX,
        header_image_size(kernel) <= usize::MAX,
        destination.len() == header_image_size(kernel),
    ensures
        ({
            let image = spec_assemble_ramdisk(kernel, initrd, Ok(block))->Ok_0;
            &&& container_reads_back(kernel, initrd, image, base)
            &&& spec_read_ramdisk_container(base, image) matches Some(package)
            &&& boots_kernel(package, block, kernel, destination)
        }),
{
    lemma_ramdisk_container_reads_back(kernel, initrd, block, base);
    let image = spec_assemble_ramdisk(kernel, initrd, Ok(block))->Ok_0;
    let package = spec_read_ramdisk_container(base, image)->0;
    lemma_block_boots(package, block, kernel, destination);
}

} // verus!
