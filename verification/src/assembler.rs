//! Host-side assembly of the two payload layouts the shim boots from: the
//! shim image followed by a kernel package, and the `ABLXRD1` ramdisk
//! container that carries the kernel beside the real initramfs.

use vstd::prelude::*;
use vstd::bytes::{spec_u32_to_le_bytes, spec_u64_to_le_bytes, u32_to_le_bytes, u64_to_le_bytes};

use crate::align::{is_pow2, is_power_of_two, lemma_round_up, round_up};
use crate::arm64::{arm64_image_size, header_image_size, spec_arm64_image_size, AssembleError, ImageKind};
use crate::cmdline::zeros;
use crate::handoff::{
    container_reads_back, lemma_ramdisk_container_reads_back, lemma_shim_reads_assembled_package, package_reads_back,
};
use crate::codecs::{lz4_hc_compress, spec_lz4_hc_compress, LZ4_MAX_INPUT_SIZE};
use crate::lz4::spec_decompress_lz4_block;
use crate::package::{
    PACKAGE_ALIGN, PACKAGE_COMPRESSION_LZ4, PACKAGE_HEADER_LEN, PACKAGE_MAGIC, RAMDISK_ALIGN, RAMDISK_HEADER_LEN,
    RAMDISK_MAGIC,
};

verus! {

/// Appends `bytes` to `out`.
pub(crate) fn push_bytes(out: &mut Vec<u8>, bytes: &[u8])
    ensures
        final(out)@ == old(out)@ + bytes@,
{
    out.extend_from_slice(bytes);
    assert(out@ =~= old(out)@ + bytes@);
}

/// Pads `out` with zeros up to `len` bytes.
pub(crate) fn pad_to(out: &mut Vec<u8>, len: usize)
    requires
        old(out)@.len() <= len,
    ensures
        final(out)@ == old(out)@ + zeros(len - old(out)@.len()),
{
    out.resize(len, 0);
    assert(out@ =~= old(out)@ + zeros(len - old(out)@.len()));
}

/// What `align_up` returns: `value` rounded up to `alignment`, which must
/// be a power of two, or the error for a bad alignment or an overflow.
pub open spec fn spec_align_up(value: u64, alignment: u64) -> Result<u64, AssembleError> {
    if alignment == 0 || !is_pow2(alignment as int) {
        Err(AssembleError::InvalidAlignment(alignment))
    } else if value + (alignment - 1) > u64::MAX {
        Err(AssembleError::SizeOverflow("aligned value"))
    } else {
        Ok(round_up(value as int, alignment as int) as u64)
    }
}

/// Rounds `value` up to a multiple of the power of two `alignment`.
pub fn align_up(value: u64, alignment: u64) -> (aligned: Result<u64, AssembleError>)
    ensures
        aligned == spec_align_up(value, alignment),
        aligned matches Ok(a) ==> value <= a < value + alignment && a % alignment == 0,
{
    if alignment == 0 || !is_power_of_two(alignment) {
        return Err(AssembleError::InvalidAlignment(alignment));
    }
    let mask = alignment - 1;
    match value.checked_add(mask) {
        None => Err(AssembleError::SizeOverflow("aligned value")),
        Some(raised) => {
            proof {
                lemma_round_up(value as int, alignment as int);
                assert(raised - raised % alignment == round_up(value as int, alignment as int)) by (nonlinear_arith)
                    requires
                        alignment > 0,
                        raised == value + alignment - 1,
                ;
            }
            Ok(raised - raised % alignment)
        },
    }
}

/// Where the kernel package starts after a shim whose arm64 header gives
/// `shim_size`: the next 4 KiB boundary.
pub fn package_source_offset(shim_size: u64) -> (offset: Result<u64, AssembleError>)
    ensures
        offset == spec_align_up(shim_size, PACKAGE_ALIGN as u64),
{
    align_up(shim_size, PACKAGE_ALIGN as u64)
}

/// The 48-byte kernel package header.
pub open spec fn package_header(compressed_size: u64, uncompressed_size: u64, image_size: u64) -> Seq<u8> {
    PACKAGE_MAGIC@ + spec_u32_to_le_bytes(PACKAGE_HEADER_LEN as u32) + spec_u32_to_le_bytes(
        PACKAGE_COMPRESSION_LZ4,
    ) + spec_u64_to_le_bytes(compressed_size) + spec_u64_to_le_bytes(uncompressed_size) + spec_u64_to_le_bytes(
        image_size,
    ) + spec_u64_to_le_bytes(0)
}

/// The 72-byte ramdisk container header.
pub open spec fn ramdisk_header(
    kernel_offset: u64,
    compressed_size: u64,
    uncompressed_size: u64,
    image_size: u64,
    initrd_offset: u64,
    initrd_size: u64,
) -> Seq<u8> {
    RAMDISK_MAGIC@ + spec_u32_to_le_bytes(RAMDISK_HEADER_LEN as u32) + spec_u32_to_le_bytes(
        PACKAGE_COMPRESSION_LZ4,
    ) + spec_u64_to_le_bytes(kernel_offset) + spec_u64_to_le_bytes(compressed_size) + spec_u64_to_le_bytes(
        uncompressed_size,
    ) + spec_u64_to_le_bytes(image_size) + spec_u64_to_le_bytes(initrd_offset) + spec_u64_to_le_bytes(
        initrd_size,
    ) + spec_u64_to_le_bytes(0)
}

/// The two headers have their fixed sizes.
pub proof fn lemma_header_lengths()
    ensures
        forall|c: u64, u: u64, i: u64| #[trigger] package_header(c, u, i).len() == PACKAGE_HEADER_LEN,
        forall|k: u64, c: u64, u: u64, i: u64, o: u64, n: u64| #[trigger]
            ramdisk_header(k, c, u, i, o, n).len() == RAMDISK_HEADER_LEN,
{
    vstd::bytes::lemma_auto_spec_u32_to_from_le_bytes();
    vstd::bytes::lemma_auto_spec_u64_to_from_le_bytes();
}

fn push_u32(out: &mut Vec<u8>, value: u32)
    ensures
        final(out)@ == old(out)@ + spec_u32_to_le_bytes(value),
{
    let bytes = u32_to_le_bytes(value);
    push_bytes(out, bytes.as_slice());
}

fn push_u64(out: &mut Vec<u8>, value: u64)
    ensures
        final(out)@ == old(out)@ + spec_u64_to_le_bytes(value),
{
    let bytes = u64_to_le_bytes(value);
    push_bytes(out, bytes.as_slice());
}

/// Appends the kernel package header.
pub fn write_package_header(out: &mut Vec<u8>, compressed_size: u64, uncompressed_size: u64, image_size: u64)
    ensures
        final(out)@ == old(out)@ + package_header(compressed_size, uncompressed_size, image_size),
{
    push_bytes(out, PACKAGE_MAGIC.as_slice());
    push_u32(out, PACKAGE_HEADER_LEN as u32);
    push_u32(out, PACKAGE_COMPRESSION_LZ4);
    push_u64(out, compressed_size);
    push_u64(out, uncompressed_size);
    push_u64(out, image_size);
    push_u64(out, 0);
    assert(out@ =~= old(out)@ + package_header(compressed_size, uncompressed_size, image_size));
}

/// Appends the ramdisk container header.
pub fn write_ramdisk_header(
    out: &mut Vec<u8>,
    kernel_offset: u64,
    compressed_size: u64,
    uncompressed_size: u64,
    image_size: u64,
    initrd_offset: u64,
    initrd_size: u64,
)
    ensures
        final(out)@ == old(out)@ + ramdisk_header(
            kernel_offset,
            compressed_size,
            uncompressed_size,
            image_size,
            initrd_offset,
            initrd_size,
        ),
{
    push_bytes(out, RAMDISK_MAGIC.as_slice());
    push_u32(out, RAMDISK_HEADER_LEN as u32);
    push_u32(out, PACKAGE_COMPRESSION_LZ4);
    push_u64(out, kernel_offset);
    push_u64(out, compressed_size);
    push_u64(out, uncompressed_size);
    push_u64(out, image_size);
    push_u64(out, initrd_offset);
    push_u64(out, initrd_size);
    push_u64(out, 0);
    assert(out@ =~= old(out)@ + ramdisk_header(
        kernel_offset,
        compressed_size,
        uncompressed_size,
        image_size,
        initrd_offset,
        initrd_size,
    ));
}

/// What `compress_kernel` returns.
pub open spec fn spec_compress_kernel(kernel: Seq<u8>) -> Result<Seq<u8>, AssembleError> {
    match spec_lz4_hc_compress(kernel) {
        Some(block) => Ok(block),
        None => Err(AssembleError::CompressKernel),
    }
}

/// Compresses the kernel into one raw LZ4 block at the highest HC level.
pub fn compress_kernel(kernel: &[u8]) -> (compressed: Result<Vec<u8>, AssembleError>)
    ensures
        match compressed {
            Ok(block) => spec_compress_kernel(kernel@) == Ok::<Seq<u8>, AssembleError>(block@),
            Err(e) => spec_compress_kernel(kernel@) == Err::<Seq<u8>, AssembleError>(e),
        },
        kernel@.len() > 0 ==> (compressed matches Ok(block) ==> spec_decompress_lz4_block(
            block@,
            kernel@.len() as int,
        ) == Some(kernel@)),
        kernel@.len() <= LZ4_MAX_INPUT_SIZE ==> compressed is Ok,
{
    match lz4_hc_compress(kernel) {
        Some(block) => Ok(block),
        None => Err(AssembleError::CompressKernel),
    }
}

/// A byte-producing result, with the bytes taken by their view.
pub open spec fn bytes_result(result: Result<Vec<u8>, AssembleError>) -> Result<Seq<u8>, AssembleError> {
    match result {
        Ok(out) => Ok(out@),
        Err(e) => Err(e),
    }
}

/// The shim image, zero padding to the package offset, the package header
/// and the compressed kernel, or the error for a layout that does not fit.
pub open spec fn spec_layout_package(
    shim: Seq<u8>,
    kernel_len: int,
    kernel_size: u64,
    offset: u64,
    block: Seq<u8>,
) -> Result<Seq<u8>, AssembleError> {
    if PACKAGE_HEADER_LEN + block.len() > u64::MAX {
        Err(AssembleError::SizeOverflow("kernel package length"))
    } else if offset + PACKAGE_HEADER_LEN + block.len() > u64::MAX {
        Err(AssembleError::SizeOverflow("assembled image length"))
    } else if offset > usize::MAX {
        Err(AssembleError::SizeOverflow("package offset"))
    } else if offset + PACKAGE_HEADER_LEN + block.len() > usize::MAX {
        Err(AssembleError::SizeOverflow("assembled image length"))
    } else {
        Ok(
            shim + zeros(offset - shim.len()) + package_header(block.len() as u64, kernel_len as u64, kernel_size)
                + block,
        )
    }
}

/// What `assemble` returns, given what compressing the kernel gave.
pub open spec fn spec_assemble(kernel: Seq<u8>, shim: Seq<u8>, compressed: Result<Seq<u8>, AssembleError>) -> Result<
    Seq<u8>,
    AssembleError,
> {
    match spec_arm64_image_size(kernel, ImageKind::Kernel) {
        Err(e) => Err(e),
        Ok(kernel_size) => match spec_arm64_image_size(shim, ImageKind::Shim) {
            Err(e) => Err(e),
            Ok(shim_size) => match spec_align_up(shim_size, PACKAGE_ALIGN as u64) {
                Err(e) => Err(e),
                Ok(offset) => if shim.len() > offset {
                    Err(AssembleError::ShimTooLarge { len: shim.len() as u64, payload_offset: offset })
                } else if kernel.len() > kernel_size {
                    Err(AssembleError::KernelLargerThanImageSize { len: kernel.len() as u64, image_size: kernel_size })
                } else {
                    match compressed {
                        Err(e) => Err(e),
                        Ok(block) => spec_layout_package(shim, kernel.len() as int, kernel_size, offset, block),
                    }
                },
            },
        },
    }
}

/// The checks `assemble` makes before compressing: both inputs are arm64
/// images, the shim fits below the package offset and the kernel file fits
/// its own `image_size`. Returns the kernel's `image_size` and the offset.
fn check_package_inputs(kernel: &[u8], shim: &[u8]) -> (checked: Result<(u64, u64), AssembleError>)
    ensures
        match checked {
            Ok((kernel_size, offset)) => {
                &&& spec_arm64_image_size(kernel@, ImageKind::Kernel) == Ok::<u64, AssembleError>(kernel_size)
                &&& spec_arm64_image_size(shim@, ImageKind::Shim) matches Ok(shim_size)
                &&& spec_align_up(shim_size, PACKAGE_ALIGN as u64) == Ok::<u64, AssembleError>(offset)
                &&& shim@.len() <= offset
                &&& kernel@.len() <= kernel_size
            },
            Err(e) => forall|c: Result<Seq<u8>, AssembleError>| #[trigger] spec_assemble(kernel@, shim@, c) == Err::<Seq<u8>, AssembleError>(e),
        },
        !(checked matches Err(AssembleError::CompressKernel)),
{
    let kernel_size = arm64_image_size(kernel, ImageKind::Kernel)?;
    let shim_size = arm64_image_size(shim, ImageKind::Shim)?;
    let offset = package_source_offset(shim_size)?;
    let shim_len = shim.len() as u64;
    if shim_len > offset {
        return Err(AssembleError::ShimTooLarge { len: shim_len, payload_offset: offset });
    }
    let kernel_len = kernel.len() as u64;
    if kernel_len > kernel_size {
        return Err(AssembleError::KernelLargerThanImageSize { len: kernel_len, image_size: kernel_size });
    }
    Ok((kernel_size, offset))
}

fn layout_package(shim: &[u8], kernel_len: u64, kernel_size: u64, offset: u64, block: &[u8]) -> (out: Result<
    Vec<u8>,
    AssembleError,
>)
    requires
        shim@.len() <= offset,
    ensures
        bytes_result(out) == spec_layout_package(shim@, kernel_len as int, kernel_size, offset, block@),
{
    let block_len = block.len() as u64;
    let package_len = match (PACKAGE_HEADER_LEN as u64).checked_add(block_len) {
        Some(len) => len,
        None => return Err(AssembleError::SizeOverflow("kernel package length")),
    };
    let output_len = match offset.checked_add(package_len) {
        Some(len) => len,
        None => return Err(AssembleError::SizeOverflow("assembled image length")),
    };
    if offset as u128 > usize::MAX as u128 {
        return Err(AssembleError::SizeOverflow("package offset"));
    }
    if output_len as u128 > usize::MAX as u128 {
        return Err(AssembleError::SizeOverflow("assembled image length"));
    }
    let offset = offset as usize;
    let mut out: Vec<u8> = Vec::with_capacity(output_len as usize);
    push_bytes(&mut out, shim);
    pad_to(&mut out, offset);
    write_package_header(&mut out, block_len, kernel_len, kernel_size);
    push_bytes(&mut out, block);
    Ok(out)
}

/// Appends the LZ4-compressed kernel, behind a package header, to the shim
/// at the 4 KiB boundary after the shim's `image_size`.
pub fn assemble(kernel: &[u8], shim: &[u8]) -> (assembled: Result<Vec<u8>, AssembleError>)
    ensures
        bytes_result(assembled) == spec_assemble(kernel@, shim@, spec_compress_kernel(kernel@)),
        kernel@.len() <= LZ4_MAX_INPUT_SIZE ==> !(assembled matches Err(AssembleError::CompressKernel)),
        assembled is Ok ==> (spec_compress_kernel(kernel@) matches Ok(block) && spec_decompress_lz4_block(
            block,
            kernel@.len() as int,
        ) == Some(kernel@)),
        assembled matches Ok(image) ==> forall|base: int|
            0 <= base && base + image@.len() + PACKAGE_ALIGN <= usize::MAX && header_image_size(kernel@) <= usize::MAX
                ==> #[trigger] package_reads_back(kernel@, shim@, image@, base),
{
    let (kernel_size, offset) = check_package_inputs(kernel, shim)?;
    let compressed = compress_kernel(kernel)?;
    let assembled = layout_package(shim, kernel.len() as u64, kernel_size, offset, compressed.as_slice());
    proof {
        if assembled is Ok {
            let image = assembled->Ok_0;
            assert forall|base: int|
                0 <= base && base + image@.len() + PACKAGE_ALIGN <= usize::MAX && header_image_size(kernel@)
                    <= usize::MAX implies #[trigger] package_reads_back(kernel@, shim@, image@, base) by {
                let destination = Seq::new(header_image_size(kernel@) as nat, |i: int| 0u8);
                lemma_shim_reads_assembled_package(kernel@, shim@, compressed@, base, destination);
            }
        }
    }
    assembled
}

/// `assemble` with the kernel already compressed into `compressed`.
pub fn assemble_compressed(kernel: &[u8], shim: &[u8], compressed: &[u8]) -> (assembled: Result<
    Vec<u8>,
    AssembleError,
>)
    ensures
        bytes_result(assembled) == spec_assemble(kernel@, shim@, Ok(compressed@)),
{
    let (kernel_size, offset) = check_package_inputs(kernel, shim)?;
    layout_package(shim, kernel.len() as u64, kernel_size, offset, compressed)
}

/// The ramdisk container: header, the compressed kernel at the first 4 KiB
/// boundary, and the initramfs at the next 4 KiB boundary after it, or the
/// error for a layout that does not fit.
pub open spec fn spec_layout_ramdisk(kernel_len: int, kernel_size: u64, block: Seq<u8>, initrd: Seq<u8>) -> Result<
    Seq<u8>,
    AssembleError,
> {
    match spec_align_up(RAMDISK_HEADER_LEN as u64, RAMDISK_ALIGN as u64) {
        Err(e) => Err(e),
        Ok(kernel_offset) => if kernel_offset + block.len() > u64::MAX {
            Err(AssembleError::SizeOverflow("ramdisk kernel bounds"))
        } else {
            match spec_align_up((kernel_offset + block.len()) as u64, RAMDISK_ALIGN as u64) {
                Err(e) => Err(e),
                Ok(initrd_offset) => if initrd_offset + initrd.len() > u64::MAX {
                    Err(AssembleError::SizeOverflow("ramdisk container length"))
                } else if kernel_offset > usize::MAX {
                    Err(AssembleError::SizeOverflow("ramdisk kernel offset"))
                } else if initrd_offset > usize::MAX {
                    Err(AssembleError::SizeOverflow("ramdisk initrd offset"))
                } else if initrd_offset + initrd.len() > usize::MAX {
                    Err(AssembleError::SizeOverflow("ramdisk container length"))
                } else {
                    Ok(
                        ramdisk_header(
                            kernel_offset,
                            block.len() as u64,
                            kernel_len as u64,
                            kernel_size,
                            initrd_offset,
                            initrd.len() as u64,
                        ) + zeros(kernel_offset - RAMDISK_HEADER_LEN) + block + zeros(
                            initrd_offset - kernel_offset - block.len(),
                        ) + initrd,
                    )
                },
            }
        },
    }
}

/// What `assemble_ramdisk` returns, given what compressing the kernel gave.
pub open spec fn spec_assemble_ramdisk(
    kernel: Seq<u8>,
    initrd: Seq<u8>,
    compressed: Result<Seq<u8>, AssembleError>,
) -> Result<Seq<u8>, AssembleError> {
    match spec_arm64_image_size(kernel, ImageKind::Kernel) {
        Err(e) => Err(e),
        Ok(kernel_size) => if kernel.len() > kernel_size {
            Err(AssembleError::KernelLargerThanImageSize { len: kernel.len() as u64, image_size: kernel_size })
        } else if initrd.len() == 0 {
            Err(AssembleError::EmptyInitrd)
        } else {
            match compressed {
                Err(e) => Err(e),
                Ok(block) => spec_layout_ramdisk(kernel.len() as int, kernel_size, block, initrd),
            }
        },
    }
}

/// The checks `assemble_ramdisk` makes before compressing: the kernel is an
/// arm64 image that fits its own `image_size`, and the initramfs is not
/// empty. Returns the kernel's `image_size`.
fn check_ramdisk_inputs(kernel: &[u8], initrd: &[u8]) -> (checked: Result<u64, AssembleError>)
    ensures
        match checked {
            Ok(kernel_size) => {
                &&& spec_arm64_image_size(kernel@, ImageKind::Kernel) == Ok::<u64, AssembleError>(kernel_size)
                &&& kernel@.len() <= kernel_size
                &&& initrd@.len() > 0
            },
            Err(e) => forall|c: Result<Seq<u8>, AssembleError>| #[trigger]
                spec_assemble_ramdisk(kernel@, initrd@, c) == Err::<Seq<u8>, AssembleError>(e),
        },
        !(checked matches Err(AssembleError::CompressKernel)),
{
    let kernel_size = arm64_image_size(kernel, ImageKind::Kernel)?;
    let kernel_len = kernel.len() as u64;
    if kernel_len > kernel_size {
        return Err(AssembleError::KernelLargerThanImageSize { len: kernel_len, image_size: kernel_size });
    }
    if initrd.len() == 0 {
        return Err(AssembleError::EmptyInitrd);
    }
    Ok(kernel_size)
}

fn layout_ramdisk(kernel_len: u64, kernel_size: u64, block: &[u8], initrd: &[u8]) -> (out: Result<
    Vec<u8>,
    AssembleError,
>)
    ensures
        bytes_result(out) == spec_layout_ramdisk(kernel_len as int, kernel_size, block@, initrd@),
{
    let block_len = block.len() as u64;
    let initrd_len = initrd.len() as u64;
    let kernel_offset = align_up(RAMDISK_HEADER_LEN as u64, RAMDISK_ALIGN as u64)?;
    let kernel_end = match kernel_offset.checked_add(block_len) {
        Some(end) => end,
        None => return Err(AssembleError::SizeOverflow("ramdisk kernel bounds")),
    };
    let initrd_offset = align_up(kernel_end, RAMDISK_ALIGN as u64)?;
    let output_len = match initrd_offset.checked_add(initrd_len) {
        Some(len) => len,
        None => return Err(AssembleError::SizeOverflow("ramdisk container length")),
    };
    if kernel_offset as u128 > usize::MAX as u128 {
        return Err(AssembleError::SizeOverflow("ramdisk kernel offset"));
    }
    if initrd_offset as u128 > usize::MAX as u128 {
        return Err(AssembleError::SizeOverflow("ramdisk initrd offset"));
    }
    if output_len as u128 > usize::MAX as u128 {
        return Err(AssembleError::SizeOverflow("ramdisk container length"));
    }
    let mut out: Vec<u8> = Vec::with_capacity(output_len as usize);
    write_ramdisk_header(&mut out, kernel_offset, block_len, kernel_len, kernel_size, initrd_offset, initrd_len);
    proof {
        lemma_header_lengths();
    }
    pad_to(&mut out, kernel_offset as usize);
    push_bytes(&mut out, block);
    pad_to(&mut out, initrd_offset as usize);
    push_bytes(&mut out, initrd);
    Ok(out)
}

/// Builds an `ABLXRD1` container: the LZ4-compressed kernel and the
/// initramfs, unchanged, each at a 4 KiB boundary behind the header. An
/// empty initramfs is refused.
pub fn assemble_ramdisk(kernel: &[u8], initrd: &[u8]) -> (assembled: Result<Vec<u8>, AssembleError>)
    ensures
        bytes_result(assembled) == spec_assemble_ramdisk(kernel@, initrd@, spec_compress_kernel(kernel@)),
        kernel@.len() <= LZ4_MAX_INPUT_SIZE ==> !(assembled matches Err(AssembleError::CompressKernel)),
        assembled is Ok ==> (spec_compress_kernel(kernel@) matches Ok(block) && spec_decompress_lz4_block(
            block,
            kernel@.len() as int,
        ) == Some(kernel@)),
        assembled matches Ok(image) ==> forall|base: int|
            0 <= base && base + image@.len() <= usize::MAX && header_image_size(kernel@) <= usize::MAX
                ==> #[trigger] container_reads_back(kernel@, initrd@, image@, base),
{
    let kernel_size = check_ramdisk_inputs(kernel, initrd)?;
    let compressed = compress_kernel(kernel)?;
    let assembled = layout_ramdisk(kernel.len() as u64, kernel_size, compressed.as_slice(), initrd);
    proof {
        if assembled is Ok {
            let image = assembled->Ok_0;
            assert forall|base: int|
                0 <= base && base + image@.len() <= usize::MAX && header_image_size(kernel@) <= usize::MAX
                    implies #[trigger] container_reads_back(kernel@, initrd@, image@, base) by {
                lemma_ramdisk_container_reads_back(kernel@, initrd@, compressed@, base);
            }
        }
    }
    assembled
}

/// `assemble_ramdisk` with the kernel already compressed into `compressed`.
pub fn assemble_ramdisk_compressed(kernel: &[u8], initrd: &[u8], compressed: &[u8]) -> (assembled: Result<
    Vec<u8>,
    AssembleError,
>)
    ensures
        bytes_result(assembled) == spec_assemble_ramdisk(kernel@, initrd@, Ok(compressed@)),
{
    let kernel_size = check_ramdisk_inputs(kernel, initrd)?;
    layout_ramdisk(kernel.len() as u64, kernel_size, compressed, initrd)
}

} // verus!
