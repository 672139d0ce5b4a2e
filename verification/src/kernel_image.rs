//! Turning the kernel the user hands in (a raw arm64 `Image`, gzip or zstd
//! of one, or a Linux EFI zboot image wrapping either) into the validated
//! raw `Image` that is compressed into the payload.

use vstd::prelude::*;

use crate::arm64::{arm64_image_size, has_arm64_magic, spec_arm64_image_size, AssembleError, ImageKind};
use crate::cmdline::{nul_terminated_len, text_len};
use crate::codecs::{gzip_decode, spec_gzip_decode, spec_utf8_lossy, spec_zstd_decode, utf8_lossy, zstd_decode};
use crate::fdt::bytes_equal;
use crate::package::{le32, read_le_u32 as read_u32_field};
use vstd::slice::slice_to_vec;

verus! {

/// `1f 8b`, the start of a gzip stream.
pub const GZIP_MAGIC: [u8; 2] = [0x1f, 0x8b];
/// `28 b5 2f fd`, the start of a zstd frame.
pub const ZSTD_MAGIC: [u8; 4] = [0x28, 0xb5, 0x2f, 0xfd];
/// `MZ`, the start of a PE image.
pub const PE_MAGIC: [u8; 2] = [0x4d, 0x5a];
/// `zimg`, the image type of a Linux EFI zboot image.
pub const ZBOOT_IMAGE_TYPE: [u8; 4] = [0x7a, 0x69, 0x6d, 0x67];
/// `gzip`, a zboot compression type.
pub const ZBOOT_GZIP: [u8; 4] = [0x67, 0x7a, 0x69, 0x70];
/// `zstd`, a zboot compression type.
pub const ZBOOT_ZSTD: [u8; 4] = [0x7a, 0x73, 0x74, 0x64];
/// The smallest zboot image: its header up to the compression type.
pub const LINUX_ZBOOT_MIN_SIZE: usize = 28;
/// Offset of the zboot image type.
pub const LINUX_ZBOOT_IMAGE_TYPE_OFFSET: usize = 4;
/// Offset of the zboot payload offset.
pub const LINUX_ZBOOT_PAYLOAD_OFFSET_OFFSET: usize = 8;
/// Offset of the zboot payload size.
pub const LINUX_ZBOOT_PAYLOAD_SIZE_OFFSET: usize = 12;
/// Offset of the NUL-padded zboot compression type.
pub const LINUX_ZBOOT_COMP_TYPE_OFFSET: usize = 24;
/// Longest zboot compression type.
pub const LINUX_ZBOOT_COMP_TYPE_MAX_LEN: usize = 32;

/// Why a kernel input could not be turned into a raw arm64 `Image`.
#[derive(Debug)]
pub enum KernelImageError {
    InvalidImage(AssembleError),
    InvalidGzip(std::io::Error),
    InvalidZstd(std::io::Error),
    ZbootTooSmall { size: usize },
    ZbootPayloadOutOfBounds { payload_offset: usize, payload_size: usize, image_size: usize },
    UnsupportedZbootCompression(String),
    SizeOverflow(&'static str),
}

/// `data` starts with `prefix`.
pub open spec fn starts_with(data: Seq<u8>, prefix: Seq<u8>) -> bool {
    data.len() >= prefix.len() && data.subrange(0, prefix.len() as int) == prefix
}

/// `image` is a Linux EFI zboot image: a PE file whose image type is `zimg`.
pub open spec fn is_linux_zboot_image(image: Seq<u8>) -> bool {
    &&& image.len() >= LINUX_ZBOOT_MIN_SIZE
    &&& starts_with(image, PE_MAGIC@)
    &&& image.subrange(4, 8) == ZBOOT_IMAGE_TYPE@
}

/// The zboot compression type: the bytes from offset 24, at most 32 of
/// them, up to the first NUL.
pub open spec fn zboot_compression(image: Seq<u8>) -> Seq<u8> {
    let end = if image.len() < 56 { image.len() as int } else { 56 };
    let field = image.subrange(24, end);
    field.subrange(0, text_len(field, 0))
}

/// `result` hands on `kernel` as a validated raw `Image`: the kernel
/// itself when its arm64 header reads, else that header's error.
pub open spec fn accepted_kernel(kernel: Seq<u8>, result: Result<Vec<u8>, KernelImageError>) -> bool {
    match spec_arm64_image_size(kernel, ImageKind::Kernel) {
        Ok(_) => result matches Ok(out) && out@ == kernel,
        Err(e) => result matches Err(KernelImageError::InvalidImage(found)) && found == e,
    }
}

/// `result` is what decompressing gzip `data` into a kernel gives.
pub open spec fn gzip_outcome(data: Seq<u8>, result: Result<Vec<u8>, KernelImageError>) -> bool {
    match spec_gzip_decode(data) {
        None => result matches Err(KernelImageError::InvalidGzip(_)),
        Some(decoded) => accepted_kernel(decoded, result),
    }
}

/// `result` is what decompressing zstd `data` into a kernel gives.
pub open spec fn zstd_outcome(data: Seq<u8>, result: Result<Vec<u8>, KernelImageError>) -> bool {
    match spec_zstd_decode(data) {
        None => result matches Err(KernelImageError::InvalidZstd(_)),
        Some(decoded) => accepted_kernel(decoded, result),
    }
}

/// `result` is what unwrapping the zboot image `kernel` gives: its payload,
/// decompressed by the compression type it names.
pub open spec fn zboot_outcome(kernel: Seq<u8>, result: Result<Vec<u8>, KernelImageError>) -> bool {
    if kernel.len() < LINUX_ZBOOT_MIN_SIZE {
        result matches Err(KernelImageError::ZbootTooSmall { size }) && size == kernel.len()
    } else {
        let payload_offset = le32(kernel, 8);
        let payload_size = le32(kernel, 12);
        let payload_end = payload_offset + payload_size;
        if payload_end > usize::MAX {
            result matches Err(KernelImageError::SizeOverflow(what)) && what == "Linux EFI zboot payload bounds"
        } else if payload_end > kernel.len() {
            result matches Err(KernelImageError::ZbootPayloadOutOfBounds { payload_offset: o, payload_size: s, image_size: n })
                && o == payload_offset && s == payload_size && n == kernel.len()
        } else {
            let payload = kernel.subrange(payload_offset, payload_end);
            let compression = zboot_compression(kernel);
            if starts_with(compression, ZBOOT_GZIP@) {
                gzip_outcome(payload, result)
            } else if starts_with(compression, ZBOOT_ZSTD@) {
                zstd_outcome(payload, result)
            } else {
                result matches Err(KernelImageError::UnsupportedZbootCompression(name)) && name@ == spec_utf8_lossy(
                    compression,
                )
            }
        }
    }
}

/// `result` is what `canonicalize_kernel` gives for `kernel`.
pub open spec fn canonicalize_outcome(kernel: Seq<u8>, result: Result<Vec<u8>, KernelImageError>) -> bool {
    if has_arm64_magic(kernel) {
        accepted_kernel(kernel, result)
    } else if is_linux_zboot_image(kernel) {
        zboot_outcome(kernel, result)
    } else if starts_with(kernel, GZIP_MAGIC@) {
        gzip_outcome(kernel, result)
    } else if starts_with(kernel, ZSTD_MAGIC@) {
        zstd_outcome(kernel, result)
    } else {
        match spec_arm64_image_size(kernel, ImageKind::Kernel) {
            Err(e) => result matches Err(KernelImageError::InvalidImage(found)) && found == e,
            Ok(_) => false,
        }
    }
}

/// Whether `data` starts with `prefix`.
fn has_prefix(data: &[u8], prefix: &[u8]) -> (found: bool)
    ensures
        found == starts_with(data@, prefix@),
{
    if data.len() < prefix.len() {
        return false;
    }
    bytes_equal(&data[0..prefix.len()], prefix)
}

/// Whether `image` holds a whole arm64 `Image` header with its magic.
pub fn is_arm64_image(image: &[u8]) -> (found: bool)
    ensures
        found == has_arm64_magic(image@),
{
    if image.len() < 64 {
        return false;
    }
    bytes_equal(&image[56..60], [0x41u8, 0x52u8, 0x4du8, 0x64u8].as_slice())
}

/// Whether `image` is a Linux EFI zboot image.
pub fn is_linux_zboot(image: &[u8]) -> (found: bool)
    ensures
        found == is_linux_zboot_image(image@),
{
    image.len() >= LINUX_ZBOOT_MIN_SIZE && has_prefix(image, PE_MAGIC.as_slice()) && bytes_equal(
        &image[4..8],
        ZBOOT_IMAGE_TYPE.as_slice(),
    )
}

/// The compression type a zboot header names.
pub fn linux_zboot_compression(image: &[u8]) -> (compression: &[u8])
    requires
        image@.len() >= LINUX_ZBOOT_COMP_TYPE_OFFSET,
    ensures
        compression@ == zboot_compression(image@),
{
    let end = if image.len() < LINUX_ZBOOT_COMP_TYPE_OFFSET + LINUX_ZBOOT_COMP_TYPE_MAX_LEN {
        image.len()
    } else {
        LINUX_ZBOOT_COMP_TYPE_OFFSET + LINUX_ZBOOT_COMP_TYPE_MAX_LEN
    };
    let field = &image[LINUX_ZBOOT_COMP_TYPE_OFFSET..end];
    let nul = nul_terminated_len(field);
    &field[0..nul]
}

/// Reads a little-endian `u32` field of a zboot header.
pub fn read_le_u32(image: &[u8], offset: usize) -> (value: Result<usize, KernelImageError>)
    ensures
        offset + 4 <= usize::MAX && offset + 4 <= image@.len() ==> (value matches Ok(v) && v == le32(
            image@,
            offset as int,
        )),
        offset + 4 > usize::MAX ==> (value matches Err(KernelImageError::SizeOverflow(what)) && what
            == "u32 field bounds"),
        offset + 4 <= usize::MAX && offset + 4 > image@.len() ==> (value matches Err(
            KernelImageError::ZbootTooSmall { size },
        ) && size == image@.len()),
{
    if offset > usize::MAX - 4 {
        return Err(KernelImageError::SizeOverflow("u32 field bounds"));
    }
    match read_u32_field(image, offset) {
        Some(value) => Ok(value as usize),
        None => Err(KernelImageError::ZbootTooSmall { size: image.len() }),
    }
}

/// Checks that a decompressed kernel is a raw arm64 `Image`.
pub fn verify_kernel(kernel: &[u8]) -> (checked: Result<(), KernelImageError>)
    ensures
        match spec_arm64_image_size(kernel@, ImageKind::Kernel) {
            Ok(_) => checked is Ok,
            Err(e) => checked matches Err(KernelImageError::InvalidImage(found)) && found == e,
        },
{
    match arm64_image_size(kernel, ImageKind::Kernel) {
        Ok(_) => Ok(()),
        Err(e) => Err(KernelImageError::InvalidImage(e)),
    }
}

/// Hands on a decompressed kernel once its arm64 header reads.
pub fn check_decompressed_kernel(kernel: Vec<u8>) -> (result: Result<Vec<u8>, KernelImageError>)
    ensures
        accepted_kernel(kernel@, result),
{
    verify_kernel(kernel.as_slice())?;
    Ok(kernel)
}

/// Decompresses a gzip kernel and checks what comes out.
pub fn decompress_gzip_kernel(kernel: &[u8]) -> (result: Result<Vec<u8>, KernelImageError>)
    ensures
        gzip_outcome(kernel@, result),
{
    match gzip_decode(kernel) {
        Ok(out) => check_decompressed_kernel(out),
        Err(err) => Err(KernelImageError::InvalidGzip(err)),
    }
}

/// Decompresses a zstd kernel and checks what comes out.
pub fn decompress_zstd_kernel(kernel: &[u8]) -> (result: Result<Vec<u8>, KernelImageError>)
    ensures
        zstd_outcome(kernel@, result),
{
    match zstd_decode(kernel) {
        Ok(out) => check_decompressed_kernel(out),
        Err(err) => Err(KernelImageError::InvalidZstd(err)),
    }
}

/// Unwraps a Linux EFI zboot image: bounds-checks its payload and
/// decompresses it by the compression type the header names.
pub fn canonicalize_linux_zboot(kernel: &[u8]) -> (result: Result<Vec<u8>, KernelImageError>)
    ensures
        zboot_outcome(kernel@, result),
{
    if kernel.len() < LINUX_ZBOOT_MIN_SIZE {
        return Err(KernelImageError::ZbootTooSmall { size: kernel.len() });
    }
    let payload_offset = read_le_u32(kernel, LINUX_ZBOOT_PAYLOAD_OFFSET_OFFSET)?;
    let payload_size = read_le_u32(kernel, LINUX_ZBOOT_PAYLOAD_SIZE_OFFSET)?;
    let payload_end = match payload_offset.checked_add(payload_size) {
        Some(end) => end,
        None => return Err(KernelImageError::SizeOverflow("Linux EFI zboot payload bounds")),
    };
    if payload_end > kernel.len() {
        return Err(
            KernelImageError::ZbootPayloadOutOfBounds { payload_offset, payload_size, image_size: kernel.len() },
        );
    }
    let payload = &kernel[payload_offset..payload_end];
    let compression = linux_zboot_compression(kernel);
    if has_prefix(compression, ZBOOT_GZIP.as_slice()) {
        decompress_gzip_kernel(payload)
    } else if has_prefix(compression, ZBOOT_ZSTD.as_slice()) {
        decompress_zstd_kernel(payload)
    } else {
        Err(KernelImageError::UnsupportedZbootCompression(utf8_lossy(compression)))
    }
}

/// Turns the kernel input into a validated raw arm64 `Image`: a raw image
/// is checked and kept; a zboot, gzip or zstd image is unwrapped and its
/// content checked; anything else is reported by the arm64 header check.
pub fn canonicalize_kernel(kernel: &[u8]) -> (result: Result<Vec<u8>, KernelImageError>)
    ensures
        canonicalize_outcome(kernel@, result),
{
    if is_arm64_image(kernel) {
        verify_kernel(kernel)?;
        return Ok(slice_to_vec(kernel));
    }
    if is_linux_zboot(kernel) {
        return canonicalize_linux_zboot(kernel);
    }
    if has_prefix(kernel, GZIP_MAGIC.as_slice()) {
        return decompress_gzip_kernel(kernel);
    }
    if has_prefix(kernel, ZSTD_MAGIC.as_slice()) {
        return decompress_zstd_kernel(kernel);
    }
    match arm64_image_size(kernel, ImageKind::Kernel) {
        Err(e) => Err(KernelImageError::InvalidImage(e)),
        Ok(_) => Err(KernelImageError::InvalidImage(AssembleError::NotArm64Image { image: ImageKind::Kernel })),
    }
}


/// The kernel a decoder produced, when its arm64 header reads.
pub open spec fn checked_decoded(decoded: Option<Seq<u8>>) -> Option<Seq<u8>> {
    match decoded {
        Some(out) => if spec_arm64_image_size(out, ImageKind::Kernel) is Ok {
            Some(out)
        } else {
            None
        },
        None => None,
    }
}

/// The raw arm64 `Image` that `canonicalize_kernel` makes of `kernel`, or
/// `None` when it fails.
pub open spec fn spec_canonical_kernel(kernel: Seq<u8>) -> Option<Seq<u8>> {
    if has_arm64_magic(kernel) {
        checked_decoded(Some(kernel))
    } else if is_linux_zboot_image(kernel) {
        let payload_offset = le32(kernel, 8);
        let payload_end = payload_offset + le32(kernel, 12);
        if payload_end > usize::MAX || payload_end > kernel.len() {
            None
        } else {
            let payload = kernel.subrange(payload_offset, payload_end);
            let compression = zboot_compression(kernel);
            if starts_with(compression, ZBOOT_GZIP@) {
                checked_decoded(spec_gzip_decode(payload))
            } else if starts_with(compression, ZBOOT_ZSTD@) {
                checked_decoded(spec_zstd_decode(payload))
            } else {
                None
            }
        }
    } else if starts_with(kernel, GZIP_MAGIC@) {
        checked_decoded(spec_gzip_decode(kernel))
    } else if starts_with(kernel, ZSTD_MAGIC@) {
        checked_decoded(spec_zstd_decode(kernel))
    } else {
        None
    }
}

/// Canonicalizing is idempotent: the raw `Image` that canonicalization
/// gives is kept as it is when canonicalized again.
pub proof fn lemma_canonical_kernel_idempotent(kernel: Seq<u8>)
    ensures
        spec_canonical_kernel(kernel) matches Some(out) ==> spec_canonical_kernel(out) == Some(out),
{
}

/// A canonicalization outcome succeeds exactly when `spec_canonical_kernel`
/// names a kernel, and then with that kernel.
pub proof fn lemma_canonical_kernel(kernel: Seq<u8>, result: Result<Vec<u8>, KernelImageError>)
    requires
        canonicalize_outcome(kernel, result),
    ensures
        match result {
            Ok(out) => spec_canonical_kernel(kernel) == Some(out@),
            Err(_) => spec_canonical_kernel(kernel) is None,
        },
{
}

} // verus!
