//! The arm64 Linux `Image` header fields that payload assembly reads.

use vstd::prelude::*;
use vstd::bytes::{spec_u64_from_le_bytes, u64_from_le_bytes};

verus! {

/// Smallest file that holds a complete arm64 `Image` header.
pub const ARM64_IMAGE_MIN_SIZE: usize = 64;
/// Offset of the little-endian `image_size` field.
pub const ARM64_IMAGE_SIZE_OFFSET: usize = 16;
/// Offset of the `ARM\x64` magic.
pub const ARM64_IMAGE_MAGIC_OFFSET: usize = 56;

/// Which input an assembly error is about.
#[derive(Clone, Copy, Debug, PartialEq, Eq)]
pub enum ImageKind {
    Kernel,
    Shim,
}

/// A distinct payload assembly failure.
#[derive(Clone, Debug, PartialEq, Eq)]
pub enum AssembleError {
    ImageTooSmall { image: ImageKind, size: usize },
    NotArm64Image { image: ImageKind },
    ZeroImageSize { image: ImageKind },
    ShimTooLarge { len: u64, payload_offset: u64 },
    KernelLargerThanImageSize { len: u64, image_size: u64 },
    CompressKernel,
    EmptyInitrd,
    InvalidAlignment(u64),
    SizeOverflow(&'static str),
}

/// The four magic bytes `A`, `R`, `M`, `0x64`.
pub open spec fn arm64_magic() -> Seq<u8> {
    seq![0x41u8, 0x52u8, 0x4du8, 0x64u8]
}

/// `image` holds a whole header whose magic field reads `ARM\x64`.
pub open spec fn has_arm64_magic(image: Seq<u8>) -> bool {
    &&& image.len() >= ARM64_IMAGE_MIN_SIZE
    &&& image.subrange(56, 60) == arm64_magic()
}

/// The header's `image_size` field.
pub open spec fn header_image_size(image: Seq<u8>) -> u64 {
    spec_u64_from_le_bytes(image.subrange(16, 24))
}

/// What `arm64_image_size` reports for `image`.
pub open spec fn spec_arm64_image_size(image: Seq<u8>, kind: ImageKind) -> Result<u64, AssembleError> {
    if image.len() < ARM64_IMAGE_MIN_SIZE {
        Err(AssembleError::ImageTooSmall { image: kind, size: image.len() as usize })
    } else if !has_arm64_magic(image) {
        Err(AssembleError::NotArm64Image { image: kind })
    } else if header_image_size(image) == 0 {
        Err(AssembleError::ZeroImageSize { image: kind })
    } else {
        Ok(header_image_size(image))
    }
}

/// Whether the four bytes at `offset` are the `ARM\x64` magic.
pub fn magic_at(image: &[u8], offset: usize) -> (matches: bool)
    requires
        offset + 4 <= image@.len(),
    ensures
        matches == (image@.subrange(offset as int, offset + 4) == arm64_magic()),
{
    let m = image[offset] == 0x41 && image[offset + 1] == 0x52 && image[offset + 2] == 0x4d
        && image[offset + 3] == 0x64;
    proof {
        if m {
            assert(image@.subrange(offset as int, offset + 4) =~= arm64_magic());
        } else {
            let s = image@.subrange(offset as int, offset + 4);
            if s == arm64_magic() {
                assert(s[0] == 0x41u8 && s[1] == 0x52u8 && s[2] == 0x4du8 && s[3] == 0x64u8);
            }
        }
    }
    m
}

/// Reads the `image_size` field of a raw arm64 `Image` header, rejecting
/// short files, a missing magic and a zero size.
pub fn arm64_image_size(image: &[u8], kind: ImageKind) -> (result: Result<u64, AssembleError>)
    ensures
        result == spec_arm64_image_size(image@, kind),
{
    if image.len() < ARM64_IMAGE_MIN_SIZE {
        return Err(AssembleError::ImageTooSmall { image: kind, size: image.len() });
    }
    if !magic_at(image, ARM64_IMAGE_MAGIC_OFFSET) {
        return Err(AssembleError::NotArm64Image { image: kind });
    }
    let image_size = u64_from_le_bytes(&image[16..24]);
    if image_size == 0 {
        return Err(AssembleError::ZeroImageSize { image: kind });
    }
    Ok(image_size)
}

} // verus!
