//! The text of each error of the library, for callers that report them.

use vstd::prelude::*;
use vstd::string::{to_string_from_display_ensures, StringExecFns};

use crate::arm64::{AssembleError, ImageKind, ARM64_IMAGE_MIN_SIZE};
use crate::boot_cmdline::CMDLINE_CAPACITY;
use crate::bootimg::BootImgError;
use crate::kernel_image::{KernelImageError, LINUX_ZBOOT_MIN_SIZE};

verus! {

/// The digits `0` to `9` and `a` to `f`.
pub open spec fn digit_chars() -> Seq<char> {
    seq!['0', '1', '2', '3', '4', '5', '6', '7', '8', '9', 'a', 'b', 'c', 'd', 'e', 'f']
}

/// `n` in decimal, without leading zeros.
pub open spec fn decimal(n: nat) -> Seq<char>
    decreases n,
{
    if n < 10 {
        seq![digit_chars()[n as int]]
    } else {
        decimal(n / 10) + seq![digit_chars()[(n % 10) as int]]
    }
}

/// `n` in lower-case hexadecimal, without leading zeros or prefix.
pub open spec fn hex(n: nat) -> Seq<char>
    decreases n,
{
    if n < 16 {
        seq![digit_chars()[n as int]]
    } else {
        hex(n / 16) + seq![digit_chars()[(n % 16) as int]]
    }
}

fn digit_text(d: u64) -> (text: &'static str)
    requires
        d < 16,
    ensures
        text@ == seq![digit_chars()[d as int]],
{
    if d == 0 {
        proof {
            reveal_strlit("0");
        }
        "0"
    } else if d == 1 {
        proof {
            reveal_strlit("1");
        }
        "1"
    } else if d == 2 {
        proof {
            reveal_strlit("2");
        }
        "2"
    } else if d == 3 {
        proof {
            reveal_strlit("3");
        }
        "3"
    } else if d == 4 {
        proof {
            reveal_strlit("4");
        }
        "4"
    } else if d == 5 {
        proof {
            reveal_strlit("5");
        }
        "5"
    } else if d == 6 {
        proof {
            reveal_strlit("6");
        }
        "6"
    } else if d == 7 {
        proof {
            reveal_strlit("7");
        }
        "7"
    } else if d == 8 {
        proof {
            reveal_strlit("8");
        }
        "8"
    } else if d == 9 {
        proof {
            reveal_strlit("9");
        }
        "9"
    } else if d == 10 {
        proof {
            reveal_strlit("a");
        }
        "a"
    } else if d == 11 {
        proof {
            reveal_strlit("b");
        }
        "b"
    } else if d == 12 {
        proof {
            reveal_strlit("c");
        }
        "c"
    } else if d == 13 {
        proof {
            reveal_strlit("d");
        }
        "d"
    } else if d == 14 {
        proof {
            reveal_strlit("e");
        }
        "e"
    } else {
        proof {
            reveal_strlit("f");
        }
        "f"
    }
}

/// Appends `n` in decimal.
pub fn push_decimal(out: &mut String, n: u64)
    ensures
        final(out)@ == old(out)@ + decimal(n as nat),
    decreases n,
{
    if n >= 10 {
        push_decimal(out, n / 10);
    }
    out.append(digit_text(n % 10));
    assert(out@ =~= old(out)@ + decimal(n as nat));
}

/// Appends `n` in lower-case hexadecimal.
pub fn push_hex(out: &mut String, n: u64)
    ensures
        final(out)@ == old(out)@ + hex(n as nat),
    decreases n,
{
    if n >= 16 {
        push_hex(out, n / 16);
    }
    out.append(digit_text(n % 16));
    assert(out@ =~= old(out)@ + hex(n as nat));
}

/// What an error message calls the input an assembly error is about.
pub open spec fn image_name(kind: ImageKind) -> Seq<char> {
    match kind {
        ImageKind::Kernel => "kernel"@,
        ImageKind::Shim => "abl-exorcist"@,
    }
}

fn push_image_name(out: &mut String, kind: ImageKind)
    ensures
        final(out)@ == old(out)@ + image_name(kind),
{
    match kind {
        ImageKind::Kernel => out.append("kernel"),
        ImageKind::Shim => out.append("abl-exorcist"),
    }
}

/// The message for an assembly error.
pub open spec fn assemble_message(e: AssembleError) -> Seq<char> {
    match e {
        AssembleError::ImageTooSmall { image, size } => image_name(image) + " is smaller than an arm64 Image header: "@
            + decimal(size as nat) + " < "@ + decimal(ARM64_IMAGE_MIN_SIZE as nat),
        AssembleError::NotArm64Image { image } => image_name(image) + " is not a raw arm64 Image"@,
        AssembleError::ZeroImageSize { image } => image_name(image) + " arm64 Image header has zero image_size"@,
        AssembleError::ShimTooLarge { len, payload_offset } => "abl-exorcist image length 0x"@ + hex(len as nat)
            + " exceeds payload offset 0x"@ + hex(payload_offset as nat),
        AssembleError::KernelLargerThanImageSize { len, image_size } => "kernel file length 0x"@ + hex(len as nat)
            + " exceeds arm64 image_size 0x"@ + hex(image_size as nat),
        AssembleError::CompressKernel => "failed to compress kernel image"@,
        AssembleError::EmptyInitrd => "initrd is empty"@,
        AssembleError::InvalidAlignment(alignment) => "alignment must be a non-zero power of two: 0x"@ + hex(
            alignment as nat,
        ),
        AssembleError::SizeOverflow(description) => description@ + " overflows u64/usize"@,
    }
}

/// Appends the message for `e`.
pub fn push_assemble_message(out: &mut String, e: &AssembleError)
    ensures
        final(out)@ == old(out)@ + assemble_message(*e),
{
    let ghost start = out@;
    match e {
        AssembleError::ImageTooSmall { image, size } => {
            push_image_name(out, *image);
            out.append(" is smaller than an arm64 Image header: ");
            push_decimal(out, *size as u64);
            out.append(" < ");
            push_decimal(out, ARM64_IMAGE_MIN_SIZE as u64);
        },
        AssembleError::NotArm64Image { image } => {
            push_image_name(out, *image);
            out.append(" is not a raw arm64 Image");
        },
        AssembleError::ZeroImageSize { image } => {
            push_image_name(out, *image);
            out.append(" arm64 Image header has zero image_size");
        },
        AssembleError::ShimTooLarge { len, payload_offset } => {
            out.append("abl-exorcist image length 0x");
            push_hex(out, *len);
            out.append(" exceeds payload offset 0x");
            push_hex(out, *payload_offset);
        },
        AssembleError::KernelLargerThanImageSize { len, image_size } => {
            out.append("kernel file length 0x");
            push_hex(out, *len);
            out.append(" exceeds arm64 image_size 0x");
            push_hex(out, *image_size);
        },
        AssembleError::CompressKernel => out.append("failed to compress kernel image"),
        AssembleError::EmptyInitrd => out.append("initrd is empty"),
        AssembleError::InvalidAlignment(alignment) => {
            out.append("alignment must be a non-zero power of two: 0x");
            push_hex(out, *alignment);
        },
        AssembleError::SizeOverflow(description) => {
            out.append(description);
            out.append(" overflows u64/usize");
        },
    }
    assert(out@ =~= start + assemble_message(*e));
}

impl AssembleError {
    /// The error's message.
    pub fn message(&self) -> (text: String)
        ensures
            text@ == assemble_message(*self),
    {
        let mut text = String::new();
        push_assemble_message(&mut text, self);
        assert(text@ =~= assemble_message(*self));
        text
    }
}

/// The message for an Android boot image error.
pub open spec fn boot_img_message(e: BootImgError) -> Seq<char> {
    match e {
        BootImgError::BadMagic => "Android boot image magic is missing"@,
        BootImgError::Truncated { needed, actual } => "image is truncated: needs at least "@ + decimal(needed as nat)
            + " bytes, has "@ + decimal(actual as nat),
        BootImgError::UnsupportedHeaderVersion(version) => "unsupported Android boot header version: "@ + decimal(
            version as nat,
        ),
        BootImgError::BadPageSize(size) => "invalid Android boot page size: "@ + decimal(size as nat),
        BootImgError::Header(message) => "Android boot header is invalid: "@ + message@,
        BootImgError::TrailingData { expected, actual } => "trailing data or truncated payloads: image is "@ + decimal(
            actual as nat,
        ) + " bytes, expected "@ + decimal(expected as nat),
        BootImgError::EmptyKernel => "kernel payload is empty"@,
        BootImgError::EmptyRamdisk => "ramdisk payload is empty"@,
        BootImgError::EmptyDtb => "DTB payload is empty"@,
        BootImgError::CmdlineTooLong(len) => "Android boot image command line is too long: "@ + decimal(len as nat)
            + " > "@ + decimal(CMDLINE_CAPACITY as nat) + " bytes"@,
        BootImgError::CmdlineForbiddenCharacter => "command line contains a forbidden NUL, newline or carriage return"@,
        BootImgError::CmdlineNotTerminated => "command line field is not NUL-terminated"@,
        BootImgError::CmdlineGarbage => "command line field has data after its NUL terminator"@,
        BootImgError::IdMismatch => "Android image ID mismatch"@,
        BootImgError::RecoveryOffsetMismatch { header, computed } => "recovery DTBO offset 0x"@ + hex(header as nat)
            + " does not match payload layout 0x"@ + hex(computed as nat),
        BootImgError::SectionOutOfBounds { section, offset, len, image_len } => section@ + " section 0x"@ + hex(
            offset as nat,
        ) + "+0x"@ + hex(len as nat) + " lies outside the "@ + decimal(image_len as nat) + "-byte image"@,
        BootImgError::SizeOverflow(description) => description@ + " overflows u32"@,
    }
}

fn push_boot_img_message(out: &mut String, e: &BootImgError)
    ensures
        final(out)@ == old(out)@ + boot_img_message(*e),
{
    let ghost start = out@;
    match e {
        BootImgError::BadMagic => out.append("Android boot image magic is missing"),
        BootImgError::Truncated { needed, actual } => {
            out.append("image is truncated: needs at least ");
            push_decimal(out, *needed as u64);
            out.append(" bytes, has ");
            push_decimal(out, *actual as u64);
        },
        BootImgError::UnsupportedHeaderVersion(version) => {
            out.append("unsupported Android boot header version: ");
            push_decimal(out, *version as u64);
        },
        BootImgError::BadPageSize(size) => {
            out.append("invalid Android boot page size: ");
            push_decimal(out, *size as u64);
        },
        BootImgError::Header(message) => {
            out.append("Android boot header is invalid: ");
            out.append(message.as_str());
        },
        BootImgError::TrailingData { expected, actual } => {
            out.append("trailing data or truncated payloads: image is ");
            push_decimal(out, *actual as u64);
            out.append(" bytes, expected ");
            push_decimal(out, *expected as u64);
        },
        BootImgError::EmptyKernel => out.append("kernel payload is empty"),
        BootImgError::EmptyRamdisk => out.append("ramdisk payload is empty"),
        BootImgError::EmptyDtb => out.append("DTB payload is empty"),
        BootImgError::CmdlineTooLong(len) => {
            out.append("Android boot image command line is too long: ");
            push_decimal(out, *len as u64);
            out.append(" > ");
            push_decimal(out, CMDLINE_CAPACITY as u64);
            out.append(" bytes");
        },
        BootImgError::CmdlineForbiddenCharacter => out.append(
            "command line contains a forbidden NUL, newline or carriage return",
        ),
        BootImgError::CmdlineNotTerminated => out.append("command line field is not NUL-terminated"),
        BootImgError::CmdlineGarbage => out.append("command line field has data after its NUL terminator"),
        BootImgError::IdMismatch => out.append("Android image ID mismatch"),
        BootImgError::RecoveryOffsetMismatch { header, computed } => {
            out.append("recovery DTBO offset 0x");
            push_hex(out, *header);
            out.append(" does not match payload layout 0x");
            push_hex(out, *computed);
        },
        BootImgError::SectionOutOfBounds { section, offset, len, image_len } => {
            out.append(section);
            out.append(" section 0x");
            push_hex(out, *offset as u64);
            out.append("+0x");
            push_hex(out, *len as u64);
            out.append(" lies outside the ");
            push_decimal(out, *image_len as u64);
            out.append("-byte image");
        },
        BootImgError::SizeOverflow(description) => {
            out.append(description);
            out.append(" overflows u32");
        },
    }
    assert(out@ =~= start + boot_img_message(*e));
}

impl BootImgError {
    /// The error's message.
    pub fn message(&self) -> (text: String)
        ensures
            text@ == boot_img_message(*self),
    {
        let mut text = String::new();
        push_boot_img_message(&mut text, self);
        assert(text@ =~= boot_img_message(*self));
        text
    }
}

/// `text` is the message for a kernel input error. Where the error carries
/// a decoder's `io::Error`, its part of the message is that error's own
/// text, as its `to_string` gives it.
pub open spec fn kernel_image_message_is(e: KernelImageError, text: Seq<char>) -> bool {
    match e {
        KernelImageError::InvalidImage(err) => text == assemble_message(err),
        KernelImageError::InvalidGzip(err) => exists|s: String|
            to_string_from_display_ensures::<std::io::Error>(&err, s) && text == "decompress gzip kernel image: "@
                + s@,
        KernelImageError::InvalidZstd(err) => exists|s: String|
            to_string_from_display_ensures::<std::io::Error>(&err, s) && text == "decompress zstd kernel image: "@
                + s@,
        KernelImageError::ZbootTooSmall { size } => text == "Linux EFI zboot image is too small: "@ + decimal(
            size as nat,
        ) + " < "@ + decimal(LINUX_ZBOOT_MIN_SIZE as nat),
        KernelImageError::ZbootPayloadOutOfBounds { payload_offset, payload_size, image_size } => text
            == "Linux EFI zboot payload extends beyond image: offset 0x"@ + hex(payload_offset as nat)
            + " + size 0x"@ + hex(payload_size as nat) + " > 0x"@ + hex(image_size as nat),
        KernelImageError::UnsupportedZbootCompression(compression) => text
            == "unsupported Linux EFI zboot compression type: "@ + compression@,
        KernelImageError::SizeOverflow(description) => text == description@ + " overflows usize"@,
    }
}

impl KernelImageError {
    /// The error's message.
    pub fn message(&self) -> (text: String)
        ensures
            kernel_image_message_is(*self, text@),
    {
        let mut text = String::new();
        match self {
            KernelImageError::InvalidImage(err) => push_assemble_message(&mut text, err),
            KernelImageError::InvalidGzip(err) => {
                text.append("decompress gzip kernel image: ");
                let detail = err.to_string();
                text.append(detail.as_str());
            },
            KernelImageError::InvalidZstd(err) => {
                text.append("decompress zstd kernel image: ");
                let detail = err.to_string();
                text.append(detail.as_str());
            },
            KernelImageError::ZbootTooSmall { size } => {
                text.append("Linux EFI zboot image is too small: ");
                push_decimal(&mut text, *size as u64);
                text.append(" < ");
                push_decimal(&mut text, LINUX_ZBOOT_MIN_SIZE as u64);
            },
            KernelImageError::ZbootPayloadOutOfBounds { payload_offset, payload_size, image_size } => {
                text.append("Linux EFI zboot payload extends beyond image: offset 0x");
                push_hex(&mut text, *payload_offset as u64);
                text.append(" + size 0x");
                push_hex(&mut text, *payload_size as u64);
                text.append(" > 0x");
                push_hex(&mut text, *image_size as u64);
            },
            KernelImageError::UnsupportedZbootCompression(compression) => {
                text.append("unsupported Linux EFI zboot compression type: ");
                text.append(compression.as_str());
            },
            KernelImageError::SizeOverflow(description) => {
                text.append(description);
                text.append(" overflows usize");
            },
        }
        assert(kernel_image_message_is(*self, text@));
        text
    }
}

} // verus!
