use abl_exorcist::arm64::{AssembleError, ImageKind};
use abl_exorcist::bootimg::BootImgError;
use abl_exorcist::kernel_image::KernelImageError;
use abl_exorcist::messages::{push_decimal, push_hex};

#[test]
fn numbers_render_in_decimal_and_hex() {
    let mut text = String::new();
    push_decimal(&mut text, 0);
    text.push(' ');
    push_decimal(&mut text, 1660);
    text.push(' ');
    push_hex(&mut text, 0xdead_beef);
    text.push(' ');
    push_hex(&mut text, u64::MAX);
    assert_eq!(text, format!("0 1660 deadbeef {:x}", u64::MAX));
}

#[test]
fn assembly_errors_have_their_messages() {
    assert_eq!(
        AssembleError::ImageTooSmall { image: ImageKind::Kernel, size: 12 }.message(),
        "kernel is smaller than an arm64 Image header: 12 < 64"
    );
    assert_eq!(
        AssembleError::ShimTooLarge { len: 0x1234, payload_offset: 0x1000 }.message(),
        "abl-exorcist image length 0x1234 exceeds payload offset 0x1000"
    );
    assert_eq!(AssembleError::EmptyInitrd.message(), "initrd is empty");
    assert_eq!(AssembleError::SizeOverflow("aligned value").message(), "aligned value overflows u64/usize");
}

#[test]
fn boot_image_errors_have_their_messages() {
    assert_eq!(
        BootImgError::Truncated { needed: 1660, actual: 8 }.message(),
        "image is truncated: needs at least 1660 bytes, has 8"
    );
    assert_eq!(
        BootImgError::CmdlineTooLong(1600).message(),
        "Android boot image command line is too long: 1600 > 1534 bytes"
    );
    assert_eq!(
        BootImgError::SectionOutOfBounds { section: "ramdisk", offset: 8192, len: 5000, image_len: 8192 }.message(),
        "ramdisk section 0x2000+0x1388 lies outside the 8192-byte image"
    );
    assert_eq!(
        BootImgError::RecoveryOffsetMismatch { header: 0x1234, computed: 20480 }.message(),
        "recovery DTBO offset 0x1234 does not match payload layout 0x5000"
    );
}

#[test]
fn kernel_input_errors_have_their_messages() {
    let io = std::io::Error::new(std::io::ErrorKind::InvalidData, "corrupt deflate stream");
    assert_eq!(
        KernelImageError::InvalidGzip(io).message(),
        "decompress gzip kernel image: corrupt deflate stream"
    );
    assert_eq!(
        KernelImageError::ZbootPayloadOutOfBounds { payload_offset: 0x40, payload_size: 0x100, image_size: 0x80 }
            .message(),
        "Linux EFI zboot payload extends beyond image: offset 0x40 + size 0x100 > 0x80"
    );
    assert_eq!(
        KernelImageError::InvalidImage(AssembleError::NotArm64Image { image: ImageKind::Kernel }).message(),
        "kernel is not a raw arm64 Image"
    );
}
