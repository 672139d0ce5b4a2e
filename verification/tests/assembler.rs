use abl_exorcist::arm64::{
    arm64_image_size, AssembleError, ImageKind, ARM64_IMAGE_MAGIC_OFFSET, ARM64_IMAGE_MIN_SIZE, ARM64_IMAGE_SIZE_OFFSET,
};
use abl_exorcist::assembler::{
    align_up, assemble, assemble_compressed, assemble_ramdisk, assemble_ramdisk_compressed, package_source_offset,
};
use abl_exorcist::cli::{build_payload, PayloadError};
use abl_exorcist::kernel_image::{
    canonicalize_kernel, check_decompressed_kernel, KernelImageError, LINUX_ZBOOT_COMP_TYPE_OFFSET,
    LINUX_ZBOOT_IMAGE_TYPE_OFFSET, LINUX_ZBOOT_PAYLOAD_OFFSET_OFFSET, LINUX_ZBOOT_PAYLOAD_SIZE_OFFSET,
};
use abl_exorcist::package::{
    read_kernel_package, read_ramdisk_container, PACKAGE_ALIGN, PACKAGE_COMPRESSION_LZ4, PACKAGE_HEADER_LEN,
    PACKAGE_MAGIC, RAMDISK_HEADER_LEN, RAMDISK_MAGIC,
};

use std::io::Write;

const ARM64_IMAGE_MAGIC: &[u8; 4] = b"ARM\x64";

fn image(image_size: u64, file_len: usize) -> Vec<u8> {
    let mut image = vec![0; file_len.max(ARM64_IMAGE_MIN_SIZE)];
    image[ARM64_IMAGE_SIZE_OFFSET..ARM64_IMAGE_SIZE_OFFSET + 8].copy_from_slice(&image_size.to_le_bytes());
    image[ARM64_IMAGE_MAGIC_OFFSET..ARM64_IMAGE_MAGIC_OFFSET + ARM64_IMAGE_MAGIC.len()].copy_from_slice(ARM64_IMAGE_MAGIC);
    image
}

fn linux_zboot(compression: &[u8], payload: &[u8]) -> Vec<u8> {
    let payload_offset = 0x100usize;
    let mut image = vec![0; payload_offset];
    image[..2].copy_from_slice(b"MZ");
    image[LINUX_ZBOOT_IMAGE_TYPE_OFFSET..LINUX_ZBOOT_IMAGE_TYPE_OFFSET + 4].copy_from_slice(b"zimg");
    image[LINUX_ZBOOT_PAYLOAD_OFFSET_OFFSET..LINUX_ZBOOT_PAYLOAD_OFFSET_OFFSET + 4]
        .copy_from_slice(&(payload_offset as u32).to_le_bytes());
    image[LINUX_ZBOOT_PAYLOAD_SIZE_OFFSET..LINUX_ZBOOT_PAYLOAD_SIZE_OFFSET + 4]
        .copy_from_slice(&(payload.len() as u32).to_le_bytes());
    image[LINUX_ZBOOT_COMP_TYPE_OFFSET..LINUX_ZBOOT_COMP_TYPE_OFFSET + compression.len()].copy_from_slice(compression);
    image.extend_from_slice(payload);
    image
}

fn gzip(data: &[u8]) -> Vec<u8> {
    let mut encoder = flate2::write::GzEncoder::new(Vec::new(), flate2::Compression::default());
    encoder.write_all(data).unwrap();
    encoder.finish().unwrap()
}

fn read_package_u32(image: &[u8], offset: usize) -> u32 {
    let offset = PACKAGE_ALIGN + PACKAGE_MAGIC.len() + offset;
    u32::from_le_bytes(image[offset..offset + 4].try_into().unwrap())
}

fn read_package_u64(image: &[u8], offset: usize) -> u64 {
    let offset = PACKAGE_ALIGN + PACKAGE_MAGIC.len() + offset;
    u64::from_le_bytes(image[offset..offset + 8].try_into().unwrap())
}

fn read_u32(image: &[u8], offset: usize) -> u32 {
    u32::from_le_bytes(image[offset..offset + 4].try_into().unwrap())
}

fn read_u64(image: &[u8], offset: usize) -> u64 {
    u64::from_le_bytes(image[offset..offset + 8].try_into().unwrap())
}

#[test]
fn assembles_shim_payload_and_padding() {
    let shim = image(0x1000, 128);
    let kernel = image(0x2000, 256);

    let assembled = assemble(&kernel, &shim).unwrap();

    assert_eq!(&assembled[..shim.len()], shim.as_slice());
    assert!(assembled[shim.len()..PACKAGE_ALIGN].iter().all(|byte| *byte == 0));

    assert_eq!(&assembled[PACKAGE_ALIGN..PACKAGE_ALIGN + PACKAGE_MAGIC.len()], PACKAGE_MAGIC.as_slice());
    assert_eq!(read_package_u32(&assembled, 0), PACKAGE_HEADER_LEN as u32);
    assert_eq!(read_package_u32(&assembled, 4), PACKAGE_COMPRESSION_LZ4);
    assert_eq!(read_package_u64(&assembled, 16), kernel.len() as u64);
    assert_eq!(read_package_u64(&assembled, 24), 0x2000);

    let compressed_size = read_package_u64(&assembled, 8) as usize;
    let compressed =
        &assembled[PACKAGE_ALIGN + PACKAGE_HEADER_LEN..PACKAGE_ALIGN + PACKAGE_HEADER_LEN + compressed_size];
    let mut decompressed = vec![0; kernel.len()];
    lzzzz::lz4::decompress(compressed, &mut decompressed).unwrap();
    assert_eq!(decompressed, kernel);
}

#[test]
fn assembles_ramdisk_container() {
    let kernel = image(0x2000, 256);
    let initrd = b"real initrd";

    let assembled = assemble_ramdisk(&kernel, initrd).unwrap();

    assert_eq!(&assembled[..RAMDISK_MAGIC.len()], RAMDISK_MAGIC.as_slice());
    assert_eq!(read_u32(&assembled, 8), RAMDISK_HEADER_LEN as u32);
    assert_eq!(read_u32(&assembled, 12), PACKAGE_COMPRESSION_LZ4);
    let kernel_offset = read_u64(&assembled, 16) as usize;
    let compressed_size = read_u64(&assembled, 24) as usize;
    let uncompressed_size = read_u64(&assembled, 32);
    let image_size = read_u64(&assembled, 40);
    let initrd_offset = read_u64(&assembled, 48) as usize;
    let initrd_size = read_u64(&assembled, 56) as usize;

    assert_eq!(uncompressed_size, kernel.len() as u64);
    assert_eq!(image_size, 0x2000);
    assert_eq!(initrd_size, initrd.len());
    assert_eq!(&assembled[initrd_offset..initrd_offset + initrd_size], initrd);

    let compressed = &assembled[kernel_offset..kernel_offset + compressed_size];
    let mut decompressed = vec![0; kernel.len()];
    lzzzz::lz4::decompress(compressed, &mut decompressed).unwrap();
    assert_eq!(decompressed, kernel);
}

#[test]
fn package_offset_is_4k_aligned_after_shim_image() {
    let align = PACKAGE_ALIGN as u64;
    assert_eq!(package_source_offset(1).unwrap(), align);
    assert_eq!(package_source_offset(align).unwrap(), align);
    assert_eq!(package_source_offset(align + 1).unwrap(), align * 2);
}

#[test]
fn reads_arm64_image_size() {
    let image = image(1234, ARM64_IMAGE_MIN_SIZE);

    assert_eq!(arm64_image_size(&image, ImageKind::Kernel), Ok(1234));
}

#[test]
fn canonicalizes_raw_arm64_image() {
    let image = image(0x2000, 256);

    assert_eq!(canonicalize_kernel(&image).unwrap(), image);
}

#[test]
fn canonicalizes_gzip_arm64_image() {
    let image = image(0x2000, 256);
    let compressed = gzip(&image);

    assert_eq!(canonicalize_kernel(&compressed).unwrap(), image);
}

#[test]
fn canonicalizes_zstd_arm64_image() {
    let image = image(0x2000, 256);
    let compressed = zstd::stream::encode_all(image.as_slice(), 0).unwrap();

    assert_eq!(canonicalize_kernel(&compressed).unwrap(), image);
}

#[test]
fn canonicalizes_linux_zboot_gzip_image() {
    let image = image(0x2000, 256);
    let compressed = gzip(&image);
    let zboot = linux_zboot(b"gzip", &compressed);

    assert_eq!(canonicalize_kernel(&zboot).unwrap(), image);
}

#[test]
fn canonicalizes_linux_zboot_zstd_image() {
    let image = image(0x2000, 256);
    let compressed = zstd::stream::encode_all(image.as_slice(), 0).unwrap();
    let zboot = linux_zboot(b"zstd", &compressed);

    assert_eq!(canonicalize_kernel(&zboot).unwrap(), image);
}

#[test]
fn arm64_header_errors_name_the_input() {
    assert_eq!(
        arm64_image_size(&[0; 10], ImageKind::Shim),
        Err(AssembleError::ImageTooSmall { image: ImageKind::Shim, size: 10 })
    );
    assert_eq!(arm64_image_size(&[0; 64], ImageKind::Kernel), Err(AssembleError::NotArm64Image { image: ImageKind::Kernel }));
    assert_eq!(arm64_image_size(&image(0, 64), ImageKind::Kernel), Err(AssembleError::ZeroImageSize { image: ImageKind::Kernel }));
}

#[test]
fn align_up_rounds_to_powers_of_two_only() {
    assert_eq!(align_up(0, 8), Ok(0));
    assert_eq!(align_up(9, 8), Ok(16));
    assert_eq!(align_up(5, 3), Err(AssembleError::InvalidAlignment(3)));
    assert_eq!(align_up(5, 0), Err(AssembleError::InvalidAlignment(0)));
    assert_eq!(align_up(u64::MAX, 2), Err(AssembleError::SizeOverflow("aligned value")));
}

#[test]
fn assembly_refuses_a_shim_longer_than_its_image_size() {
    let shim = image(0x100, 0x1800);
    let kernel = image(0x2000, 256);

    assert_eq!(assemble(&kernel, &shim), Err(AssembleError::ShimTooLarge { len: 0x1800, payload_offset: 0x1000 }));
}

#[test]
fn assembly_refuses_a_kernel_longer_than_its_image_size() {
    let shim = image(0x1000, 128);
    let kernel = image(0x80, 256);

    assert_eq!(assemble(&kernel, &shim), Err(AssembleError::KernelLargerThanImageSize { len: 256, image_size: 0x80 }));
    assert_eq!(
        assemble_ramdisk(&kernel, b"initrd"),
        Err(AssembleError::KernelLargerThanImageSize { len: 256, image_size: 0x80 })
    );
}

#[test]
fn assembling_a_given_block_places_it_after_the_header() {
    let shim = image(0x1800, 100);
    let kernel = image(0x2000, 256);
    let block = [1u8, 2, 3, 4, 5];

    let assembled = assemble_compressed(&kernel, &shim, &block).unwrap();

    assert_eq!(assembled.len(), 0x2000 + PACKAGE_HEADER_LEN + block.len());
    assert_eq!(&assembled[0x2000 + PACKAGE_HEADER_LEN..], block.as_slice());
    assert_eq!(read_u64(&assembled, 0x2000 + 16), 5);
}

#[test]
fn ramdisk_container_places_the_initrd_on_the_next_page() {
    let kernel = image(0x2000, 256);
    let block = vec![7u8; 0x1001];

    let assembled = assemble_ramdisk_compressed(&kernel, b"init", &block).unwrap();

    assert_eq!(read_u64(&assembled, 16), 0x1000);
    assert_eq!(read_u64(&assembled, 48), 0x3000);
    assert_eq!(&assembled[0x3000..], b"init");
    assert_eq!(assembled.len(), 0x3004);
}

#[test]
fn the_shim_reads_back_the_assembled_package() {
    let shim = image(0x1000, 128);
    let kernel = image(0x2000, 256);
    let assembled = assemble(&kernel, &shim).unwrap();
    let base = 0x8000_0000usize;

    let package = read_kernel_package(base + PACKAGE_ALIGN, &assembled[PACKAGE_ALIGN..PACKAGE_ALIGN + PACKAGE_HEADER_LEN])
        .unwrap();

    assert_eq!(package.compressed_source, base + PACKAGE_ALIGN + PACKAGE_HEADER_LEN);
    assert_eq!(package.uncompressed_size, kernel.len());
    assert_eq!(package.image_size, 0x2000);
    assert_eq!(package.end, base + assembled.len());
}

#[test]
fn the_shim_reads_back_the_ramdisk_container() {
    let kernel = image(0x2000, 256);
    let assembled = assemble_ramdisk(&kernel, b"real initrd").unwrap();
    let base = 0x9000_0000usize;

    let package = read_ramdisk_container(base, &assembled).unwrap();

    assert_eq!(package.initrd_range, Some((base + 0x2000, base + 0x2000 + 11)));
    assert_eq!(package.compressed_source, base + 0x1000);
    assert_eq!(package.uncompressed_size, 256);
    assert_eq!(package.end, base + assembled.len());
}

#[test]
fn canonicalization_rejects_unknown_zboot_compression_and_bad_payloads() {
    let zboot = linux_zboot(b"lzma", &[1, 2, 3]);
    match canonicalize_kernel(&zboot) {
        Err(KernelImageError::UnsupportedZbootCompression(name)) => assert_eq!(name, "lzma"),
        other => panic!("unexpected {other:?}"),
    }

    let mut out_of_bounds = linux_zboot(b"gzip", &[1, 2, 3]);
    out_of_bounds[LINUX_ZBOOT_PAYLOAD_SIZE_OFFSET..LINUX_ZBOOT_PAYLOAD_SIZE_OFFSET + 4].copy_from_slice(&100u32.to_le_bytes());
    assert!(matches!(
        canonicalize_kernel(&out_of_bounds),
        Err(KernelImageError::ZbootPayloadOutOfBounds { payload_offset: 0x100, payload_size: 100, image_size: 0x103 })
    ));

    assert!(matches!(canonicalize_kernel(&[0x1f, 0x8b, 0, 0]), Err(KernelImageError::InvalidGzip(_))));
    assert!(matches!(canonicalize_kernel(&[0x28, 0xb5, 0x2f, 0xfd, 0]), Err(KernelImageError::InvalidZstd(_))));
    assert!(matches!(
        canonicalize_kernel(b"plain"),
        Err(KernelImageError::InvalidImage(AssembleError::ImageTooSmall { image: ImageKind::Kernel, size: 5 }))
    ));
}

#[test]
fn a_decompressed_kernel_must_have_an_arm64_header() {
    let compressed = gzip(&[0u8; 100]);

    assert!(matches!(
        canonicalize_kernel(&compressed),
        Err(KernelImageError::InvalidImage(AssembleError::NotArm64Image { image: ImageKind::Kernel }))
    ));
    assert!(matches!(
        check_decompressed_kernel(vec![0; 10]),
        Err(KernelImageError::InvalidImage(AssembleError::ImageTooSmall { image: ImageKind::Kernel, size: 10 }))
    ));
}

#[test]
fn a_run_builds_either_payload_from_the_input_files() {
    let shim = image(0x1000, 128);
    let kernel = image(0x2000, 256);
    let compressed = gzip(&kernel);

    assert_eq!(build_payload(false, &compressed, &shim).unwrap(), assemble(&kernel, &shim).unwrap());
    assert_eq!(build_payload(true, &compressed, b"initrd").unwrap(), assemble_ramdisk(&kernel, b"initrd").unwrap());
    assert!(matches!(build_payload(false, b"nonsense", &shim), Err(PayloadError::Kernel(_))));
    assert!(matches!(
        build_payload(false, &kernel, &[0; 8]),
        Err(PayloadError::Assemble(AssembleError::ImageTooSmall { image: ImageKind::Shim, size: 8 }))
    ));
}

#[test]
fn canonicalizing_twice_changes_nothing() {
    let image = image(0x2000, 256);
    let zboot = linux_zboot(b"zstd", &zstd::stream::encode_all(image.as_slice(), 0).unwrap());

    let once = canonicalize_kernel(&zboot).unwrap();
    assert_eq!(canonicalize_kernel(&once).unwrap(), once);
}

#[test]
fn an_empty_initrd_is_refused() {
    let kernel = image(0x2000, 256);

    assert_eq!(assemble_ramdisk(&kernel, b"").unwrap_err(), AssembleError::EmptyInitrd);
    assert_eq!(assemble_ramdisk_compressed(&kernel, b"", &[0]).unwrap_err(), AssembleError::EmptyInitrd);
    assert!(matches!(
        build_payload(true, &kernel, b"").unwrap_err(),
        PayloadError::Assemble(AssembleError::EmptyInitrd)
    ));
}
