use abl_exorcist::boot_cmdline::{cmdline_fields, wrap_cmdline_markers, CMDLINE_CAPACITY};
use abl_exorcist::boot_header::{CMDLINE_FIELD_SIZE, HEADER_VERSION_OFFSET, SHA1_SIZE};
use abl_exorcist::bootimg::{
    compute_id, parse, recovery_dtbo_offset, repack, set_recovery_dtbo_offset, verify, verify_cmdline_field,
    BootImgError, Repack,
};

use abootimg_oxide::binrw::io::Cursor;
use abootimg_oxide::binrw::BinWrite;
use abootimg_oxide::{HeaderV0, HeaderV0Versioned, OsVersionPatch};
use sha1::{Digest, Sha1};

const PAGE_SIZE: u32 = 4096;
const ID_OFFSET: usize = 576;
const RECOVERY_DTBO_OFFSET_OFFSET: usize = 1636;

fn chunk(seed: u8, len: usize) -> Vec<u8> {
    (0..len).map(|index| seed.wrapping_add(index as u8)).collect()
}

fn align_up(value: usize) -> usize {
    let page = PAGE_SIZE as usize;
    value.div_ceil(page) * page
}

fn digest(kernel: &[u8], ramdisk: &[u8], second: &[u8], recovery: &[u8], dtb: &[u8]) -> [u8; 32] {
    let (mut kernel, mut ramdisk, mut second, mut recovery, mut dtb) = (kernel, ramdisk, second, recovery, dtb);
    HeaderV0::compute_hash_digest::<&[u8], Sha1>(
        Some(&mut kernel),
        Some(&mut ramdisk),
        Some(&mut second),
        Some(&mut recovery),
        Some(&mut dtb),
    )
    .unwrap()
}

fn build(kernel: &[u8], ramdisk: &[u8], second: &[u8], recovery: &[u8], dtb: &[u8], cmdline: &str) -> Vec<u8> {
    let page = PAGE_SIZE as usize;
    let kernel_offset = page;
    let ramdisk_offset = align_up(kernel_offset + kernel.len());
    let second_offset = align_up(ramdisk_offset + ramdisk.len());
    let recovery_offset = align_up(second_offset + second.len());
    let dtb_offset = align_up(recovery_offset + recovery.len());
    let total = align_up(dtb_offset + dtb.len());

    let fields: [u8; 1536] = cmdline_fields(cmdline.as_bytes()).try_into().unwrap();
    let header = HeaderV0 {
        kernel_size: kernel.len() as u32,
        kernel_addr: 0x8000,
        ramdisk_size: ramdisk.len() as u32,
        ramdisk_addr: 0x0100_0000,
        second_bootloader_size: second.len() as u32,
        second_bootloader_addr: 0,
        tags_addr: 0x100,
        page_size: PAGE_SIZE,
        osversionpatch: OsVersionPatch(0),
        board_name: [0; 16],
        cmdline: Box::new(fields),
        hash_digest: digest(kernel, ramdisk, second, recovery, dtb),
        versioned: HeaderV0Versioned::V2 {
            recovery_dtbo_size: recovery.len() as u32,
            recovery_dtbo_addr: if recovery.is_empty() { 0 } else { recovery_offset as u64 },
            dtb_size: dtb.len() as u32,
            dtb_addr: 0,
        },
    };

    let mut image = Vec::with_capacity(total);
    header.write(&mut Cursor::new(&mut image)).unwrap();
    image.resize(kernel_offset, 0);
    image.extend_from_slice(kernel);
    image.resize(ramdisk_offset, 0);
    image.extend_from_slice(ramdisk);
    image.resize(second_offset, 0);
    image.extend_from_slice(second);
    image.resize(recovery_offset, 0);
    image.extend_from_slice(recovery);
    image.resize(dtb_offset, 0);
    image.extend_from_slice(dtb);
    image.resize(total, 0);
    image
}

fn sample() -> Vec<u8> {
    build(
        &chunk(0x11, 3000),
        &chunk(0x22, 5000),
        &chunk(0x33, 100),
        &chunk(0x44, 700),
        &chunk(0x55, 900),
        "<S> root=LABEL=pfroot rw <E>",
    )
}

#[test]
fn repack_without_replacements_is_byte_identical() {
    let template = sample();

    let output = repack(&template, &Repack::default()).unwrap();

    assert_eq!(output, template);
}

#[test]
fn repack_replaces_ramdisk_and_relays_out_payloads() {
    let template = sample();
    let new_ramdisk = chunk(0x77, 9000);

    let output = repack(&template, &Repack { ramdisk: Some(&new_ramdisk), ..Repack::default() }).unwrap();

    let parsed = verify(&output).unwrap();
    assert_eq!(parsed.ramdisk.len, new_ramdisk.len());
    assert_eq!(parsed.header.ramdisk_size, new_ramdisk.len() as u32);
    assert_eq!(&output[parsed.ramdisk.offset..parsed.ramdisk.offset + parsed.ramdisk.len], new_ramdisk.as_slice());
    assert_eq!(parsed.second.offset, align_up(parsed.ramdisk.offset + parsed.ramdisk.len));
    assert_eq!(
        recovery_dtbo_offset(&parsed.header),
        parsed.recovery_dtbo.offset as u64,
        "recovery DTBO offset follows the relaid payloads"
    );
}

#[test]
fn id_matches_independently_computed_sha1() {
    let template = sample();
    let parsed = parse(&template).unwrap();

    let mut hasher = Sha1::new();
    for (_, section) in parsed.sections() {
        hasher.update(&template[section.offset..section.offset + section.len]);
        hasher.update((section.len as u32).to_le_bytes());
    }
    let mut expected = [0u8; SHA1_SIZE];
    expected.copy_from_slice(&hasher.finalize());

    assert_eq!(expected, compute_id(&template, &parsed).unwrap().as_slice());
    assert_eq!(&template[ID_OFFSET..ID_OFFSET + SHA1_SIZE], expected);
}

#[test]
fn long_cmdline_spills_into_extra_field() {
    let cmdline = "x".repeat(600);
    let template = build(&chunk(0x11, 3000), &chunk(0x22, 5000), &[], &[], &chunk(0x55, 900), &cmdline);

    let parsed = verify(&template).unwrap();

    assert_eq!(parsed.cmdline, cmdline);
    assert!(parsed.cmdline.len() > CMDLINE_FIELD_SIZE - 1);
    assert_eq!(parsed.header.cmdline[CMDLINE_FIELD_SIZE - 1], 0);
}

#[test]
fn overlong_cmdline_is_rejected() {
    let template = sample();
    let cmdline = "y".repeat(1600);

    let error = repack(&template, &Repack { cmdline: Some(&cmdline), ..Repack::default() }).unwrap_err();

    assert_eq!(error, BootImgError::CmdlineTooLong(1600));
}

#[test]
fn wrap_markers_is_idempotent_and_collapses_whitespace() {
    assert_eq!(wrap_cmdline_markers("foo   bar\nbaz"), "<S> foo bar baz <E>");
    assert_eq!(wrap_cmdline_markers("<S> foo  bar <E>"), "<S> foo bar <E>");

    let once = wrap_cmdline_markers("<S> foo bar <E>");
    assert_eq!(wrap_cmdline_markers(&once), once);
}

#[test]
fn verify_rejects_structural_corruption() {
    let template = sample();

    assert!(matches!(verify(&[]).unwrap_err(), BootImgError::Truncated { .. }));

    let mut bad_magic = template.clone();
    bad_magic[0] = b'X';
    assert_eq!(verify(&bad_magic).unwrap_err(), BootImgError::BadMagic);

    let mut wrong_version = template.clone();
    wrong_version[HEADER_VERSION_OFFSET..HEADER_VERSION_OFFSET + 4].copy_from_slice(&3u32.to_le_bytes());
    assert_eq!(verify(&wrong_version).unwrap_err(), BootImgError::UnsupportedHeaderVersion(3));

    let mut bad_page = template.clone();
    bad_page[36..40].copy_from_slice(&0u32.to_le_bytes());
    assert_eq!(verify(&bad_page).unwrap_err(), BootImgError::BadPageSize(0));

    let short = verify(&template[..1000]).unwrap_err();
    assert!(matches!(short, BootImgError::Truncated { .. }), "{short:?}");

    let mut trailing = template.clone();
    trailing.push(0);
    assert_eq!(
        verify(&trailing).unwrap_err(),
        BootImgError::TrailingData { expected: template.len(), actual: template.len() + 1 }
    );

    let mut corrupted_id = template.clone();
    corrupted_id[ID_OFFSET] ^= 0xff;
    assert_eq!(verify(&corrupted_id).unwrap_err(), BootImgError::IdMismatch);
}

#[test]
fn repack_rejects_an_empty_replacement_ramdisk() {
    let template = sample();

    let err = repack(&template, &Repack { ramdisk: Some(&[]), ..Default::default() }).unwrap_err();

    assert_eq!(err, BootImgError::EmptyRamdisk);
}

#[test]
fn repack_rejects_template_with_trailing_data() {
    let mut template = sample();
    template.push(0);

    assert_eq!(
        repack(&template, &Repack::default()).unwrap_err(),
        BootImgError::TrailingData { expected: template.len() - 1, actual: template.len() }
    );
}

#[test]
fn repack_rejects_recovery_offset_mismatch() {
    let mut template = sample();
    template[RECOVERY_DTBO_OFFSET_OFFSET..RECOVERY_DTBO_OFFSET_OFFSET + 8].copy_from_slice(&0x1234u64.to_le_bytes());

    assert_eq!(
        repack(&template, &Repack::default()).unwrap_err(),
        BootImgError::RecoveryOffsetMismatch { header: 0x1234, computed: 20480 }
    );
}

#[test]
fn repack_replaces_kernel_and_wraps_the_cmdline() {
    let template = sample();
    let new_kernel = chunk(0x99, 4100);

    let output = repack(
        &template,
        &Repack { kernel: Some(&new_kernel), cmdline: Some("  root=/dev/sda1\trw "), wrap_markers: true, ..Repack::default() },
    )
    .unwrap();

    let parsed = verify(&output).unwrap();
    assert_eq!(parsed.cmdline, "<S> root=/dev/sda1 rw <E>");
    assert_eq!(parsed.header.kernel_size, 4100);
    assert_eq!(&output[parsed.kernel.offset..parsed.kernel.offset + parsed.kernel.len], new_kernel.as_slice());
    assert_eq!(parsed.ramdisk.offset, 4096 + 8192);
}

#[test]
fn repacked_image_repacks_to_itself() {
    let template = sample();
    let new_ramdisk = chunk(0x66, 12345);
    let once = repack(&template, &Repack { ramdisk: Some(&new_ramdisk), ..Repack::default() }).unwrap();

    assert_eq!(repack(&once, &Repack::default()).unwrap(), once);
}

#[test]
fn repack_rejects_forbidden_cmdline_characters() {
    let template = sample();

    let err = repack(&template, &Repack { cmdline: Some("root=/dev/sda\nrw"), ..Repack::default() }).unwrap_err();

    assert_eq!(err, BootImgError::CmdlineForbiddenCharacter);
}

#[test]
fn repack_accepts_a_cmdline_of_exactly_the_capacity() {
    let template = sample();
    let cmdline = "z".repeat(CMDLINE_CAPACITY);

    let output = repack(&template, &Repack { cmdline: Some(&cmdline), ..Repack::default() }).unwrap();

    assert_eq!(verify(&output).unwrap().cmdline, cmdline);
}

#[test]
fn repack_rejects_an_empty_replacement_kernel() {
    let template = sample();

    let err = repack(&template, &Repack { kernel: Some(&[]), ..Repack::default() }).unwrap_err();

    assert_eq!(err, BootImgError::EmptyKernel);
}

#[test]
fn verify_rejects_a_missing_dtb() {
    let template = build(&chunk(0x11, 3000), &chunk(0x22, 5000), &[], &[], &[], "<S> <E>");

    assert_eq!(verify(&template).unwrap_err(), BootImgError::EmptyDtb);
}

#[test]
fn cmdline_field_checks_find_missing_terminator_and_garbage() {
    assert_eq!(verify_cmdline_field(&[b'a'; 8]), Err(BootImgError::CmdlineNotTerminated));
    assert_eq!(verify_cmdline_field(&[b'a', 0, 0, b'b']), Err(BootImgError::CmdlineGarbage));
    assert_eq!(verify_cmdline_field(&[b'a', 0, 0, 0]), Ok(()));
}

#[test]
fn parse_reports_sections_outside_the_image() {
    let template = sample();
    let truncated = &template[..8192];

    assert_eq!(
        parse(truncated).unwrap_err(),
        BootImgError::SectionOutOfBounds { section: "ramdisk", offset: 8192, len: 5000, image_len: 8192 }
    );
}

#[test]
fn a_header_cut_off_in_its_version_tail_is_reported_by_the_decoder() {
    let template = sample();

    assert!(matches!(verify(&template[..1640]).unwrap_err(), BootImgError::Header(_)));
}

#[test]
fn wrapping_an_empty_cmdline_gives_the_bare_markers() {
    assert_eq!(wrap_cmdline_markers(" \t\n"), "<S> <E>");
    assert_eq!(wrap_cmdline_markers("<S>   <E>"), "<S> <E>");
}

#[test]
fn a_non_ascii_cmdline_reads_back_across_both_fields() {
    let template = sample();
    let cmdline = format!("{}é{}", "a".repeat(509), "ü".repeat(100));

    let output = repack(&template, &Repack { cmdline: Some(&cmdline), ..Repack::default() }).unwrap();

    assert_eq!(verify(&output).unwrap().cmdline, cmdline);
}

#[test]
fn a_character_cut_where_the_first_field_ends_does_not_read_back() {
    let template = sample();
    let cmdline = format!("{}é", "a".repeat(510));

    let output = repack(&template, &Repack { cmdline: Some(&cmdline), ..Repack::default() }).unwrap();

    assert_ne!(verify(&output).unwrap().cmdline, cmdline);
}

#[test]
fn a_recorded_recovery_offset_reads_back() {
    let template = sample();
    let mut header = parse(&template).unwrap().header;

    set_recovery_dtbo_offset(&mut header, 0x5000);

    assert_eq!(recovery_dtbo_offset(&header), 0x5000);
}

#[test]
fn parse_ignores_bytes_after_the_image_and_keeps_sections_inside_it() {
    let template = sample();
    let parsed = parse(&template).unwrap();
    let mut longer = template.clone();
    longer.extend_from_slice(&[0xee; 5000]);

    assert_eq!(parse(&longer).unwrap(), parsed);
    for section in [parsed.kernel, parsed.ramdisk, parsed.second, parsed.recovery_dtbo, parsed.dtb] {
        assert!(section.offset + section.len <= template.len());
    }
    let page = parsed.header.page_size as usize;
    let dtb_end = parsed.dtb.offset + parsed.dtb.len;
    assert_eq!(parsed.total_len % page, 0);
    assert!(dtb_end <= parsed.total_len && parsed.total_len < dtb_end + page);
}
