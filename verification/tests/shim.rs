use abl_exorcist::cmdline::{filter_cmdline_in_place, nul_terminated_len};
use abl_exorcist::fdt::{
    find_bootargs, find_initrd_range, kernel_destination_after_floor, rewrite_bootargs, rewrite_initrd_range,
    FdtError, FDT_BEGIN_NODE, FDT_END, FDT_END_NODE, FDT_HEADER_SIZE, FDT_MAGIC, FDT_PROP,
};
use abl_exorcist::lz4::decompress_lz4_block;
use abl_exorcist::package::{KernelPackage, PACKAGE_HEADER_LEN};
use abl_exorcist::serial::{write_hex, write_str};
use abl_exorcist::shim::{counter_ticks_to_ms, decompress_kernel, kernel_destination, package_source, raw_fdt_range};

fn cstr(value: &[u8]) -> &[u8] {
    &value[..nul_terminated_len(value)]
}

fn test_fdt(bootargs: &[u8]) -> Vec<u8> {
    test_fdt_props(&[(&b"bootargs"[..], bootargs)])
}

fn test_fdt_props(props: &[(&[u8], &[u8])]) -> Vec<u8> {
    let mut strings = Vec::new();
    let mut name_offsets = Vec::new();
    for (name, _) in props {
        name_offsets.push(strings.len() as u32);
        strings.extend_from_slice(name);
        strings.push(0);
    }

    let mut structure = Vec::new();
    push_be32(&mut structure, FDT_BEGIN_NODE);
    push_padded_bytes(&mut structure, b"\0");
    push_be32(&mut structure, FDT_BEGIN_NODE);
    push_padded_bytes(&mut structure, b"chosen\0");
    for ((_, value), name_offset) in props.iter().zip(name_offsets.iter()) {
        push_be32(&mut structure, FDT_PROP);
        push_be32(&mut structure, value.len() as u32);
        push_be32(&mut structure, *name_offset);
        push_padded_bytes(&mut structure, value);
    }
    push_be32(&mut structure, FDT_END_NODE);
    push_be32(&mut structure, FDT_END_NODE);
    push_be32(&mut structure, FDT_END);

    let off_mem_rsvmap = FDT_HEADER_SIZE;
    let off_dt_struct = off_mem_rsvmap + 16;
    let off_dt_strings = off_dt_struct + structure.len();
    let totalsize = off_dt_strings + strings.len();

    let mut fdt = Vec::new();
    push_be32(&mut fdt, FDT_MAGIC);
    push_be32(&mut fdt, totalsize as u32);
    push_be32(&mut fdt, off_dt_struct as u32);
    push_be32(&mut fdt, off_dt_strings as u32);
    push_be32(&mut fdt, off_mem_rsvmap as u32);
    push_be32(&mut fdt, 17);
    push_be32(&mut fdt, 16);
    push_be32(&mut fdt, 0);
    push_be32(&mut fdt, strings.len() as u32);
    push_be32(&mut fdt, structure.len() as u32);
    fdt.extend_from_slice(&[0; 16]);
    fdt.extend_from_slice(&structure);
    fdt.extend_from_slice(&strings);
    fdt
}

fn test_fdt_with_reserved(memreserve: &[(u64, u64)], reserved: &[(u64, u64)]) -> Vec<u8> {
    let mut strings = Vec::new();
    let address_cells_offset = add_string(&mut strings, b"#address-cells");
    let size_cells_offset = add_string(&mut strings, b"#size-cells");
    let reg_offset = add_string(&mut strings, b"reg");

    let mut structure = Vec::new();
    push_be32(&mut structure, FDT_BEGIN_NODE);
    push_padded_bytes(&mut structure, b"\0");
    push_u32_prop(&mut structure, address_cells_offset, 2);
    push_u32_prop(&mut structure, size_cells_offset, 2);

    push_be32(&mut structure, FDT_BEGIN_NODE);
    push_padded_bytes(&mut structure, b"reserved-memory\0");
    push_u32_prop(&mut structure, address_cells_offset, 2);
    push_u32_prop(&mut structure, size_cells_offset, 2);

    for (address, size) in reserved {
        let mut reg = Vec::new();
        push_be64(&mut reg, *address);
        push_be64(&mut reg, *size);

        push_be32(&mut structure, FDT_BEGIN_NODE);
        push_padded_bytes(&mut structure, b"reserved\0");
        push_prop(&mut structure, reg_offset, &reg);
        push_be32(&mut structure, FDT_END_NODE);
    }

    push_be32(&mut structure, FDT_END_NODE);
    push_be32(&mut structure, FDT_END_NODE);
    push_be32(&mut structure, FDT_END);

    finish_test_fdt(memreserve, &structure, &strings)
}

fn test_fdt_with_memreserve(memreserve: &[(u64, u64)]) -> Vec<u8> {
    let mut structure = Vec::new();
    push_be32(&mut structure, FDT_BEGIN_NODE);
    push_padded_bytes(&mut structure, b"\0");
    push_be32(&mut structure, FDT_END_NODE);
    push_be32(&mut structure, FDT_END);

    finish_test_fdt(memreserve, &structure, &[])
}

fn finish_test_fdt(memreserve: &[(u64, u64)], structure: &[u8], strings: &[u8]) -> Vec<u8> {
    let off_mem_rsvmap = FDT_HEADER_SIZE;
    let mem_rsvmap_len = (memreserve.len() + 1) * 16;
    let off_dt_struct = off_mem_rsvmap + mem_rsvmap_len;
    let off_dt_strings = off_dt_struct + structure.len();
    let totalsize = off_dt_strings + strings.len();

    let mut fdt = Vec::new();
    push_be32(&mut fdt, FDT_MAGIC);
    push_be32(&mut fdt, totalsize as u32);
    push_be32(&mut fdt, off_dt_struct as u32);
    push_be32(&mut fdt, off_dt_strings as u32);
    push_be32(&mut fdt, off_mem_rsvmap as u32);
    push_be32(&mut fdt, 17);
    push_be32(&mut fdt, 16);
    push_be32(&mut fdt, 0);
    push_be32(&mut fdt, strings.len() as u32);
    push_be32(&mut fdt, structure.len() as u32);
    for (address, size) in memreserve {
        push_be64(&mut fdt, *address);
        push_be64(&mut fdt, *size);
    }
    push_be64(&mut fdt, 0);
    push_be64(&mut fdt, 0);
    fdt.extend_from_slice(structure);
    fdt.extend_from_slice(strings);
    fdt
}

fn add_string(strings: &mut Vec<u8>, value: &[u8]) -> u32 {
    let offset = strings.len() as u32;
    strings.extend_from_slice(value);
    strings.push(0);
    offset
}

fn push_u32_prop(out: &mut Vec<u8>, name_offset: u32, value: u32) {
    push_prop(out, name_offset, &value.to_be_bytes());
}

fn push_prop(out: &mut Vec<u8>, name_offset: u32, value: &[u8]) {
    push_be32(out, FDT_PROP);
    push_be32(out, value.len() as u32);
    push_be32(out, name_offset);
    push_padded_bytes(out, value);
}

fn push_be32(out: &mut Vec<u8>, value: u32) {
    out.extend_from_slice(&value.to_be_bytes());
}

fn push_be64(out: &mut Vec<u8>, value: u64) {
    out.extend_from_slice(&value.to_be_bytes());
}

fn push_padded_bytes(out: &mut Vec<u8>, value: &[u8]) {
    out.extend_from_slice(value);
    while !out.len().is_multiple_of(4) {
        out.push(0);
    }
}

#[test]
fn missing_markers_leave_cmdline_unchanged() {
    let mut cmdline = b"foo root=/dev/dm-0 androidboot.serialno=123\0xxxx".to_vec();
    let original = cmdline.clone();

    assert!(!filter_cmdline_in_place(&mut cmdline));
    assert_eq!(cmdline, original);
}

#[test]
fn half_marked_cmdline_is_unchanged() {
    let mut cmdline = b"androidboot.serialno=123 <S> foo root=/dev/dm-0\0xxxx".to_vec();
    let original = cmdline.clone();

    assert!(!filter_cmdline_in_place(&mut cmdline));
    assert_eq!(cmdline, original);
}

#[test]
fn filters_prefix_and_suffix_around_marked_cmdline() {
    let mut cmdline = b"root=/dev/dm-0 androidboot.serialno=123 <S> foo bar dm=\"keep me\" <E> skip_initramfs androidboot.mode=normal dm=\"drop me\"\0xxxx".to_vec();

    assert!(filter_cmdline_in_place(&mut cmdline));
    assert_eq!(cstr(&cmdline), b"androidboot.serialno=123 foo bar dm=\"keep me\" androidboot.mode=normal");
    assert!(cmdline[cstr(&cmdline).len() + 1..].iter().all(|byte| *byte == 0));
}

#[test]
fn filters_appended_cmdline() {
    let mut cmdline = b"<S> foo root=UUID=123 <E> root=/dev/dm-0 androidboot.bootdevice=1d84000.ufshc\0".to_vec();

    assert!(filter_cmdline_in_place(&mut cmdline));
    assert_eq!(cstr(&cmdline), b"foo root=UUID=123 androidboot.bootdevice=1d84000.ufshc");
}

#[test]
fn filters_prepended_cmdline() {
    let mut cmdline = b"root=/dev/dm-0 androidboot.serialno=123 <S> foo root=UUID=123 <E>\0".to_vec();

    assert!(filter_cmdline_in_place(&mut cmdline));
    assert_eq!(cstr(&cmdline), b"androidboot.serialno=123 foo root=UUID=123");
}

#[test]
fn markers_inside_quotes_are_ignored() {
    let mut cmdline = b"foo=\"<S>\" bar=\"<E>\" root=/dev/dm-0\0".to_vec();
    let original = cmdline.clone();

    assert!(!filter_cmdline_in_place(&mut cmdline));
    assert_eq!(cmdline, original);
}

#[test]
fn rewrites_chosen_bootargs_in_fdt() {
    let mut fdt = test_fdt(b"root=/dev/dm-0 <S> foo <E> androidboot.serialno=123\0");

    assert_eq!(rewrite_bootargs(&mut fdt), Ok(true));

    let (offset, len) = find_bootargs(&fdt).unwrap();
    assert_eq!(cstr(&fdt[offset..offset + len]), b"foo androidboot.serialno=123");
}

#[test]
fn finds_initrd_range_in_fdt() {
    let start = 0x0400_0000u64.to_be_bytes();
    let end = 0x0570_0000u64.to_be_bytes();
    let fdt = test_fdt_props(&[(&b"linux,initrd-start"[..], start.as_slice()), (&b"linux,initrd-end"[..], end.as_slice())]);

    assert_eq!(find_initrd_range(&fdt), Ok(Some((0x0400_0000, 0x0570_0000))));
}

#[test]
fn rewrites_initrd_range_in_fdt() {
    let start = 0x0400_0000u64.to_be_bytes();
    let end = 0x0570_0000u64.to_be_bytes();
    let mut fdt =
        test_fdt_props(&[(&b"linux,initrd-start"[..], start.as_slice()), (&b"linux,initrd-end"[..], end.as_slice())]);

    assert_eq!(rewrite_initrd_range(&mut fdt, 0x0450_0000, 0x05c0_0000), Ok(()));
    assert_eq!(find_initrd_range(&fdt), Ok(Some((0x0450_0000, 0x05c0_0000))));
}

#[test]
fn rewrites_32_bit_initrd_range_in_fdt() {
    let start = 0x0400_0000u32.to_be_bytes();
    let end = 0x0570_0000u32.to_be_bytes();
    let mut fdt =
        test_fdt_props(&[(&b"linux,initrd-start"[..], start.as_slice()), (&b"linux,initrd-end"[..], end.as_slice())]);

    assert_eq!(rewrite_initrd_range(&mut fdt, 0x0450_0000, 0x05c0_0000), Ok(()));
    assert_eq!(find_initrd_range(&fdt), Ok(Some((0x0450_0000, 0x05c0_0000))));
}

#[test]
fn missing_initrd_range_is_none() {
    let fdt = test_fdt(b"root=/dev/dm-0\0");

    assert_eq!(find_initrd_range(&fdt), Ok(None));
}

#[test]
fn kernel_destination_skips_reserved_memory_node() {
    let fdt = test_fdt_with_reserved(&[], &[(0x8620_0000, 0x02d0_0000)]);

    assert_eq!(kernel_destination_after_floor(0x8608_0000, 0x00a9_0000, Some(&fdt)), Some(0x8900_0000));
}

#[test]
fn kernel_destination_skips_memreserve_entry() {
    let fdt = test_fdt_with_memreserve(&[(0x8620_0000, 0x02d0_0000)]);

    assert_eq!(kernel_destination_after_floor(0x8608_0000, 0x00a9_0000, Some(&fdt)), Some(0x8900_0000));
}

#[test]
fn decompresses_lz4_literals() {
    let mut out = [0; 20];
    let input = [
        0xf0, 5, b'a', b'b', b'c', b'd', b'e', b'f', b'g', b'h', b'i', b'j', b'k', b'l', b'm', b'n', b'o', b'p', b'q',
        b'r', b's', b't',
    ];

    assert_eq!(decompress_lz4_block(&input, &mut out), Some(20));
    assert_eq!(&out, b"abcdefghijklmnopqrst");
}

#[test]
fn decompresses_lz4_overlapping_match() {
    let mut out = [0; 6];
    let input = [0x11, b'a', 1, 0];

    assert_eq!(decompress_lz4_block(&input, &mut out), Some(6));
    assert_eq!(&out, b"aaaaaa");
}

#[test]
fn lz4_refuses_output_that_does_not_fit() {
    let mut out = [0; 5];
    let input = [0x11, b'a', 1, 0];

    assert_eq!(decompress_lz4_block(&input, &mut out), None);
}

#[test]
fn lz4_refuses_a_match_before_the_start() {
    let mut out = [0; 16];
    let input = [0x11, b'a', 2, 0];

    assert_eq!(decompress_lz4_block(&input, &mut out), None);
}

#[test]
fn unmarked_bootargs_are_left_alone() {
    let mut fdt = test_fdt(b"root=/dev/dm-0\0");
    let original = fdt.clone();

    assert_eq!(rewrite_bootargs(&mut fdt), Ok(false));
    assert_eq!(fdt, original);
}

#[test]
fn initrd_rewrite_refuses_an_empty_range_and_a_missing_property() {
    let start = 0x0400_0000u64.to_be_bytes();
    let end = 0x0570_0000u64.to_be_bytes();
    let mut fdt =
        test_fdt_props(&[(&b"linux,initrd-start"[..], start.as_slice()), (&b"linux,initrd-end"[..], end.as_slice())]);
    let original = fdt.clone();

    assert_eq!(rewrite_initrd_range(&mut fdt, 0x0500_0000, 0x0500_0000), Err(FdtError::BadStructure));
    assert_eq!(fdt, original);

    let mut without = test_fdt(b"root=/dev/dm-0\0");
    assert_eq!(rewrite_initrd_range(&mut without, 1, 2), Err(FdtError::NotFound));
}

#[test]
fn a_32_bit_initrd_property_cannot_hold_a_64_bit_address() {
    let start = 0x0400_0000u32.to_be_bytes();
    let end = 0x0570_0000u32.to_be_bytes();
    let mut fdt =
        test_fdt_props(&[(&b"linux,initrd-start"[..], start.as_slice()), (&b"linux,initrd-end"[..], end.as_slice())]);

    assert_eq!(rewrite_initrd_range(&mut fdt, 0x1_0000_0000, 0x1_0000_1000), Err(FdtError::BadStructure));
}

#[test]
fn a_broken_header_is_refused() {
    let mut fdt = test_fdt(b"root=/dev/dm-0\0");
    fdt[0] = 0;

    assert_eq!(find_initrd_range(&fdt), Err(FdtError::BadHeader));
    assert_eq!(find_bootargs(&fdt), Err(FdtError::BadHeader));
}

#[test]
fn kernel_destination_without_a_device_tree_is_the_aligned_floor() {
    assert_eq!(kernel_destination_after_floor(0x8608_0000, 0x00a9_0000, None), Some(0x8620_0000));
    assert_eq!(kernel_destination_after_floor(0x8620_0000, 0x00a9_0000, None), Some(0x8620_0000));
}

#[test]
fn kernel_destination_clears_the_shim_the_tree_and_its_initrd() {
    let start = 0x8000_0000u64.to_be_bytes();
    let end = 0x8c10_0000u64.to_be_bytes();
    let fdt = test_fdt_props(&[(&b"linux,initrd-start"[..], start.as_slice()), (&b"linux,initrd-end"[..], end.as_slice())]);

    assert_eq!(kernel_destination(0x8010_0000, 0x0100_0000, 0x8000_0000, 0x8b00_0000, Some(&fdt)), Some(0x8c20_0000));
    assert_eq!(kernel_destination(0x8010_0000, 0x0100_0000, 0x8000_0000, 0, None), Some(0x8600_0000));
}

#[test]
fn package_source_follows_the_shim_image() {
    assert_eq!(package_source(0x8000_0000, 0x1234), Some(0x8000_2000));
    assert_eq!(package_source(0x8000_0000, 0x2000), Some(0x8000_2000));
    assert_eq!(package_source(usize::MAX - 0x100, 0x1000), None);
}

#[test]
fn raw_fdt_range_reads_magic_and_size() {
    let fdt = test_fdt(b"root=/dev/dm-0\0");

    assert_eq!(raw_fdt_range(0x4000, &fdt[..8]), Some((0x4000, 0x4000 + fdt.len())));
    assert_eq!(raw_fdt_range(0, &fdt[..8]), None);
    assert_eq!(raw_fdt_range(0x4000, &[0; 8]), None);
}

#[test]
fn counter_ticks_convert_to_milliseconds() {
    assert_eq!(counter_ticks_to_ms(19_200_000, 19_200_000), Some(1000));
    assert_eq!(counter_ticks_to_ms(1, 0), None);
    assert_eq!(counter_ticks_to_ms(96, 19_200), Some(5));
}

#[test]
fn decompressing_the_kernel_checks_its_header_and_zeroes_the_tail() {
    let mut kernel = vec![0u8; 64];
    kernel[16..24].copy_from_slice(&0x80u64.to_le_bytes());
    kernel[56..60].copy_from_slice(b"ARM\x64");
    let mut compressed = vec![0xf0, 64 - 15];
    compressed.extend_from_slice(&kernel);
    let package = KernelPackage {
        source_start: 0,
        source_end: compressed.len(),
        compressed_source: 0,
        compressed_size: compressed.len(),
        uncompressed_size: 64,
        image_size: 0x80,
        end: compressed.len() + PACKAGE_HEADER_LEN,
        initrd_range: None,
    };
    let mut destination = vec![0xaa; 0x80];

    assert!(decompress_kernel(&package, &compressed, &mut destination));
    assert_eq!(&destination[..64], kernel.as_slice());
    assert!(destination[64..].iter().all(|byte| *byte == 0));

    let wrong = KernelPackage { image_size: 0x81, ..package };
    let mut destination = vec![0xaa; 0x81];
    assert!(!decompress_kernel(&wrong, &compressed, &mut destination));
}

#[test]
fn serial_text_turns_line_feeds_into_crlf() {
    assert_eq!(write_str("ablx: enter\n"), b"ablx: enter\r\n".to_vec());
    assert_eq!(write_str("a\nb"), b"a\r\nb".to_vec());
    assert_eq!(write_str(""), Vec::<u8>::new());
}

#[test]
fn serial_hex_prints_every_nibble() {
    let digits = (usize::BITS / 4) as usize;
    let mut expected = b"ablx: fdt 0x".to_vec();
    expected.extend(std::iter::repeat(b'0').take(digits - 8));
    expected.extend_from_slice(b"deadbeef\r\n");

    assert_eq!(write_hex("ablx: fdt ", 0xdead_beef), expected);
}
