use abl_exorcist::mmu::{
    cache_experiment_allowed, cache_line_range, dcache_line_size, exception_level, l1_table, l2_table,
    range_identity_mapped, DRAM_L1_INDEX, PAGE_TABLE_ENTRIES,
    UART_WINDOW_L2_INDEX,
};

#[test]
fn level_one_table_points_at_level_two_and_maps_dram() {
    let table = l1_table(0x8010_0000);
    assert_eq!(table.len(), PAGE_TABLE_ENTRIES);
    assert_eq!(table[0], 0x8010_0003);
    assert_eq!(table[DRAM_L1_INDEX], 0x8000_0000 | 4 | 0x300 | 0x400 | 1);
    for (index, entry) in table.iter().enumerate() {
        if index != 0 && index != DRAM_L1_INDEX {
            assert_eq!(*entry, 0, "entry {index}");
        }
    }
}

#[test]
fn level_two_table_maps_only_the_uart_window() {
    let table = l2_table();
    assert_eq!(table.len(), PAGE_TABLE_ENTRIES);
    assert_eq!(table[UART_WINDOW_L2_INDEX], 0x0060_0000_00a0_0401);
    assert_eq!(table.iter().filter(|entry| **entry != 0).count(), 1);
}

#[test]
fn current_el_reports_bits_two_and_three() {
    assert_eq!(exception_level(0b0100), 1);
    assert_eq!(exception_level(0b1000), 2);
    assert_eq!(exception_level(0b1100), 3);
    assert_eq!(exception_level(0b0011), 0);
}

#[test]
fn dcache_line_comes_from_dminline() {
    // DminLine = 4: 4 << 4 = 64 bytes.
    assert_eq!(dcache_line_size(0x8444_c004), 64);
    assert_eq!(dcache_line_size(0), 4);
    assert_eq!(dcache_line_size(0x000f_0000), 0x2_0000);
}

#[test]
fn cache_lines_cover_the_range() {
    assert_eq!(cache_line_range(0x1003, 0x10, 64), Some((0x1000, 0x1040)));
    assert_eq!(cache_line_range(0x1000, 0x40, 64), Some((0x1000, 0x1040)));
    assert_eq!(cache_line_range(0x1000, 0, 64), None);
    assert_eq!(cache_line_range(usize::MAX - 3, 0x10, 64), None);
}

#[test]
fn the_cache_experiment_needs_el1_caches_off_and_mapped_ranges() {
    let el1 = 0b0100;
    let inside = [(0x8000_0000, 0x1000), (0xbfff_f000, 0x1000)];
    assert!(cache_experiment_allowed(el1, 0, &inside));
    assert!(!cache_experiment_allowed(0b1000, 0, &inside));
    assert!(!cache_experiment_allowed(el1, 1, &inside));
    assert!(!cache_experiment_allowed(el1, 4, &inside));
    assert!(!cache_experiment_allowed(el1, 0, &[(0x8000_0000, 0x1000), (0xbfff_f000, 0x1001)]));
    assert!(!cache_experiment_allowed(el1, 0, &[(0x7fff_f000, 0x1000)]));
    assert!(range_identity_mapped(0x8000_0000, 0x4000_0000));
    assert!(!range_identity_mapped(usize::MAX, 2));
}
