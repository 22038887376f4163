use stablemod::config::{StrapBootEntry, StrapConfig};
use stablemod::devices::{HalDeviceTree, HalRngGenerator};
use stablemod::logger::{HalLogger, LogLevel};
use stablemod::paging::{
    linux_mmap_prot, mapping_pages, x86_page_table_flags, HalPageFlags, PROT_EXEC, PROT_READ,
    PROT_WRITE,
};

#[test]
fn x86_flags_of_each_permission() {
    const P: u64 = 1;
    const W: u64 = 2;
    const U: u64 = 4;
    const NX: u64 = 1 << 63;
    assert_eq!(x86_page_table_flags(HalPageFlags::KN), NX);
    assert_eq!(x86_page_table_flags(HalPageFlags::KR), P | NX);
    assert_eq!(x86_page_table_flags(HalPageFlags::KRE), P);
    assert_eq!(x86_page_table_flags(HalPageFlags::KRW), P | W | NX);
    assert_eq!(x86_page_table_flags(HalPageFlags::KRWE), P | W);
    assert_eq!(x86_page_table_flags(HalPageFlags::N), NX | U);
    assert_eq!(x86_page_table_flags(HalPageFlags::R), P | NX | U);
    assert_eq!(x86_page_table_flags(HalPageFlags::RE), P | U);
    assert_eq!(x86_page_table_flags(HalPageFlags::RW), P | W | NX | U);
    assert_eq!(x86_page_table_flags(HalPageFlags::RWE), P | W | U);
}

#[test]
fn mmap_prot_of_user_permissions() {
    assert_eq!(linux_mmap_prot(HalPageFlags::N), 0);
    assert_eq!(linux_mmap_prot(HalPageFlags::R), PROT_READ);
    assert_eq!(linux_mmap_prot(HalPageFlags::RE), PROT_READ | PROT_EXEC);
    assert_eq!(linux_mmap_prot(HalPageFlags::RW), PROT_READ | PROT_WRITE);
    assert_eq!(linux_mmap_prot(HalPageFlags::RWE), 7);
}

#[test]
fn mapping_pages_steps_by_page() {
    let pages = mapping_pages(0x20_0123, 0xffff_8000_0010_0456, 0x2001);
    assert_eq!(
        pages,
        vec![
            (0x20_0000, 0xffff_8000_0010_0000),
            (0x20_1000, 0xffff_8000_0010_1000),
            (0x20_2000, 0xffff_8000_0010_2000),
        ]
    );
    assert_eq!(mapping_pages(0x1000, 0x1000, 0), vec![]);
    assert_eq!(mapping_pages(0x1000, 0x5000, 0x1000), vec![(0x1000, 0x5000)]);
}

#[test]
fn logger_filters_and_formats() {
    assert!(HalLogger::enabled(LogLevel::Error));
    assert!(HalLogger::enabled(LogLevel::Warn));
    assert!(HalLogger::enabled(LogLevel::Info));
    assert!(!HalLogger::enabled(LogLevel::Debug));
    assert!(!HalLogger::enabled(LogLevel::Trace));
    assert_eq!(HalLogger::format_line(LogLevel::Info, "hello, world!"), "INFO - hello, world!\n");
    assert_eq!(HalLogger::format_line(LogLevel::Warn, "config not found!"), "WARN - config not found!\n");
}

#[test]
fn config_holds_entries() {
    let c = StrapConfig {
        version: "1".to_string(),
        boot_entry: Some(vec![StrapBootEntry { default: Some(true), kernel: "kernel.x86_64".to_string(), objman: "butler.x86_64".to_string() }]),
    };
    assert_eq!(c.boot_entry.as_ref().unwrap()[0].kernel, "kernel.x86_64");
}

#[test]
fn device_stubs() {
    HalDeviceTree::from_rsdp(0xe0000);
    let _g = HalRngGenerator::new();
}
