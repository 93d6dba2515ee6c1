use wasabi::x86::Entry;
use wasabi::x86::PageAttr;
use wasabi::x86::Table;
use wasabi::x86::TranslationResult;
use wasabi::x86::PAGE_SIZE;

type TestEntry = Entry<1, 12, [u8; PAGE_SIZE]>;
type TestTable = Table<1, 12, [u8; PAGE_SIZE]>;

#[test]
fn entry_flags_follow_the_low_bits() {
    let e: TestEntry = Entry::new(0x1003);
    assert_eq!(e.read_value(), 0x1003);
    assert!(e.is_present());
    assert!(e.is_writable());
    assert!(!e.is_user());
    let f: TestEntry = Entry::new(0x2004);
    assert!(!f.is_present());
    assert!(!f.is_writable());
    assert!(f.is_user());
}

#[test]
fn table_addr_masks_the_attribute_bits() {
    let e: TestEntry = Entry::new(0x1234_5003);
    assert_eq!(e.table_addr(), Some(0x1234_5000));
    let absent: TestEntry = Entry::new(0x1234_5000 | 2);
    assert_eq!(absent.table_addr(), None);
}

#[test]
fn next_level_checks_index_and_presence() {
    let entries: [TestEntry; 512] =
        std::array::from_fn(|i| if i == 5 { Entry::new(0x2003) } else { Entry::new(0) });
    let t: TestTable = Table::new(entries);
    assert_eq!(t.next_level(5), Some(0x2000));
    assert_eq!(t.next_level(6), None);
    assert_eq!(t.next_level(512), None);
    assert_eq!(t.next_level(usize::MAX), None);
    assert!(t.get(5).unwrap().is_present());
    assert!(!t.get(0).unwrap().is_present());
    assert!(t.get(512).is_none());
}

#[test]
fn page_attributes_have_their_documented_bits() {
    assert_eq!(PageAttr::NotPresent.bits(), 0);
    assert_eq!(PageAttr::ReadWriteKernel.bits(), 0x3);
    assert_eq!(PageAttr::ReadWriteIo.bits(), 0x1B);
}

#[test]
fn translation_results_compare_by_contents() {
    assert_eq!(
        TranslationResult::PageMapped4K { phys: 0x1000 },
        TranslationResult::PageMapped4K { phys: 0x1000 }
    );
    assert_ne!(
        TranslationResult::PageMapped4K { phys: 0x1000 },
        TranslationResult::PageMapped2M { phys: 0x1000 }
    );
}
