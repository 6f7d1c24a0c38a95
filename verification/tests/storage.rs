use pddb::bytes::{read_cstr, read_le_u32, read_le_u64, write_le_u32, write_le_u64};
use pddb::journal::bump_journal;
use pddb::keys::{KeyDescriptor, KeyFlags};
use pddb::layout::{
    descriptor_page_address, small_slot_address, PageAlignedVa, JOURNAL_WIDTH, PAGE_BUF_LEN,
    PAGE_SIZE,
};
use pddb::storage::{PhysPage, Storage};
use pddb::v2p::{PlaintextCache, V2PMap};

fn page(n: u32) -> PhysPage {
    PhysPage { page_number: n, clean: false, valid: false }
}

#[test]
fn little_endian_round_trip() {
    let mut buf = vec![0u8; 16];
    write_le_u32(&mut buf, 1, 0x1234_5678);
    assert_eq!(&buf[1..5], &[0x78, 0x56, 0x34, 0x12]);
    assert_eq!(read_le_u32(&buf, 1), 0x1234_5678);
    write_le_u64(&mut buf, 8, 0x0102_0304_0506_0708);
    assert_eq!(&buf[8..16], &[8, 7, 6, 5, 4, 3, 2, 1]);
    assert_eq!(read_le_u64(&buf, 8), 0x0102_0304_0506_0708);
    assert_eq!(buf[0], 0);
    assert_eq!(buf[5], 0);
}

#[test]
fn name_ends_at_the_first_zero() {
    let buf = vec![9u8, b'a', b'b', 0, b'c', 0];
    assert_eq!(read_cstr(&buf, 1, 5), b"ab".to_vec());
    assert_eq!(read_cstr(&buf, 1, 2), b"ab".to_vec());
    assert_eq!(read_cstr(&buf, 3, 3), Vec::<u8>::new());
    assert_eq!(read_cstr(&buf, 4, 1), b"c".to_vec());
}

#[test]
fn journal_counter_carries_and_wraps() {
    let mut p = vec![0u8; PAGE_BUF_LEN];
    p[20] = 5;
    bump_journal(&mut p);
    assert_eq!(p[0], 1);
    p[0] = 255;
    p[1] = 255;
    bump_journal(&mut p);
    assert_eq!(&p[0..4], &[0, 0, 1, 0]);
    for b in p[0..JOURNAL_WIDTH].iter_mut() {
        *b = 255;
    }
    bump_journal(&mut p);
    assert!(p[0..JOURNAL_WIDTH].iter().all(|&b| b == 0));
    assert_eq!(p[20], 5);
    assert_eq!(p.len(), PAGE_BUF_LEN);
}

#[test]
fn flags_word_round_trip() {
    for bits in 0..4u32 {
        let f = KeyFlags::from_bits(bits);
        assert_eq!(f.valid, bits & 1 == 1);
        assert_eq!(f.unresolved, bits & 2 == 2);
        assert_eq!(f.to_bits(), bits);
    }
    assert_eq!(KeyFlags::from_bits(0xffff_fffd), KeyFlags { valid: true, unresolved: false });
}

#[test]
fn descriptor_store_then_parse() {
    let d = KeyDescriptor {
        start: 0x40_0100_0123,
        len: 77,
        reserved: 100,
        flags: KeyFlags { valid: true, unresolved: true },
        age: 9,
        name: "wifi.ssid".as_bytes().to_vec(),
    };
    let mut buf = vec![0xEEu8; PAGE_BUF_LEN];
    d.store(&mut buf, JOURNAL_WIDTH + 3 * 127);
    assert!(buf[..JOURNAL_WIDTH + 3 * 127].iter().all(|&b| b == 0xEE));
    assert!(buf[JOURNAL_WIDTH + 4 * 127..].iter().all(|&b| b == 0xEE));
    let back = KeyDescriptor::parse(&buf, JOURNAL_WIDTH + 3 * 127);
    assert_eq!(back.start, d.start);
    assert_eq!(back.len, 77);
    assert_eq!(back.reserved, 100);
    assert_eq!(back.flags, d.flags);
    assert_eq!(back.age, 9);
    assert_eq!(back.name, d.name);
}

#[test]
fn addresses_follow_the_geometry() {
    assert_eq!(descriptor_page_address(0, 1), 0);
    assert_eq!(descriptor_page_address(2, 31), 0x200_0000);
    assert_eq!(descriptor_page_address(2, 32), 0x200_0000 + 4096);
    assert_eq!(descriptor_page_address(2, 131071), 0x200_0000 + 4095 * 4096);
    assert_eq!(small_slot_address(0, 0), 0x40_0000_0000);
    assert_eq!(small_slot_address(3, 2), 0x40_0000_0000 + 3 * 0x100_0000 + 2 * 4080);
    assert_eq!(PageAlignedVa::from_u64(0).unwrap().as_u64(), 0);
    assert_eq!(PageAlignedVa::from_u64(1).unwrap().as_u64(), 4096);
    assert_eq!(PageAlignedVa::from_u64(4096).unwrap().as_u64(), 4096);
    assert_eq!(PageAlignedVa::from_u64(4097).unwrap().as_u64(), 8192);
    assert!(PageAlignedVa::from_u64(u64::MAX).is_none());
    assert!(PageAlignedVa::from_u64(u64::MAX - 4094).is_none());
    assert_eq!(PageAlignedVa::from_u64(u64::MAX - 4095).unwrap().as_u64(), u64::MAX - 4095);
}

#[test]
fn sealed_page_opens_only_under_its_associated_data() {
    let mut hw = Storage::new();
    let aad = vec![1u8, 2, 3];
    let mut buf = vec![0u8; PAGE_BUF_LEN];
    buf[JOURNAL_WIDTH] = 42;
    hw.data_encrypt_and_patch_page(&aad, &mut buf, &page(5));
    assert_eq!(buf[0], 1);
    let opened = hw.data_decrypt_page(&aad, &page(5)).unwrap();
    assert_eq!(opened, buf);
    assert_eq!(opened[JOURNAL_WIDTH], 42);
    assert!(hw.data_decrypt_page(&vec![1u8, 2, 4], &page(5)).is_none());
    assert!(hw.data_decrypt_page(&aad, &page(6)).is_none());
    hw.patch_data(&vec![3u8; PAGE_SIZE], 5);
    assert!(hw.data_decrypt_page(&aad, &page(5)).is_none());
}

#[test]
fn free_pool_hands_out_the_last_page_first() {
    let mut hw = Storage::new();
    assert_eq!(hw.try_fast_space_alloc(), None);
    hw.fast_space_free(PhysPage { page_number: 1, clean: true, valid: true });
    hw.fast_space_free(page(2));
    assert_eq!(hw.fast_space_len(), 2);
    assert_eq!(hw.try_fast_space_alloc(), Some(page(2)));
    assert_eq!(
        hw.try_fast_space_alloc(),
        Some(PhysPage { page_number: 1, clean: true, valid: false })
    );
    assert_eq!(hw.try_fast_space_alloc(), None);
}

#[test]
fn noise_fills_the_buffer() {
    let mut hw = Storage::new();
    let mut buf = vec![0u8; PAGE_SIZE];
    assert!(hw.trng_slice(&mut buf));
    assert_eq!(buf.len(), PAGE_SIZE);
    assert!(buf.iter().any(|&b| b != 0));
}

#[test]
fn page_map_operations() {
    let mut hw = Storage::new();
    let mut v2p = V2PMap::new();
    assert_eq!(v2p.get(10), None);
    v2p.insert(10, page(3));
    assert_eq!(v2p.get(10), Some(page(3)));
    assert_eq!(
        v2p.entry_or_insert_with(10, &mut hw),
        Some(PhysPage { page_number: 3, clean: false, valid: true })
    );
    assert_eq!(v2p.entry_or_insert_with(20, &mut hw), None);
    assert_eq!(v2p.get(20), None);
    hw.fast_space_free(page(8));
    assert_eq!(
        v2p.entry_or_insert_with(20, &mut hw),
        Some(PhysPage { page_number: 8, clean: false, valid: true })
    );
    assert_eq!(hw.fast_space_len(), 0);
    assert_eq!(v2p.remove(10), Some(PhysPage { page_number: 3, clean: false, valid: true }));
    assert_eq!(v2p.remove(10), None);
    assert_eq!(v2p.get(10), None);
}

#[test]
fn plaintext_cache_refills_only_on_another_page() {
    let mut hw = Storage::new();
    let mut v2p = V2PMap::new();
    let aad = vec![9u8];
    let mut one = vec![0u8; PAGE_BUF_LEN];
    one[JOURNAL_WIDTH] = 1;
    let mut two = vec![0u8; PAGE_BUF_LEN];
    two[JOURNAL_WIDTH] = 2;
    hw.data_encrypt_and_patch_page(&aad, &mut one, &page(1));
    hw.data_encrypt_and_patch_page(&aad, &mut two, &page(2));
    v2p.insert(0x1000, page(1));
    v2p.insert(0x2000, page(2));
    v2p.insert(0x3000, page(3));

    let mut cache = PlaintextCache::new();
    cache.fill(&hw, &v2p, &aad, 0x1000);
    assert_eq!(cache.tag(), Some(page(1)));
    assert_eq!(cache.data().unwrap()[JOURNAL_WIDTH], 1);

    // The same page again: the cache is kept, even though the device changed.
    let mut changed = vec![0u8; PAGE_BUF_LEN];
    changed[JOURNAL_WIDTH] = 7;
    hw.data_encrypt_and_patch_page(&aad, &mut changed, &page(1));
    cache.fill(&hw, &v2p, &aad, 0x1000);
    assert_eq!(cache.data().unwrap()[JOURNAL_WIDTH], 1);

    cache.fill(&hw, &v2p, &aad, 0x2000);
    assert_eq!(cache.tag(), Some(page(2)));
    assert_eq!(cache.data().unwrap()[JOURNAL_WIDTH], 2);

    // A mapped page that was never written: tagged, without data.
    cache.fill(&hw, &v2p, &aad, 0x3000);
    assert_eq!(cache.tag(), Some(page(3)));
    assert!(cache.data().is_none());

    // No mapping: the cache is cleared.
    cache.fill(&hw, &v2p, &aad, 0x4000);
    assert!(cache.tag().is_none());
    assert!(cache.data().is_none());
}

#[test]
fn dictionary_header_store_then_parse() {
    let d = pddb::keys::Dictionary {
        flags: pddb::keys::DictFlags { valid: true },
        age: 0x0102_0304,
        num_keys: 17,
        free_key_index: 18,
        name: b"wlan.networks".to_vec(),
    };
    let mut buf = vec![0x11u8; PAGE_BUF_LEN];
    d.store(&mut buf, JOURNAL_WIDTH);
    assert!(buf[..JOURNAL_WIDTH].iter().all(|&b| b == 0x11));
    assert!(buf[JOURNAL_WIDTH + 127..].iter().all(|&b| b == 0x11));
    assert_eq!(&buf[JOURNAL_WIDTH..JOURNAL_WIDTH + 8], &[1, 0, 0, 0, 4, 3, 2, 1]);
    assert_eq!(buf[JOURNAL_WIDTH + 16 + 13], 0);
    assert_eq!(buf[JOURNAL_WIDTH + 126], 0);
    let back = pddb::keys::Dictionary::parse(&buf, JOURNAL_WIDTH);
    assert!(back.flags.valid);
    assert_eq!(back.age, 0x0102_0304);
    assert_eq!(back.num_keys, 17);
    assert_eq!(back.free_key_index, 18);
    assert_eq!(back.name, b"wlan.networks".to_vec());
}
