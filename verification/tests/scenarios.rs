use pddb::dictionary::{DictCacheEntry, PddbError};
use pddb::keys::{DictFlags, Dictionary, KeyDescriptor};
use pddb::layout::{
    descriptor_page_address, small_slot_address, PageAlignedVa, DK_PER_VPAGE, DK_STRIDE,
    JOURNAL_WIDTH, LARGE_POOL_START, PAGE_BUF_LEN, PAGE_SIZE, SMALL_CAPACITY,
};
use pddb::storage::{PageContent, PhysPage, Storage};
use pddb::v2p::V2PMap;

fn device(free_pages: u32) -> Storage {
    let mut hw = Storage::new();
    let mut n = free_pages;
    while n > 0 {
        hw.fast_space_free(PhysPage { page_number: n, clean: false, valid: false });
        n -= 1;
    }
    hw
}

fn fresh_dict() -> DictCacheEntry {
    DictCacheEntry::new(Dictionary::default(), 1, &vec![7u8, 7, 7])
}

fn large_start() -> PageAlignedVa {
    PageAlignedVa::from_u64(LARGE_POOL_START).unwrap()
}

fn put(
    dict: &mut DictCacheEntry,
    hw: &mut Storage,
    v2p: &mut V2PMap,
    name: &str,
    data: &[u8],
    ptr: PageAlignedVa,
) -> Result<PageAlignedVa, PddbError> {
    dict.key_update(hw, v2p, name, data, 0, None, false, ptr)
}

/// Writes the descriptor of every cached key to its descriptor page.
fn sync_descriptors(dict: &DictCacheEntry, hw: &mut Storage, v2p: &mut V2PMap) {
    for name in dict.keys.names.iter() {
        let e = dict.keys.get(name).unwrap();
        let idx = e.descriptor_index as usize;
        let vaddr = descriptor_page_address(dict.index, idx);
        let pp = v2p.entry_or_insert_with(vaddr, hw).unwrap();
        let mut page = match hw.data_decrypt_page(&dict.aad, &pp) {
            Some(p) => p,
            None => vec![0u8; PAGE_BUF_LEN],
        };
        let desc = KeyDescriptor {
            start: e.start,
            len: e.len,
            reserved: e.reserved,
            flags: e.flags,
            age: e.age,
            name: name.as_bytes().to_vec(),
        };
        desc.store(&mut page, JOURNAL_WIDTH + (idx % DK_PER_VPAGE) * DK_STRIDE);
        hw.data_encrypt_and_patch_page(&dict.aad, &mut page, &pp);
    }
}

fn reload(dict: &DictCacheEntry, hw: &Storage, v2p: &V2PMap) -> DictCacheEntry {
    let header = Dictionary {
        flags: DictFlags { valid: true },
        age: dict.age,
        num_keys: dict.key_count,
        free_key_index: dict.last_disk_key_index + 1,
        name: Vec::new(),
    };
    let mut again = DictCacheEntry::new(header, dict.index as usize, &dict.aad);
    again.fill(hw, v2p);
    again
}

fn body(dict: &DictCacheEntry, name: &str) -> Vec<u8> {
    dict.keys.get(name).unwrap().data.as_ref().unwrap().data.clone()
}

#[test]
fn three_small_keys_share_one_slot() {
    let mut hw = device(8);
    let mut v2p = V2PMap::new();
    let mut dict = fresh_dict();
    let ptr = large_start();
    let ptr = put(&mut dict, &mut hw, &mut v2p, "a", &[0x11; 100], ptr).unwrap();
    let ptr = put(&mut dict, &mut hw, &mut v2p, "b", &[0x22; 200], ptr).unwrap();
    let ptr = put(&mut dict, &mut hw, &mut v2p, "c", &[0x33; 300], ptr).unwrap();
    assert_eq!(ptr.as_u64(), LARGE_POOL_START);
    assert_eq!(dict.small_pool.len(), 1);
    assert_eq!(dict.small_pool[0].avail, 3480);
    assert_eq!(dict.small_pool[0].contents, vec!["a".to_string(), "b".to_string(), "c".to_string()]);
    assert_eq!(dict.key_count, 3);

    assert_eq!(dict.sync_small_pool(&mut hw, &mut v2p), Ok(()));
    sync_descriptors(&dict, &mut hw, &mut v2p);
    let base = small_slot_address(1, 0);
    assert_eq!(dict.keys.get("a").unwrap().start, base);
    assert_eq!(dict.keys.get("b").unwrap().start, base + 100);
    assert_eq!(dict.keys.get("c").unwrap().start, base + 300);

    let again = reload(&dict, &hw, &v2p);
    assert_eq!(body(&again, "a"), vec![0x11; 100]);
    assert_eq!(body(&again, "b"), vec![0x22; 200]);
    assert_eq!(body(&again, "c"), vec![0x33; 300]);
    assert_eq!(again.small_pool.len(), 1);
    assert_eq!(again.small_pool[0].avail, 3480);
}

#[test]
fn big_key_lands_in_the_large_pool() {
    let mut hw = device(8);
    let mut v2p = V2PMap::new();
    let mut dict = fresh_dict();
    let ptr = put(&mut dict, &mut hw, &mut v2p, "big", &[0xAA; 5000], large_start()).unwrap();
    assert_eq!(ptr.as_u64(), LARGE_POOL_START + 8192);
    let e = dict.keys.get("big").unwrap();
    assert_eq!(e.start, LARGE_POOL_START);
    assert_eq!(e.reserved, 8192);
    assert_eq!(e.len, 5000);
    assert!(e.data.is_none());
    assert_eq!(hw.fast_space_len(), 6);
    let first = v2p.get(LARGE_POOL_START).unwrap();
    let second = v2p.get(LARGE_POOL_START + 4096).unwrap();
    assert_eq!(first.page_number, 1);
    assert_eq!(second.page_number, 2);
    let head_page = hw.data_decrypt_page(&dict.aad, &first).unwrap();
    let next_page = hw.data_decrypt_page(&dict.aad, &second).unwrap();
    assert_eq!(head_page.len(), PAGE_BUF_LEN);
    assert!(head_page[JOURNAL_WIDTH..].iter().all(|&b| b == 0xAA));
    assert!(next_page[JOURNAL_WIDTH..JOURNAL_WIDTH + 904].iter().all(|&b| b == 0xAA));
    assert!(next_page[JOURNAL_WIDTH + 904..].iter().all(|&b| b == 0));
    assert_eq!(head_page[0], 1);
    assert_eq!(next_page[0], 1);
}

#[test]
fn deleted_key_gives_its_index_and_space_to_the_next() {
    let mut hw = device(8);
    let mut v2p = V2PMap::new();
    let mut dict = fresh_dict();
    let ptr = large_start();
    let ptr = put(&mut dict, &mut hw, &mut v2p, "x", &[1; 500], ptr).unwrap();
    let ptr = put(&mut dict, &mut hw, &mut v2p, "y", &[2; 700], ptr).unwrap();
    let x_index = dict.keys.get("x").unwrap().descriptor_index;
    assert_eq!(x_index, 1);
    assert_eq!(dict.small_pool[0].avail, 4080 - 1200);
    dict.key_remove(&mut hw, &mut v2p, "x", false);
    assert_eq!(dict.small_pool[0].avail, 4080 - 700);
    assert!(!dict.keys.get("x").unwrap().flags.valid);
    assert!(dict.key_contains("x"));
    put(&mut dict, &mut hw, &mut v2p, "z", &[3; 500], ptr).unwrap();
    assert_eq!(dict.keys.get("z").unwrap().descriptor_index, x_index);
    assert_eq!(dict.small_pool[0].avail, 4080 - 1200);
    assert_eq!(dict.small_pool[0].contents, vec!["y".to_string(), "z".to_string()]);
}

#[test]
fn truncate_cuts_a_large_key_back() {
    let mut hw = device(8);
    let mut v2p = V2PMap::new();
    let mut dict = fresh_dict();
    let ptr = put(&mut dict, &mut hw, &mut v2p, "stream", &[0; 16384], large_start()).unwrap();
    assert_eq!(dict.keys.get("stream").unwrap().reserved, 16384);
    assert_eq!(hw.fast_space_len(), 4);
    let ptr2 = dict.key_update(&mut hw, &mut v2p, "stream", &[1; 3000], 0, None, true, ptr).unwrap();
    assert_eq!(ptr2.as_u64(), ptr.as_u64());
    let e = dict.keys.get("stream").unwrap();
    assert_eq!(e.reserved, 4096);
    assert_eq!(e.len, 3000);
    assert_eq!(hw.fast_space_len(), 7);
    assert!(v2p.get(LARGE_POOL_START).is_some());
    assert!(v2p.get(LARGE_POOL_START + 4096).is_none());
    assert!(v2p.get(LARGE_POOL_START + 8192).is_none());
    assert!(v2p.get(LARGE_POOL_START + 12288).is_none());
    let head_page = hw.data_decrypt_page(&dict.aad, &v2p.get(LARGE_POOL_START).unwrap()).unwrap();
    assert!(head_page[JOURNAL_WIDTH..JOURNAL_WIDTH + 3000].iter().all(|&b| b == 1));
    assert!(head_page[JOURNAL_WIDTH + 3000..].iter().all(|&b| b == 0));
    assert_eq!(head_page[0], 2);
}

#[test]
fn paranoid_delete_overwrites_the_pages() {
    let mut hw = device(4);
    let mut v2p = V2PMap::new();
    let mut dict = fresh_dict();
    put(&mut dict, &mut hw, &mut v2p, "secret", &[0x5A; 8192], large_start()).unwrap();
    let first = v2p.get(LARGE_POOL_START).unwrap();
    let second = v2p.get(LARGE_POOL_START + 4096).unwrap();
    sync_descriptors(&dict, &mut hw, &mut v2p);
    dict.key_remove(&mut hw, &mut v2p, "secret", true);
    assert!(v2p.get(LARGE_POOL_START).is_none());
    assert!(v2p.get(LARGE_POOL_START + 4096).is_none());
    assert!(hw.data_decrypt_page(&dict.aad, &first).is_none());
    assert!(hw.data_decrypt_page(&dict.aad, &second).is_none());
    for pp in [first, second] {
        match hw.pages.get(&pp.page_number) {
            Some(PageContent::Raw(noise)) => {
                assert_eq!(noise.len(), PAGE_SIZE);
                assert!(noise.iter().any(|&b| b != 0x5A));
            },
            _ => panic!("page was not overwritten"),
        }
    }
    assert_eq!(hw.fast_space_len(), 3);
    assert!(!dict.keys.get("secret").unwrap().flags.valid);
    sync_descriptors(&dict, &mut hw, &mut v2p);
    let again = reload(&dict, &hw, &v2p);
    assert!(again.keys.get("secret").is_none());
}

#[test]
fn no_free_index_means_out_of_index_and_no_change() {
    let header = Dictionary {
        flags: DictFlags { valid: true },
        age: 0,
        num_keys: 0,
        free_key_index: 131070,
        name: Vec::new(),
    };
    let mut hw = device(4);
    let mut v2p = V2PMap::new();
    let mut dict = DictCacheEntry::new(header, 1, &vec![1u8]);
    let ptr = large_start();
    let ptr = put(&mut dict, &mut hw, &mut v2p, "one", &[1; 10], ptr).unwrap();
    let ptr = put(&mut dict, &mut hw, &mut v2p, "two", &[2; 10], ptr).unwrap();
    assert_eq!(dict.keys.get("one").unwrap().descriptor_index, 131070);
    assert_eq!(dict.keys.get("two").unwrap().descriptor_index, 131071);
    let age = dict.age;
    let avail = dict.small_pool[0].avail;
    let r = put(&mut dict, &mut hw, &mut v2p, "three", &[3; 10], ptr);
    assert_eq!(r.err(), Some(PddbError::OutOfIndex));
    assert!(!dict.key_contains("three"));
    assert_eq!(dict.age, age);
    assert_eq!(dict.key_count, 2);
    assert_eq!(dict.small_pool[0].avail, avail);
    assert_eq!(dict.small_pool[0].contents.len(), 2);
    let r = dict.key_update(&mut hw, &mut v2p, "huge", &[3; 5000], 0, None, false, ptr);
    assert_eq!(r.err(), Some(PddbError::OutOfIndex));
    assert_eq!(hw.fast_space_len(), 4);
}

#[test]
fn first_small_key_creates_slot_zero() {
    let mut hw = device(1);
    let mut v2p = V2PMap::new();
    let mut dict = fresh_dict();
    assert_eq!(dict.small_pool.len(), 0);
    assert_eq!(dict.small_pool_free.len(), 0);
    put(&mut dict, &mut hw, &mut v2p, "k", &[9; 10], large_start()).unwrap();
    assert_eq!(dict.small_pool.len(), 1);
    assert_eq!(dict.small_pool_free.len(), 1);
    assert_eq!(dict.small_pool_free[0].index, 0);
    assert_eq!(dict.small_pool_free[0].avail, 4070);
    assert!(!dict.small_pool[0].clean);
    assert!(!dict.clean);
    assert_eq!(dict.age, 1);
    let e = dict.keys.get("k").unwrap();
    assert!(e.flags.valid && e.flags.unresolved);
    assert_eq!(e.start, small_slot_address(1, 0));
    assert_eq!(e.descriptor_index, 1);
}

#[test]
fn capacity_bound_separates_small_from_large() {
    let mut hw = device(4);
    let mut v2p = V2PMap::new();
    let mut dict = fresh_dict();
    let ptr = large_start();
    let ptr = put(&mut dict, &mut hw, &mut v2p, "small", &vec![1u8; SMALL_CAPACITY - 1], ptr).unwrap();
    assert_eq!(ptr.as_u64(), LARGE_POOL_START);
    assert!(dict.keys.get("small").unwrap().data.is_some());
    assert_eq!(dict.small_pool[0].avail, 1);
    let ptr = put(&mut dict, &mut hw, &mut v2p, "large", &vec![2u8; SMALL_CAPACITY], ptr).unwrap();
    assert_eq!(ptr.as_u64(), LARGE_POOL_START + 4096);
    let e = dict.keys.get("large").unwrap();
    assert!(e.data.is_none());
    assert_eq!(e.start, LARGE_POOL_START);
    assert_eq!(e.reserved, 4096);
    let hinted = dict.key_update(&mut hw, &mut v2p, "hinted", &[3; 4], 0, Some(SMALL_CAPACITY), false, ptr).unwrap();
    assert_eq!(hinted.as_u64(), LARGE_POOL_START + 8192);
}

#[test]
fn descriptors_32_and_33_lie_on_the_second_page() {
    let mut hw = device(4);
    let mut v2p = V2PMap::new();
    let mut dict = fresh_dict();
    let mut ptr = large_start();
    for i in 0..33u32 {
        let name = format!("key{}", i);
        ptr = put(&mut dict, &mut hw, &mut v2p, &name, &[i as u8; 4], ptr).unwrap();
    }
    assert_eq!(dict.keys.get("key30").unwrap().descriptor_index, 31);
    assert_eq!(dict.keys.get("key31").unwrap().descriptor_index, 32);
    assert_eq!(dict.keys.get("key32").unwrap().descriptor_index, 33);
    let page0 = descriptor_page_address(1, 31);
    let page1 = descriptor_page_address(1, 32);
    assert_eq!(page0, 0x100_0000);
    assert_eq!(page1, 0x100_0000 + 4096);
    assert_eq!(descriptor_page_address(1, 33), page1);
    dict.sync_small_pool(&mut hw, &mut v2p).unwrap();
    sync_descriptors(&dict, &mut hw, &mut v2p);
    assert!(v2p.get(page0).is_some());
    assert!(v2p.get(page1).is_some());
    let again = reload(&dict, &hw, &v2p);
    assert_eq!(again.keys.len(), 33);
    assert_eq!(body(&again, "key32"), vec![32u8; 4]);
    assert_eq!(again.keys.get("key31").unwrap().descriptor_index, 32);
}
