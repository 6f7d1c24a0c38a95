use pddb::dict_list::NameSet;
use pddb::dictionary::{small_storage_index_from_key, DictCacheEntry, PddbError};
use pddb::free_keys::FreeIndexHeap;
use pddb::keys::{DictFlags, Dictionary, KeyCacheEntry, KeyDescriptor, KeyFlags};
use pddb::layout::{
    descriptor_page_address, small_slot_address, PageAlignedVa, DK_PER_VPAGE, DK_STRIDE,
    JOURNAL_WIDTH, KEY_MAXCOUNT, LARGE_POOL_START, PAGE_BUF_LEN, SMALL_CAPACITY,
};
use pddb::storage::{PhysPage, Storage};
use pddb::v2p::V2PMap;

struct Basis {
    dict: DictCacheEntry,
    hw: Storage,
    v2p: V2PMap,
    ptr: PageAlignedVa,
}

fn basis(free_pages: u32) -> Basis {
    let mut hw = Storage::new();
    let mut n = free_pages;
    while n > 0 {
        hw.fast_space_free(PhysPage { page_number: n, clean: false, valid: false });
        n -= 1;
    }
    Basis {
        dict: DictCacheEntry::new(Dictionary::default(), 2, &vec![0xA5u8; 8]),
        hw,
        v2p: V2PMap::new(),
        ptr: PageAlignedVa::from_u64(LARGE_POOL_START).unwrap(),
    }
}

fn put_at(b: &mut Basis, name: &str, data: &[u8], offset: usize, hint: Option<usize>, truncate: bool) -> Result<(), PddbError> {
    match b.dict.key_update(&mut b.hw, &mut b.v2p, name, data, offset, hint, truncate, b.ptr) {
        Ok(p) => {
            b.ptr = p;
            Ok(())
        },
        Err(e) => Err(e),
    }
}

fn put(b: &mut Basis, name: &str, data: &[u8]) {
    put_at(b, name, data, 0, None, false).unwrap();
}

fn entry<'a>(b: &'a Basis, name: &str) -> &'a KeyCacheEntry {
    b.dict.keys.get(name).unwrap()
}

fn sync_descriptors(b: &mut Basis) {
    let names: Vec<String> = b.dict.keys.names.clone();
    for name in names.iter() {
        let e = b.dict.keys.get(name).unwrap();
        let idx = e.descriptor_index as usize;
        let vaddr = descriptor_page_address(b.dict.index, idx);
        let desc = KeyDescriptor {
            start: e.start,
            len: e.len,
            reserved: e.reserved,
            flags: e.flags,
            age: e.age,
            name: name.as_bytes().to_vec(),
        };
        let pp = b.v2p.entry_or_insert_with(vaddr, &mut b.hw).unwrap();
        let mut page = match b.hw.data_decrypt_page(&b.dict.aad, &pp) {
            Some(p) => p,
            None => vec![0u8; PAGE_BUF_LEN],
        };
        desc.store(&mut page, JOURNAL_WIDTH + (idx % DK_PER_VPAGE) * DK_STRIDE);
        b.hw.data_encrypt_and_patch_page(&b.dict.aad, &mut page, &pp);
    }
}

fn reopen(b: &Basis) -> DictCacheEntry {
    let header = Dictionary {
        flags: DictFlags { valid: true },
        age: b.dict.age,
        num_keys: b.dict.key_count,
        free_key_index: b.dict.last_disk_key_index + 1,
        name: Vec::new(),
    };
    DictCacheEntry::new(header, b.dict.index as usize, &b.dict.aad)
}

/// What the keys of each slot have reserved and what the slot has left add
/// up to the capacity of a slot.
fn slots_add_up(dict: &DictCacheEntry) {
    for (s, slot) in dict.small_pool.iter().enumerate() {
        let mut used: u64 = 0;
        for name in slot.contents.iter() {
            let e = dict.keys.get(name).unwrap();
            assert!(e.flags.valid);
            assert!(e.reserved >= e.len);
            assert!(e.reserved <= SMALL_CAPACITY as u64);
            assert_eq!(small_storage_index_from_key(e, dict.index), Some(s));
            used += e.reserved;
        }
        assert_eq!(used + slot.avail as u64, SMALL_CAPACITY as u64);
        assert_eq!(dict.small_pool_free[s].index, s);
        assert_eq!(dict.small_pool_free[s].avail, slot.avail);
    }
}

/// The live keys hold descriptor indices of their own, none of them free.
fn indices_are_apart(dict: &DictCacheEntry) {
    let mut seen: Vec<u32> = Vec::new();
    for name in dict.keys.names.iter() {
        let e = dict.keys.get(name).unwrap();
        if e.flags.valid {
            assert!(e.descriptor_index >= 1 && e.descriptor_index as usize <= KEY_MAXCOUNT);
            assert!(!seen.contains(&e.descriptor_index));
            assert!(!dict.free_keys.contains(e.descriptor_index));
            seen.push(e.descriptor_index);
        }
    }
}

fn runs_are_apart(heap: &FreeIndexHeap) {
    for pair in heap.ranges.windows(2) {
        assert!(pair[0].start as u64 + pair[0].run as u64 + 1 < pair[1].start as u64);
    }
}

#[test]
fn new_cache_takes_over_the_header() {
    let header = Dictionary {
        flags: DictFlags { valid: true },
        age: 12,
        num_keys: 3,
        free_key_index: 4,
        name: b"settings".to_vec(),
    };
    let mut dict = DictCacheEntry::new(header, 5, &vec![1u8, 2]);
    assert_eq!(dict.index, 5);
    assert_eq!(dict.key_count, 3);
    assert_eq!(dict.last_disk_key_index, 4);
    assert!(dict.clean);
    assert_eq!(dict.age, 12);
    assert!(dict.flags.valid);
    assert_eq!(dict.aad, vec![1u8, 2]);
    assert_eq!(dict.keys.len(), 0);
    assert!(dict.small_pool.is_empty());
    assert!(dict.small_pool_free.is_empty());
    assert!(!dict.free_keys.contains(3));
    assert!(dict.free_keys.contains(4));
    assert!(dict.free_keys.contains(131071));
    assert_eq!(dict.get_free_key_index(), Some(4));
    assert_eq!(dict.last_disk_key_index, 4);
    assert_eq!(dict.get_free_key_index(), Some(5));
    assert_eq!(dict.last_disk_key_index, 6);
    let d = Dictionary::default();
    assert!(d.flags.valid);
    assert_eq!((d.age, d.num_keys, d.free_key_index), (0, 0, 1));
}

#[test]
fn key_erase_is_not_implemented() {
    let mut b = basis(2);
    put(&mut b, "k", &[1, 2, 3]);
    let age = b.dict.age;
    assert_eq!(b.dict.key_erase("k"), Err(PddbError::NotImplemented));
    assert_eq!(b.dict.age, age);
    assert!(entry(&b, "k").flags.valid);
    b.dict.sync_large_pool();
}

#[test]
fn key_contains_sees_tombstones() {
    let mut b = basis(2);
    assert!(!b.dict.key_contains("k"));
    put(&mut b, "k", &[1]);
    assert!(b.dict.key_contains("k"));
    b.dict.key_remove(&mut b.hw, &mut b.v2p, "k", false);
    assert!(b.dict.key_contains("k"));
    assert!(!b.dict.ensure_key_entry(&b.hw, &b.v2p, "k"));
}

#[test]
fn small_storage_index_follows_the_address() {
    let mut e = KeyCacheEntry {
        start: small_slot_address(2, 3) + 100,
        len: 10,
        reserved: 20,
        flags: KeyFlags { valid: true, unresolved: false },
        age: 0,
        descriptor_index: 1,
        clean: true,
        data: None,
    };
    assert_eq!(small_storage_index_from_key(&e, 2), Some(3));
    assert_eq!(small_storage_index_from_key(&e, 1), None);
    assert_eq!(small_storage_index_from_key(&e, 3), None);
    e.start = small_slot_address(2, 0);
    assert_eq!(small_storage_index_from_key(&e, 2), Some(0));
    e.start = small_slot_address(3, 0) - 20;
    assert_eq!(small_storage_index_from_key(&e, 2), None);
    e.start = small_slot_address(3, 0) - 21;
    assert_eq!(small_storage_index_from_key(&e, 2), Some(4112));
    e.start = LARGE_POOL_START;
    assert_eq!(small_storage_index_from_key(&e, 2), None);
    e.start = u64::MAX;
    assert_eq!(small_storage_index_from_key(&e, 2), None);
}

#[test]
fn free_index_runs_merge_and_stay_apart() {
    let mut dict = DictCacheEntry::new(
        Dictionary { flags: DictFlags { valid: true }, age: 0, num_keys: 0, free_key_index: 11, name: Vec::new() },
        1,
        &Vec::new(),
    );
    for i in [3u32, 5, 9, 1, 7] {
        dict.put_free_key_index(i);
        runs_are_apart(&dict.free_keys);
    }
    assert_eq!(dict.free_keys.ranges.len(), 6);
    dict.put_free_key_index(4);
    assert_eq!(dict.free_keys.ranges.len(), 5);
    dict.put_free_key_index(10);
    assert_eq!(dict.free_keys.ranges.len(), 4);
    assert_eq!(dict.free_keys.ranges[3].start, 9);
    assert_eq!(dict.free_keys.ranges[3].run, 131071 - 9);
    dict.put_free_key_index(8);
    dict.put_free_key_index(6);
    dict.put_free_key_index(2);
    runs_are_apart(&dict.free_keys);
    assert_eq!(dict.free_keys.ranges.len(), 1);
    assert_eq!(dict.free_keys.ranges[0].start, 1);
    assert_eq!(dict.free_keys.ranges[0].run, 131070);
    assert_eq!(dict.get_free_key_index(), Some(1));
    assert_eq!(dict.free_keys.ranges[0].start, 2);
}

#[test]
fn a_free_index_is_seen_before_it_is_freed_again() {
    let mut heap = FreeIndexHeap::new();
    heap.push(7);
    heap.push(8);
    assert!(heap.contains(7));
    assert!(heap.contains(8));
    assert!(!heap.contains(6));
    assert!(!heap.contains(9));
    assert!(!heap.is_empty());
    heap.pop();
    assert!(!heap.contains(7));
}

#[test]
fn invariants_hold_along_a_run_of_puts_and_removes() {
    let mut b = basis(64);
    for i in 0..40u32 {
        put(&mut b, &format!("k{}", i), &vec![i as u8; (i as usize * 97) % 3000]);
        slots_add_up(&b.dict);
        indices_are_apart(&b.dict);
    }
    for i in (0..40u32).step_by(3) {
        b.dict.key_remove(&mut b.hw, &mut b.v2p, &format!("k{}", i), false);
        slots_add_up(&b.dict);
        indices_are_apart(&b.dict);
        runs_are_apart(&b.dict.free_keys);
    }
    put(&mut b, "large", &vec![1u8; 9000]);
    for i in 0..10u32 {
        put(&mut b, &format!("n{}", i), &vec![7u8; 1500]);
        slots_add_up(&b.dict);
        indices_are_apart(&b.dict);
    }
    assert!(!b.dict.clean);
    b.dict.sync_small_pool(&mut b.hw, &mut b.v2p).unwrap();
    slots_add_up(&b.dict);
    assert!(b.dict.small_pool.iter().all(|s| s.clean));
}

#[test]
fn best_fit_takes_the_slot_with_the_most_room() {
    let mut b = basis(4);
    put(&mut b, "a", &vec![1u8; 3000]);
    put(&mut b, "b", &vec![2u8; 3000]);
    put(&mut b, "c", &vec![3u8; 500]);
    assert_eq!(b.dict.small_pool.len(), 2);
    assert_eq!(b.dict.small_pool[0].contents, vec!["a".to_string()]);
    assert_eq!(b.dict.small_pool[1].contents, vec!["b".to_string(), "c".to_string()]);
    assert_eq!(b.dict.small_pool[1].avail, 580);
    put(&mut b, "d", &vec![4u8; 600]);
    assert_eq!(b.dict.small_pool[0].contents, vec!["a".to_string(), "d".to_string()]);
    put(&mut b, "e", &vec![5u8; 600]);
    assert_eq!(b.dict.small_pool.len(), 3);
    assert_eq!(entry(&b, "e").start, small_slot_address(2, 2));
}

#[test]
fn hint_reserves_more_than_the_data() {
    let mut b = basis(4);
    put_at(&mut b, "k", &[1, 2, 3], 2, Some(100), false).unwrap();
    let e = entry(&b, "k");
    assert_eq!(e.len, 5);
    assert_eq!(e.reserved, 100);
    assert_eq!(e.data.as_ref().unwrap().data, vec![0, 0, 1, 2, 3]);
    assert_eq!(b.dict.small_pool[0].avail, 3980);
    put_at(&mut b, "big", &[1], 0, Some(5000), false).unwrap();
    assert_eq!(entry(&b, "big").reserved, 8192);
    assert_eq!(entry(&b, "big").len, 1);
}

#[test]
fn put_over_put_keeps_the_descriptor_index() {
    let mut b = basis(4);
    put(&mut b, "other", &[0; 10]);
    put_at(&mut b, "k", &[1; 50], 0, Some(200), false).unwrap();
    let index = entry(&b, "k").descriptor_index;
    let start = entry(&b, "k").start;
    let age = b.dict.age;
    put(&mut b, "k", &[2; 120]);
    let e = entry(&b, "k");
    assert_eq!(e.descriptor_index, index);
    assert_eq!(e.start, start);
    assert_eq!(e.reserved, 200);
    assert_eq!(e.len, 120);
    assert_eq!(e.data.as_ref().unwrap().data, vec![2u8; 120]);
    assert!(!e.data.as_ref().unwrap().clean);
    assert_eq!(b.dict.age, age + 1);
    // A shorter write leaves the tail of the longer data: a small key is
    // never cut back.
    put_at(&mut b, "k", &[3; 20], 0, None, true).unwrap();
    let e = entry(&b, "k");
    assert_eq!(e.len, 120);
    assert_eq!(&e.data.as_ref().unwrap().data[..20], &[3u8; 20]);
    assert_eq!(&e.data.as_ref().unwrap().data[20..], &[2u8; 100]);
    // A write at an offset grows the data with zeros.
    put_at(&mut b, "k", &[4; 10], 150, None, false).unwrap();
    let e = entry(&b, "k");
    assert_eq!(e.len, 160);
    assert_eq!(&e.data.as_ref().unwrap().data[120..150], &[0u8; 30]);
    assert_eq!(&e.data.as_ref().unwrap().data[150..], &[4u8; 10]);
}

#[test]
fn a_write_without_room_removes_and_creates_the_key_anew() {
    let mut b = basis(8);
    put(&mut b, "first", &[0; 10]);
    put(&mut b, "k", &[1; 50]);
    put(&mut b, "last", &[0; 10]);
    assert_eq!(entry(&b, "k").descriptor_index, 2);
    let age = b.dict.age;
    put(&mut b, "k", &[2; 51]);
    let e = entry(&b, "k");
    assert!(e.flags.valid);
    assert_eq!(e.reserved, 51);
    assert_eq!(e.descriptor_index, 2);
    assert_eq!(e.data.as_ref().unwrap().data, vec![2u8; 51]);
    assert_eq!(b.dict.age, age + 2);
    assert_eq!(b.dict.small_pool[0].avail, 4080 - 71);
    assert_eq!(
        b.dict.small_pool[0].contents,
        vec!["first".to_string(), "last".to_string(), "k".to_string()]
    );
    // From the small pool to the large pool.
    put(&mut b, "k", &vec![3u8; 6000]);
    let e = entry(&b, "k");
    assert_eq!(e.start, LARGE_POOL_START);
    assert_eq!(e.reserved, 8192);
    assert_eq!(b.hw.fast_space_len(), 6);
    assert_eq!(b.dict.small_pool[0].avail, 4080 - 20);
    // A large key that grows gives its pages back and takes new ones.
    let first_page = b.v2p.get(LARGE_POOL_START).unwrap();
    let age = b.dict.age;
    put(&mut b, "k", &vec![4u8; 9000]);
    let e = entry(&b, "k");
    assert_eq!(e.start, LARGE_POOL_START + 8192);
    assert_eq!(e.reserved, 12288);
    assert_eq!(e.descriptor_index, 2);
    assert_eq!(e.age, 1);
    assert_eq!(b.dict.age, age + 3);
    assert!(b.v2p.get(LARGE_POOL_START).is_none());
    assert!(b.v2p.get(LARGE_POOL_START + 4096).is_none());
    assert_eq!(b.hw.fast_space_len(), 5);
    assert_eq!(b.ptr.as_u64(), LARGE_POOL_START + 8192 + 12288);
    assert_eq!(b.v2p.get(LARGE_POOL_START + 8192 + 4096).unwrap().page_number, first_page.page_number);
    indices_are_apart(&b.dict);
}

#[test]
fn removing_twice_is_removing_once() {
    let mut b = basis(4);
    put(&mut b, "s", &[1; 100]);
    put(&mut b, "l", &vec![2u8; 5000]);
    for name in ["s", "l", "nobody"] {
        b.dict.key_remove(&mut b.hw, &mut b.v2p, name, false);
        let age = b.dict.age;
        let tomb_age = b.dict.keys.get(name).map(|e| e.age);
        let avail = b.dict.small_pool[0].avail;
        let ranges = b.dict.free_keys.ranges.clone();
        let free_pages = b.hw.fast_space_len();
        b.dict.key_remove(&mut b.hw, &mut b.v2p, name, true);
        assert_eq!(b.dict.age, age);
        assert_eq!(b.dict.keys.get(name).map(|e| e.age), tomb_age);
        assert_eq!(b.dict.small_pool[0].avail, avail);
        assert_eq!(b.dict.free_keys.ranges.len(), ranges.len());
        assert_eq!(b.hw.fast_space_len(), free_pages);
    }
    assert!(!b.dict.key_contains("nobody"));
    assert_eq!(b.dict.small_pool[0].avail, 4080);
    assert_eq!(b.hw.fast_space_len(), 4);
    assert!(b.dict.free_keys.contains(1));
    assert!(b.dict.free_keys.contains(2));
    assert_eq!(entry(&b, "s").age, 1);
    assert!(!entry(&b, "s").clean);
}

#[test]
fn large_write_at_an_offset_lays_over_the_old_data() {
    let mut b = basis(8);
    put(&mut b, "f", &vec![1u8; 10000]);
    assert_eq!(entry(&b, "f").reserved, 12288);
    put_at(&mut b, "f", &vec![2u8; 5000], 3000, None, false).unwrap();
    let e = entry(&b, "f");
    assert_eq!(e.len, 10000);
    assert_eq!(e.age, 2);
    let read = |b: &Basis, page: u64| {
        b.hw.data_decrypt_page(&b.dict.aad, &b.v2p.get(LARGE_POOL_START + page * 4096).unwrap()).unwrap()
    };
    let head_page = read(&b, 0);
    let next_page = read(&b, 1);
    let last_page = read(&b, 2);
    assert!(head_page[JOURNAL_WIDTH..JOURNAL_WIDTH + 3000].iter().all(|&x| x == 1));
    assert!(head_page[JOURNAL_WIDTH + 3000..].iter().all(|&x| x == 2));
    assert!(next_page[JOURNAL_WIDTH..JOURNAL_WIDTH + 3904].iter().all(|&x| x == 2));
    assert!(next_page[JOURNAL_WIDTH + 3904..].iter().all(|&x| x == 1));
    assert!(last_page[JOURNAL_WIDTH..JOURNAL_WIDTH + 1808].iter().all(|&x| x == 1));
    assert_eq!((head_page[0], next_page[0], last_page[0]), (2, 2, 1));
    // Past the old end, within what the key has reserved: the key grows.
    put_at(&mut b, "f", &[9u8; 10], 12000, None, false).unwrap();
    assert_eq!(entry(&b, "f").len, 12010);
}

#[test]
fn page_that_does_not_open_is_a_decryption_failure() {
    let mut b = basis(8);
    // A new large key at an offset inside a page that was never written.
    assert_eq!(put_at(&mut b, "f", &vec![1u8; 5000], 100, None, false), Err(PddbError::DecryptionFailure));
    assert!(!b.dict.key_contains("f"));
    assert_eq!(b.hw.fast_space_len(), 8);
    assert_eq!(b.dict.age, 0);
    put(&mut b, "f", &vec![1u8; 5000]);
    // The second page loses its mapping.
    let pp = b.v2p.remove(LARGE_POOL_START + 4096).unwrap();
    let age = b.dict.age;
    assert_eq!(put_at(&mut b, "f", &[2u8; 10], 4090, None, false), Err(PddbError::DecryptionFailure));
    assert_eq!(b.dict.age, age);
    assert_eq!(put_at(&mut b, "f", &[2u8; 10], 10, None, false), Ok(()));
    b.v2p.insert(LARGE_POOL_START + 4096, pp);
    assert_eq!(put_at(&mut b, "f", &[2u8; 10], 4090, None, false), Ok(()));
    // The first page is overwritten without sealing.
    let first = b.v2p.get(LARGE_POOL_START).unwrap();
    b.hw.patch_data(&vec![0u8; 4140], first.page_number);
    assert_eq!(put_at(&mut b, "f", &[2u8; 10], 10, None, false), Err(PddbError::DecryptionFailure));
    assert_eq!(put_at(&mut b, "f", &[2u8; 10], 0, None, false), Ok(()));
}

#[test]
fn no_free_page_is_out_of_disk_space() {
    let mut b = basis(1);
    assert_eq!(put_at(&mut b, "f", &vec![1u8; 5000], 0, None, false), Err(PddbError::OutOfDiskSpace));
    assert!(!b.dict.key_contains("f"));
    assert_eq!(b.hw.fast_space_len(), 1);
    assert_eq!(b.dict.age, 0);
    assert!(b.dict.free_keys.contains(1));
    put(&mut b, "a", &vec![1u8; 3000]);
    put(&mut b, "b", &vec![1u8; 3000]);
    assert_eq!(b.dict.sync_small_pool(&mut b.hw, &mut b.v2p), Err(PddbError::OutOfDiskSpace));
    assert!(!b.dict.small_pool[0].clean);
    assert!(entry(&b, "a").flags.unresolved);
    assert_eq!(b.hw.fast_space_len(), 1);
    b.hw.fast_space_free(PhysPage { page_number: 50, clean: false, valid: false });
    assert_eq!(b.dict.sync_small_pool(&mut b.hw, &mut b.v2p), Ok(()));
    assert_eq!(b.hw.fast_space_len(), 0);
    assert!(b.v2p.get(small_slot_address(2, 0)).unwrap().valid);
    assert!(!entry(&b, "a").flags.unresolved);
    assert_eq!(entry(&b, "a").age, 1);
    assert!(!entry(&b, "a").clean);
    assert!(entry(&b, "a").data.as_ref().unwrap().clean);
}

#[test]
fn estimate_counts_unresolved_keys_of_dirty_slots() {
    let mut b = basis(8);
    assert_eq!(b.dict.alloc_estimate_small(), 1);
    put(&mut b, "a", &vec![1u8; 3000]);
    // One unresolved key in a slot with 3000 bytes used: 3000 / 4096 + 1.
    assert_eq!(b.dict.alloc_estimate_small(), 1);
    put(&mut b, "b", &vec![1u8; 1000]);
    // Two unresolved keys, each counted with the 4000 bytes of the slot.
    assert_eq!(b.dict.alloc_estimate_small(), 8000 / 4096 + 1);
    for i in 0..40u32 {
        put(&mut b, &format!("k{}", i), &[1u8; 2]);
    }
    // 42 keys in one slot with 4080 bytes used; 42 cached keys leave 22
    // descriptors in the last page, so 20 overflow into one more page.
    assert_eq!(b.dict.small_pool.len(), 1);
    assert_eq!(b.dict.small_pool[0].avail, 0);
    assert_eq!(b.dict.alloc_estimate_small(), 42 * 4080 / 4096 + 1 + 1);
    b.dict.sync_small_pool(&mut b.hw, &mut b.v2p).unwrap();
    assert_eq!(b.dict.alloc_estimate_small(), 1);
}

#[test]
fn key_without_bytes_after_a_full_slot_stays_in_the_slot() {
    let mut b = basis(8);
    put(&mut b, "a", &vec![1u8; 2040]);
    put(&mut b, "b", &vec![2u8; 2040]);
    put(&mut b, "empty", &[]);
    assert_eq!(b.dict.small_pool.len(), 1);
    assert_eq!(b.dict.small_pool[0].avail, 0);
    b.dict.sync_small_pool(&mut b.hw, &mut b.v2p).unwrap();
    assert_eq!(entry(&b, "b").start, small_slot_address(2, 0) + 2040);
    assert_eq!(entry(&b, "empty").start, small_slot_address(2, 0) + 4079);
    assert_eq!(small_storage_index_from_key(entry(&b, "empty"), 2), Some(0));
    slots_add_up(&b.dict);
    b.dict.key_remove(&mut b.hw, &mut b.v2p, "empty", false);
    assert_eq!(b.dict.small_pool[0].contents.len(), 2);
}

#[test]
fn lookup_finds_a_key_on_disk() {
    let mut b = basis(8);
    put(&mut b, "a", &[1; 10]);
    put(&mut b, "b", &[2; 20]);
    put(&mut b, "big", &vec![3u8; 5000]);
    b.dict.sync_small_pool(&mut b.hw, &mut b.v2p).unwrap();
    sync_descriptors(&mut b);
    let mut again = reopen(&b);
    assert!(!again.key_contains("b"));
    assert!(!again.ensure_key_entry(&b.hw, &b.v2p, "nobody"));
    assert_eq!(again.keys.len(), 0);
    assert!(again.ensure_key_entry(&b.hw, &b.v2p, "b"));
    assert_eq!(again.keys.len(), 1);
    let e = again.keys.get("b").unwrap();
    assert_eq!(e.descriptor_index, 2);
    assert!(e.clean);
    assert_eq!(e.data.as_ref().unwrap().data, vec![2u8; 20]);
    assert_eq!(again.small_pool[0].avail, 4080 - 20);
    assert_eq!(again.small_pool_free[0].avail, 4080 - 20);
    assert!(again.ensure_key_entry(&b.hw, &b.v2p, "big"));
    assert!(again.keys.get("big").unwrap().data.is_none());
    assert_eq!(again.keys.get("big").unwrap().reserved, 8192);
    // An update of a key that is only on disk loads it first.
    let mut third = Basis { dict: reopen(&b), hw: b.hw, v2p: b.v2p, ptr: b.ptr };
    put(&mut third, "a", &[9; 5]);
    let e = entry(&third, "a");
    assert_eq!(e.descriptor_index, 1);
    assert_eq!(e.len, 10);
    assert_eq!(&e.data.as_ref().unwrap().data[..5], &[9u8; 5]);
    assert_eq!(&e.data.as_ref().unwrap().data[5..], &[1u8; 5]);
}

#[test]
fn fill_reports_the_end_of_the_large_pool_and_skips_missing_pages() {
    let mut b = basis(16);
    put(&mut b, "a", &[1; 10]);
    put(&mut b, "big", &vec![3u8; 5000]);
    for i in 0..40u32 {
        put(&mut b, &format!("k{}", i), &[i as u8; 3]);
    }
    b.dict.sync_small_pool(&mut b.hw, &mut b.v2p).unwrap();
    sync_descriptors(&mut b);
    let mut again = reopen(&b);
    let top = again.fill(&b.hw, &b.v2p);
    assert_eq!(top, LARGE_POOL_START + 8192);
    assert_eq!(again.keys.len(), 42);
    assert_eq!(again.last_disk_key_index, 43);
    assert_eq!(again.keys.get("k39").unwrap().data.as_ref().unwrap().data, vec![39u8; 3]);
    slots_add_up(&again);
    indices_are_apart(&again);
    // Without the first descriptor page the scan skips 32 indices.
    b.v2p.remove(descriptor_page_address(2, 1));
    let mut partial = reopen(&b);
    let top = partial.fill(&b.hw, &b.v2p);
    assert_eq!(top, LARGE_POOL_START);
    assert_eq!(partial.keys.len(), 10);
    assert!(partial.keys.get("a").is_none());
    assert!(partial.keys.get("k28").is_none());
    assert!(partial.keys.get("k29").is_none());
    assert_eq!(partial.keys.get("k30").unwrap().descriptor_index, 33);
    // The scan ran to the end of the table, since it met fewer live
    // descriptors than the dictionary counts.
    assert!(partial.last_disk_key_index as usize >= KEY_MAXCOUNT);
    // Keys that are cached stay as they are.
    let mut kept = reopen(&b);
    b.v2p.insert(descriptor_page_address(2, 1), PhysPage { page_number: 999, clean: false, valid: true });
    let before = kept.keys.len();
    kept.fill(&b.hw, &b.v2p);
    assert_eq!(kept.keys.len(), before + 10);
}

#[test]
fn key_list_names_every_cached_key() {
    let mut b = basis(8);
    put(&mut b, "a", &[1; 10]);
    put(&mut b, "b", &[2; 20]);
    b.dict.key_remove(&mut b.hw, &mut b.v2p, "a", false);
    let mut names = NameSet::new();
    names.insert("elsewhere");
    b.dict.key_list(&b.hw, &b.v2p, &mut names);
    assert_eq!(names.len(), 3);
    assert!(names.contains("a"));
    assert!(names.contains("b"));
    assert!(names.contains("elsewhere"));
    assert!(!names.contains("c"));
    // A cache that holds fewer keys than the dictionary counts is filled.
    b.dict.sync_small_pool(&mut b.hw, &mut b.v2p).unwrap();
    sync_descriptors(&mut b);
    let mut again = reopen(&b);
    let mut names = NameSet::new();
    again.key_list(&b.hw, &b.v2p, &mut names);
    assert_eq!(names.len(), 1);
    assert!(names.contains("b"));
    assert_eq!(again.keys.len(), 1);
}

#[test]
fn round_trip_through_sync_and_reload() {
    let mut b = basis(32);
    let mut expected: Vec<(String, Vec<u8>)> = Vec::new();
    for i in 0..20u32 {
        let name = format!("key-{}", i);
        let data: Vec<u8> = (0..(i * 211 % 4000)).map(|x| (x ^ i) as u8).collect();
        put(&mut b, &name, &data);
        expected.push((name, data));
    }
    let large: Vec<u8> = (0..9000u32).map(|x| (x % 251) as u8).collect();
    put(&mut b, "large", &large);
    b.dict.key_remove(&mut b.hw, &mut b.v2p, "key-3", false);
    b.dict.key_remove(&mut b.hw, &mut b.v2p, "key-7", false);
    b.dict.sync_small_pool(&mut b.hw, &mut b.v2p).unwrap();
    sync_descriptors(&mut b);
    let mut again = reopen(&b);
    let top = again.fill(&b.hw, &b.v2p);
    assert_eq!(top, LARGE_POOL_START + 12288);
    for (name, data) in expected.iter() {
        if name == "key-3" || name == "key-7" {
            assert!(again.keys.get(name).is_none());
        } else {
            let e = again.keys.get(name).unwrap();
            assert!(e.flags.valid);
            assert_eq!(&e.data.as_ref().unwrap().data, data);
        }
    }
    let e = again.keys.get("large").unwrap();
    assert_eq!(e.len, 9000);
    let mut read: Vec<u8> = Vec::new();
    for page in 0..3u64 {
        let pp = b.v2p.get(e.start + page * 4096).unwrap();
        let p = b.hw.data_decrypt_page(&again.aad, &pp).unwrap();
        read.extend_from_slice(&p[JOURNAL_WIDTH..]);
    }
    assert_eq!(&read[..9000], &large[..]);
    slots_add_up(&again);
    indices_are_apart(&again);
}

#[test]
fn fill_marks_the_end_of_a_large_key_that_is_cached() {
    let mut b = basis(8);
    put(&mut b, "big", &vec![3u8; 5000]);
    sync_descriptors(&mut b);
    assert!(b.dict.key_contains("big"));
    let age = entry(&b, "big").age;
    let top = b.dict.fill(&b.hw, &b.v2p);
    assert_eq!(top, LARGE_POOL_START + 8192);
    assert_eq!(b.dict.keys.len(), 1);
    assert_eq!(entry(&b, "big").age, age);
    assert!(!entry(&b, "big").clean);
}

#[test]
fn free_indices_are_those_that_no_live_key_holds() {
    let mut b = basis(16);
    for i in 0..12u32 {
        put(&mut b, &format!("k{}", i), &[i as u8; 9]);
    }
    put(&mut b, "large", &vec![1u8; 5000]);
    for i in [2u32, 3, 7, 11] {
        b.dict.key_remove(&mut b.hw, &mut b.v2p, &format!("k{}", i), false);
    }
    put(&mut b, "again", &[5u8; 9]);
    let mut held: Vec<u32> = Vec::new();
    for name in b.dict.keys.names.iter() {
        let e = b.dict.keys.get(name).unwrap();
        if e.flags.valid {
            held.push(e.descriptor_index);
        }
    }
    held.sort();
    assert_eq!(held, vec![1, 2, 3, 5, 6, 7, 9, 10, 11, 13]);
    for i in 1..=40u32 {
        assert_eq!(b.dict.free_keys.contains(i), !held.contains(&i));
        assert_eq!(b.dict.index_in_use(i), held.contains(&i));
        if i > b.dict.last_disk_key_index {
            assert!(b.dict.free_keys.contains(i));
        }
    }
    assert!(b.dict.free_keys.contains(KEY_MAXCOUNT as u32));
    assert_eq!(b.dict.last_disk_key_index, 13);
}
