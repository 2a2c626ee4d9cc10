use rust_persist::header::{total_size, ENTRY_SIZE, HEADER_SIZE, INITIAL_INDEX_CAPACITY};
use rust_persist::table::{hash_key, Entry, Error, Table};

#[test]
fn test_size() {
    assert_eq!(36, HEADER_SIZE);
    assert_eq!(24, ENTRY_SIZE);
    assert_eq!(24576, total_size(1024, 0) - HEADER_SIZE);
}

#[test]
fn test_hash() {
    assert_eq!(16183295663280961421, hash_key("test".as_bytes()));
}

#[test]
fn test_create_new() {
    let tbl = Table::create();
    assert!(tbl.is_valid());
}

#[test]
fn test_normal_use() {
    let mut tbl = Table::create();
    tbl.set("key1".as_bytes(), "value1".as_bytes()).unwrap();
    tbl.set("key2".as_bytes(), "value2".as_bytes()).unwrap();
    assert!(tbl.is_valid());
    assert_eq!(tbl.len(), 2);
    assert_eq!(tbl.get("key1".as_bytes()), Some("value1".as_bytes()));
    assert_eq!(tbl.get("key2".as_bytes()), Some("value2".as_bytes()));
    tbl.set("key1".as_bytes(), "value3".as_bytes()).unwrap();
    assert!(tbl.is_valid());
    assert_eq!(tbl.len(), 2);
    assert_eq!(tbl.get("key1".as_bytes()), Some("value3".as_bytes()));
    assert_eq!(tbl.get("key2".as_bytes()), Some("value2".as_bytes()));
    assert!(tbl.delete("key1".as_bytes()).unwrap().is_some());
    assert!(tbl.delete("key2".as_bytes()).unwrap().is_some());
    assert!(tbl.is_valid());
    assert_eq!(tbl.len(), 0);
    assert_eq!(tbl.get("key1".as_bytes()), None);
    assert_eq!(tbl.get("key2".as_bytes()), None);
}

#[test]
fn test_zero_size() {
    let mut tbl = Table::create();
    tbl.set(&[], &[]).unwrap();
    assert!(tbl.is_valid());
    assert_eq!(tbl.get(&[]), Some(&[] as &[u8]));
    tbl.set("no value".as_bytes(), &[]).unwrap();
    assert!(tbl.is_valid());
    assert_eq!(tbl.get("no value".as_bytes()), Some(&[] as &[u8]));
    tbl.set(&[], "no key".as_bytes()).unwrap();
    assert!(tbl.is_valid());
    assert_eq!(tbl.get(&[]), Some("no key".as_bytes()));
}

fn reverse(bytes: &mut [u8], from: usize, len: usize) {
    bytes[from..from + len].reverse();
}

#[test]
fn test_endianness() {
    let mut tbl = Table::create();
    tbl.set("key1".as_bytes(), "value1".as_bytes()).unwrap();
    let index =
        tbl.index().get_entries().iter().enumerate().find(|(_, entry)| entry.is_used()).unwrap().0;
    let hash = tbl.index().get_entries()[index].hash;
    let mut image = tbl.to_bytes();
    tbl.close();
    {
        image[16] = if image[16] > 0 { 0 } else { 2 };
        reverse(&mut image, 32, 4);
        let slot = 36 + 24 * index;
        reverse(&mut image, slot, 8);
        reverse(&mut image, slot + 8, 8);
        reverse(&mut image, slot + 16, 4);
        reverse(&mut image, slot + 20, 2);
        reverse(&mut image, slot + 22, 2);
    }
    let tbl = Table::open(&image).unwrap();
    assert_eq!(hash, tbl.index().get_entries()[index].hash);
    assert_eq!(tbl.get("key1".as_bytes()), Some("value1".as_bytes()));
}

#[test]
fn extend_data() {
    let mut tbl = Table::create();
    let key1 = [0; 1024];
    let key2 = [1; 1024];
    let data = [0; 1024 * 10];
    tbl.set(&key1, &data).unwrap();
    assert!(tbl.is_valid());
    tbl.set(&key2, &data).unwrap();
    assert!(tbl.is_valid());
    let image = tbl.to_bytes();
    tbl.close();
    let tbl = Table::open(&image).unwrap();
    assert!(tbl.is_valid());
}

#[test]
fn shrink_data() {
    let mut tbl = Table::create();
    let key = [0; 1024];
    let data = [0; 1024 * 10];
    tbl.set(&key, &data).unwrap();
    assert!(tbl.is_valid());
    assert!(tbl.delete(&key).unwrap().is_some());
    assert!(tbl.is_valid());
    let image = tbl.to_bytes();
    tbl.close();
    let tbl = Table::open(&image).unwrap();
    assert!(tbl.is_valid());
}

#[test]
fn extend_index() {
    let mut tbl = Table::create();
    let data = [0; 100];
    for i in 0u16..150 {
        tbl.set(&i.to_ne_bytes(), &data).unwrap();
        assert!(tbl.is_valid());
    }
    assert!(tbl.index().capacity() > INITIAL_INDEX_CAPACITY);
    let image = tbl.to_bytes();
    tbl.close();
    let tbl = Table::open(&image).unwrap();
    assert!(tbl.is_valid());
    for i in 0u16..150 {
        assert_eq!(tbl.get(&i.to_ne_bytes()), Some(&data[..]));
    }
}

#[test]
fn shrink_index() {
    let mut tbl = Table::create();
    let data = [0; 100];
    for i in 0u16..150 {
        tbl.set(&i.to_ne_bytes(), &data).unwrap();
    }
    assert!(tbl.is_valid());
    assert!(tbl.index().capacity() > INITIAL_INDEX_CAPACITY);
    for i in 0u16..150 {
        tbl.delete(&i.to_ne_bytes()).unwrap();
    }
    assert!(tbl.index().capacity() == INITIAL_INDEX_CAPACITY);
    let image = tbl.to_bytes();
    tbl.close();
    let tbl = Table::open(&image).unwrap();
    assert!(tbl.is_valid());
    assert!(tbl.is_empty());
}

#[test]
fn test_iter() {
    let mut tbl = Table::create();
    tbl.set("key1".as_bytes(), "value1".as_bytes()).unwrap();
    tbl.set("key2".as_bytes(), "value2".as_bytes()).unwrap();
    assert_eq!(tbl.iter().iter().count(), 2);
}

#[test]
fn large_entries_survive_a_delete_and_reopen() {
    let mut tbl = Table::create();
    let key_a = [0u8; 1024];
    let key_b = [1u8; 1024];
    let data = [0u8; 1024 * 10];
    tbl.set(&key_a, &data).unwrap();
    tbl.set(&key_b, &data).unwrap();
    assert_eq!(tbl.get(&key_a), Some(&data[..]));
    assert_eq!(tbl.get(&key_b), Some(&data[..]));
    assert!(tbl.delete(&key_a).unwrap().is_some());
    let image = tbl.to_bytes();
    let tbl = Table::open(&image).unwrap();
    assert_eq!(tbl.get(&key_b), Some(&data[..]));
    assert_eq!(tbl.get(&key_a), None);
}

#[test]
fn many_tiny_entries_grow_the_index() {
    let mut tbl = Table::create();
    for i in 0u16..2000 {
        tbl.set(&i.to_ne_bytes(), &[]).unwrap();
    }
    assert!(tbl.is_valid());
    assert_eq!(tbl.len(), 2000);
    for i in 0u16..2000 {
        assert_eq!(tbl.get(&i.to_ne_bytes()), Some(&[] as &[u8]));
    }
}

#[test]
fn set_returns_the_value_that_was_there() {
    let mut tbl = Table::create();
    assert_eq!(tbl.set(b"k", b"one").unwrap(), None);
    assert_eq!(tbl.set(b"k", b"two").unwrap(), Some(&b"one"[..]));
    assert_eq!(tbl.len(), 1);
    assert_eq!(tbl.delete(b"k").unwrap(), Some(&b"two"[..]));
    assert_eq!(tbl.delete(b"k").unwrap(), None);
    assert_eq!(tbl.get(b"k"), None);
}

#[test]
fn flags_are_kept_with_the_entry() {
    let mut tbl = Table::create();
    tbl.set_entry(Entry { key: b"k", value: b"v", flags: 0x1234 }).unwrap();
    let e = tbl.get_entry(b"k").unwrap();
    assert_eq!(e.flags, 0x1234);
    assert_eq!(e.key, b"k");
    assert_eq!(e.value, b"v");
    let image = tbl.to_bytes();
    let tbl = Table::open(&image).unwrap();
    assert_eq!(tbl.get_entry(b"k").unwrap().flags, 0x1234);
}

#[test]
fn both_byte_orders_read_the_same() {
    let mut tbl = Table::create();
    for i in 0u32..300 {
        tbl.set(&i.to_le_bytes(), &(i * 7).to_le_bytes()).unwrap();
    }
    let little = tbl.to_bytes_as(false);
    let big = tbl.to_bytes_as(true);
    assert_ne!(little, big);
    assert_eq!(little[16] & 2, 0);
    assert_eq!(big[16] & 2, 2);
    assert_eq!(&little[32..36], &(tbl.capacity() as u32).to_le_bytes());
    assert_eq!(&big[32..36], &(tbl.capacity() as u32).to_be_bytes());
    for native in [false, true] {
        for image in [&little, &big] {
            let t = Table::open_as(image, native).unwrap();
            assert!(t.is_valid());
            assert_eq!(t.len(), 300);
            for i in 0u32..300 {
                assert_eq!(t.get(&i.to_le_bytes()), Some(&(i * 7).to_le_bytes()[..]));
            }
            assert_eq!(t.index().get_entries(), tbl.index().get_entries());
        }
    }
}

#[test]
fn image_has_the_layout_of_the_file() {
    let mut tbl = Table::create();
    tbl.set(b"key", b"value").unwrap();
    let image = tbl.to_bytes_as(false);
    assert_eq!(&image[0..16], b"rust-persist-01\n");
    assert_eq!(image.len() as u64, tbl.size());
    assert_eq!(image.len(), 36 + 24 * 128 + 8);
    assert_eq!(&image[32..36], &[128, 0, 0, 0]);
    let hash = hash_key(b"key");
    let slot = 36 + 24 * (hash as usize & 127);
    assert_eq!(&image[slot..slot + 8], &hash.to_le_bytes());
    assert_eq!(&image[slot + 8..slot + 16], &(36u64 + 24 * 128).to_le_bytes());
    assert_eq!(&image[slot + 16..slot + 20], &8u32.to_le_bytes());
    assert_eq!(&image[slot + 20..slot + 22], &3u16.to_le_bytes());
    assert_eq!(&image[36 + 24 * 128..], b"keyvalue");
}

#[test]
fn open_refuses_what_is_no_table() {
    assert_eq!(Table::open(&[]).err(), Some(Error::WrongHeader));
    assert_eq!(Table::open(&[0u8; 35]).err(), Some(Error::WrongHeader));
    assert_eq!(Table::open(&[0u8; 4000]).err(), Some(Error::WrongHeader));
    let mut tbl = Table::create();
    tbl.set(b"key", b"value").unwrap();
    let good = tbl.to_bytes();
    assert!(Table::open(&good).is_ok());
    let mut bad = good.clone();
    bad[0] = b'R';
    assert_eq!(Table::open(&bad).err(), Some(Error::WrongHeader));
    let mut short = good.clone();
    short.truncate(36 + 24 * 128 - 1);
    assert_eq!(Table::open(&short).err(), Some(Error::WrongHeader));
    let mut cut = good.clone();
    cut.truncate(good.len() - 1);
    assert_eq!(Table::open(&cut).err(), Some(Error::WrongHeader));
    let mut other_key = good.clone();
    let last = other_key.len() - 6;
    other_key[last] = b'x';
    assert_eq!(Table::open(&other_key).err(), Some(Error::WrongHeader));
}

#[test]
fn dirty_image_is_recovered() {
    let mut tbl = Table::create();
    for i in 0u32..100 {
        tbl.set(&i.to_le_bytes(), &[i as u8; 5]).unwrap();
    }
    let mut image = tbl.to_bytes_as(false);
    // Put the slots in the opposite order, as no probe would leave them.
    let slots = image[36..36 + 24 * 128].to_vec();
    for i in 0..128 {
        let from = 24 * (127 - i);
        image[36 + 24 * i..36 + 24 * (i + 1)].copy_from_slice(&slots[from..from + 24]);
    }
    assert_eq!(Table::open(&image).err(), Some(Error::WrongHeader));
    image[16] |= 1;
    let t = Table::open(&image).unwrap();
    assert!(t.is_valid());
    assert_eq!(t.len(), 100);
    for i in 0u32..100 {
        assert_eq!(t.get(&i.to_le_bytes()), Some(&[i as u8; 5][..]));
    }
    assert_eq!(t.to_bytes()[16] & 1, 0);
}

#[test]
fn set_refuses_what_does_not_fit() {
    let mut tbl = Table::create();
    let long_key = vec![0u8; 0x10000];
    assert!(!tbl.fits(long_key.len(), 0));
    assert_eq!(tbl.set(&long_key, b"").err(), Some(Error::Io));
    assert_eq!(tbl.len(), 0);
    assert!(tbl.is_valid());
    let key = vec![0u8; 0xffff];
    assert!(tbl.fits(key.len(), 1));
    assert_eq!(tbl.set(&key, b"v").unwrap(), None);
    assert_eq!(tbl.get(&key), Some(&b"v"[..]));
    assert!(!tbl.fits(1, 0xffff_ffff));
}

#[test]
fn defragment_moves_the_bytes() {
    let mut tbl = Table::create();
    for i in 0u32..50 {
        tbl.set(&i.to_le_bytes(), &[i as u8; 40]).unwrap();
    }
    for i in 0u32..50 {
        if i % 2 == 0 {
            tbl.delete(&i.to_le_bytes()).unwrap();
        }
    }
    let before = tbl.size();
    tbl.defragment().unwrap();
    assert!(tbl.is_valid());
    assert!(tbl.size() < before);
    assert_eq!(tbl.size(), 36 + 24 * 128 + 25 * 44);
    for i in 0u32..50 {
        if i % 2 == 0 {
            assert_eq!(tbl.get(&i.to_le_bytes()), None);
        } else {
            assert_eq!(tbl.get(&i.to_le_bytes()), Some(&[i as u8; 40][..]));
        }
    }
    let st = tbl.stats();
    assert!(st.valid);
    assert_eq!(st.entries, 25);
    assert_eq!(st.data_free, 0);
    assert_eq!(st.data_size, 25 * 44);
    assert_eq!(st.hash_size, 128 * 24);
    assert_eq!(st.hash_free, (128 - 25) * 24);
}

#[test]
fn clear_makes_the_table_new() {
    let mut tbl = Table::create();
    for i in 0u32..500 {
        tbl.set(&i.to_le_bytes(), b"some value").unwrap();
    }
    tbl.clear().unwrap();
    assert!(tbl.is_valid());
    assert!(tbl.is_empty());
    assert_eq!(tbl.capacity(), 128);
    assert_eq!(tbl.size(), 36 + 24 * 128);
    tbl.set(b"again", b"value").unwrap();
    assert_eq!(tbl.get(b"again"), Some(&b"value"[..]));
    assert!(tbl.is_valid());
}

#[test]
fn iter_lists_every_entry_once() {
    let mut tbl = Table::create();
    for i in 0u32..200 {
        tbl.set(&i.to_le_bytes(), &(i + 1).to_le_bytes()).unwrap();
    }
    for i in 0u32..200 {
        if i % 3 == 0 {
            tbl.delete(&i.to_le_bytes()).unwrap();
        }
    }
    let mut seen: Vec<(Vec<u8>, Vec<u8>)> =
        tbl.iter().iter().map(|e| (e.key.to_vec(), e.value.to_vec())).collect();
    seen.sort();
    let mut expected: Vec<(Vec<u8>, Vec<u8>)> = (0u32..200)
        .filter(|i| i % 3 != 0)
        .map(|i| (i.to_le_bytes().to_vec(), (i + 1).to_le_bytes().to_vec()))
        .collect();
    expected.sort();
    assert_eq!(seen, expected);
    let count = std::cell::Cell::new(0usize);
    tbl.each(|_| count.set(count.get() + 1));
    assert_eq!(count.get(), tbl.len());
}

#[test]
fn filter_keeps_what_is_accepted() {
    let mut tbl = Table::create();
    for i in 0u32..400 {
        tbl.set(&i.to_le_bytes(), &[(i % 5) as u8]).unwrap();
    }
    assert!(tbl.capacity() > 128);
    tbl.filter(|e| e.value[0] == 1).unwrap();
    assert!(tbl.is_valid());
    assert_eq!(tbl.len(), 80);
    assert_eq!(tbl.capacity(), 256);
    for i in 0u32..400 {
        if i % 5 == 1 {
            assert_eq!(tbl.get(&i.to_le_bytes()), Some(&[1u8][..]));
        } else {
            assert!(!tbl.contains(&i.to_le_bytes()));
        }
    }
}

#[test]
fn values_are_changed_where_they_lie() {
    let mut tbl = Table::create();
    tbl.set(b"a", b"first").unwrap();
    tbl.set(b"b", b"second").unwrap();
    {
        let v = tbl.get_mut(b"a").unwrap();
        assert_eq!(v, b"first");
        v[0] = b'F';
    }
    assert!(tbl.get_mut(b"c").is_none());
    {
        let e = tbl.get_entry_mut(b"b").unwrap();
        assert_eq!(e.key, b"b");
        assert_eq!(e.flags, 0);
        e.value.copy_from_slice(b"SECOND");
    }
    assert!(tbl.is_valid());
    assert_eq!(tbl.get(b"a"), Some(&b"First"[..]));
    assert_eq!(tbl.get(b"b"), Some(&b"SECOND"[..]));
    assert_eq!(tbl.len(), 2);
}

#[test]
fn each_mut_changes_every_value() {
    let mut tbl = Table::create();
    for i in 0u32..300 {
        tbl.set(&i.to_le_bytes(), &[0u8, i as u8]).unwrap();
    }
    tbl.set(b"empty", b"").unwrap();
    let count = std::cell::Cell::new(0usize);
    tbl.each_mut(|e| {
        count.set(count.get() + 1);
        if !e.value.is_empty() {
            e.value[0] = e.key[0].wrapping_add(1);
        }
    });
    assert_eq!(count.get(), 301);
    assert!(tbl.is_valid());
    assert_eq!(tbl.len(), 301);
    for i in 0u32..300 {
        assert_eq!(tbl.get(&i.to_le_bytes()), Some(&[(i as u8).wrapping_add(1), i as u8][..]));
    }
    assert_eq!(tbl.get(b"empty"), Some(&b""[..]));
}

#[test]
fn each_shows_every_entry() {
    let mut tbl = Table::create();
    for i in 0u32..150 {
        let entry = Entry { key: &i.to_le_bytes(), value: &[i as u8, 9], flags: i as u16 };
        tbl.set_entry(entry).unwrap();
    }
    let seen = std::cell::RefCell::new(Vec::new());
    tbl.each(|e| seen.borrow_mut().push((e.key.to_vec(), e.value.to_vec(), e.flags)));
    let mut seen = seen.into_inner();
    seen.sort();
    let mut expected: Vec<(Vec<u8>, Vec<u8>, u16)> =
        (0u32..150).map(|i| (i.to_le_bytes().to_vec(), vec![i as u8, 9], i as u16)).collect();
    expected.sort();
    assert_eq!(seen, expected);
}

#[test]
fn each_mut_shows_key_value_and_flags() {
    let mut tbl = Table::create();
    tbl.set_entry(Entry { key: b"one", value: b"abc", flags: 5 }).unwrap();
    tbl.set_entry(Entry { key: b"two", value: b"de", flags: 6 }).unwrap();
    let seen = std::cell::RefCell::new(Vec::new());
    tbl.each_mut(|e| {
        seen.borrow_mut().push((e.key.to_vec(), e.value.to_vec(), e.flags));
        e.value.reverse();
    });
    let mut seen = seen.into_inner();
    seen.sort();
    assert_eq!(
        seen,
        vec![(b"one".to_vec(), b"abc".to_vec(), 5u16), (b"two".to_vec(), b"de".to_vec(), 6u16)]
    );
    assert_eq!(tbl.get(b"one"), Some(&b"cba"[..]));
    assert_eq!(tbl.get(b"two"), Some(&b"ed"[..]));
    assert_eq!(tbl.get_entry(b"one").unwrap().flags, 5);
    assert!(tbl.is_valid());
}

#[test]
fn sparse_data_is_compacted_before_a_write() {
    let mut tbl = Table::create();
    tbl.set(b"a", &[7u8; 10000]).unwrap();
    tbl.set(b"bb", b"22").unwrap();
    assert_eq!(tbl.size(), total_size(INITIAL_INDEX_CAPACITY, 10005));
    tbl.delete(b"a").unwrap();
    assert_eq!(tbl.size(), total_size(INITIAL_INDEX_CAPACITY, 10005));
    tbl.set(b"ccc", b"333").unwrap();
    assert_eq!(tbl.size(), total_size(INITIAL_INDEX_CAPACITY, 10));
    assert_eq!(tbl.get(b"bb"), Some(&b"22"[..]));
    assert_eq!(tbl.get(b"ccc"), Some(&b"333"[..]));
    assert!(tbl.is_valid());
}

#[test]
fn short_data_is_left_as_it_is() {
    let mut tbl = Table::create();
    tbl.set(b"a", &[7u8; 3000]).unwrap();
    tbl.set(b"bb", b"22").unwrap();
    tbl.delete(b"a").unwrap();
    tbl.set(b"ccc", b"333").unwrap();
    assert_eq!(tbl.size(), total_size(INITIAL_INDEX_CAPACITY, 3005));
    assert_eq!(tbl.stats().data_free, 3005 - 10);
    assert!(tbl.is_valid());
}

#[test]
fn image_is_written_in_the_byte_order_of_the_machine() {
    let mut tbl = Table::create();
    tbl.set(b"key", b"value").unwrap();
    let big = u16::from_ne_bytes([0, 1]) == 1;
    assert_eq!(tbl.to_bytes(), tbl.to_bytes_as(big));
    assert_ne!(tbl.to_bytes(), tbl.to_bytes_as(!big));
}

#[test]
fn set_and_delete_keep_the_flags_in_step() {
    let mut tbl = Table::create();
    tbl.set_entry(Entry { key: b"k", value: b"v", flags: 7 }).unwrap();
    tbl.set_entry(Entry { key: b"other", value: b"w", flags: 9 }).unwrap();
    assert_eq!(tbl.get_entry(b"k").unwrap().flags, 7);
    assert_eq!(tbl.set(b"k", b"v2").unwrap(), Some(&b"v"[..]));
    assert_eq!(tbl.get_entry(b"k").unwrap().flags, 0);
    assert_eq!(tbl.get_entry(b"other").unwrap().flags, 9);
    assert_eq!(tbl.delete(b"k").unwrap(), Some(&b"v2"[..]));
    assert!(tbl.get_entry(b"k").is_none());
    assert_eq!(tbl.get_entry(b"other").unwrap().flags, 9);
}

#[test]
fn index_doubles_and_halves_at_the_thresholds() {
    let mut tbl = Table::create();
    for i in 0u32..116 {
        tbl.set(&i.to_le_bytes(), b"").unwrap();
        assert_eq!(tbl.capacity(), 128);
    }
    tbl.set(&116u32.to_le_bytes(), b"").unwrap();
    assert_eq!(tbl.capacity(), 256);
    assert_eq!(tbl.len(), 117);
    for i in 0u32..28 {
        tbl.delete(&i.to_le_bytes()).unwrap();
        assert_eq!(tbl.capacity(), 256);
    }
    assert_eq!(tbl.len(), 89);
    tbl.delete(&28u32.to_le_bytes()).unwrap();
    assert_eq!(tbl.capacity(), 256);
    assert_eq!(tbl.len(), 88);
    tbl.delete(&29u32.to_le_bytes()).unwrap();
    assert_eq!(tbl.capacity(), 128);
    assert_eq!(tbl.len(), 87);
    assert!(tbl.is_valid());
}

#[test]
fn set_that_is_refused_changes_nothing() {
    let mut tbl = Table::create();
    tbl.set(b"k", b"v").unwrap();
    let before = tbl.to_bytes();
    let long_key = vec![0u8; 0x10000];
    assert_eq!(tbl.set(&long_key, b"").err(), Some(Error::Io));
    assert_eq!(tbl.to_bytes(), before);
}

#[test]
fn fits_counts_the_size_once_while_the_index_has_room() {
    let tbl = Table::create();
    let size = tbl.size() as usize;
    assert_eq!(size, 36 + 128 * 24);
    assert!(tbl.fits(1, 0xffff_ffff - size - 2));
    assert!(!tbl.fits(1, 0xffff_ffff - size - 1));
    assert!(tbl.fits(0xffff, 0));
    assert!(!tbl.fits(0x10000, 0));
}

#[test]
fn iter_goes_by_the_slots() {
    let mut tbl = Table::create();
    for i in 0u32..100 {
        tbl.set(&i.to_le_bytes(), &[i as u8]).unwrap();
    }
    let by_slot: Vec<u64> = tbl
        .index()
        .get_entries()
        .iter()
        .filter(|e| e.is_used())
        .map(|e| e.hash)
        .collect();
    let listed: Vec<u64> = tbl.iter().iter().map(|e| hash_key(e.key)).collect();
    assert_eq!(listed, by_slot);
}

#[test]
fn open_refuses_a_short_or_foreign_image_as_a_wrong_header() {
    assert_eq!(Table::open(&[]).err(), Some(Error::WrongHeader));
    let mut image = Table::create().to_bytes();
    assert_eq!(Table::open(&image[..35]).err(), Some(Error::WrongHeader));
    image[15] = b' ';
    assert_eq!(Table::open(&image).err(), Some(Error::WrongHeader));
    assert_eq!(Table::new_index(&image, false).err(), Some(Error::WrongHeader));
    assert!(Table::new_index(&image, true).is_ok());
}
