use rust_persist::index::{Entry, EntryData, Index, LocateResult};

fn empty(capacity: usize) -> Index {
    let zero = Entry { hash: 0, data: EntryData { position: 0, size: 0, key_size: 0, flags: 0 } };
    Index::new(vec![zero; capacity], 0)
}

fn data(position: u64) -> EntryData {
    EntryData { position, size: 4, key_size: 2, flags: 0 }
}

#[test]
fn new_index_is_empty_and_valid() {
    let index = empty(8);
    assert_eq!(index.len(), 0);
    assert_eq!(index.capacity(), 8);
    assert!(index.is_valid());
    assert_eq!(index.locate(3, |_| true), LocateResult::Hole(3));
    assert_eq!(index.index_get(3, |_| true), None);
}

#[test]
fn entries_with_one_ideal_slot_follow_each_other() {
    let mut index = empty(8);
    // 3, 11 and 19 all belong into slot 3.
    assert_eq!(index.index_set(3, |_| false, data(100)), None);
    assert_eq!(index.index_set(11, |_| false, data(200)), None);
    assert_eq!(index.index_set(19, |_| false, data(300)), None);
    assert_eq!(index.len(), 3);
    assert!(index.is_valid());
    assert_eq!(index.locate(3, |_| true), LocateResult::Found(3));
    assert_eq!(index.locate(11, |_| true), LocateResult::Found(4));
    assert_eq!(index.locate(19, |_| true), LocateResult::Found(5));
    assert_eq!(index.locate(27, |_| true), LocateResult::Hole(6));
    assert_eq!(index.index_get(11, |_| true), Some(data(200)));
    let slots = index.get_entries();
    assert_eq!(index.get_displacement(&slots[3], 3), 0);
    assert_eq!(index.get_displacement(&slots[4], 4), 1);
    assert_eq!(index.get_displacement(&slots[5], 5), 2);
}

#[test]
fn a_displaced_entry_yields_its_slot() {
    let mut index = empty(8);
    index.index_set(3, |_| false, data(100));
    index.index_set(4, |_| false, data(200));
    index.index_set(5, |_| false, data(300));
    // 11 belongs into slot 3 and finds 4 at home in slot 4.
    assert_eq!(index.locate(11, |_| true), LocateResult::Steal(4));
    assert_eq!(index.index_set(11, |_| false, data(400)), None);
    assert!(index.is_valid());
    assert_eq!(index.len(), 4);
    assert_eq!(index.locate(3, |_| true), LocateResult::Found(3));
    assert_eq!(index.locate(11, |_| true), LocateResult::Found(4));
    assert_eq!(index.locate(4, |_| true), LocateResult::Found(5));
    assert_eq!(index.locate(5, |_| true), LocateResult::Found(6));
}

#[test]
fn probing_goes_round_the_end() {
    let mut index = empty(8);
    index.index_set(7, |_| false, data(100));
    index.index_set(15, |_| false, data(200));
    index.index_set(23, |_| false, data(300));
    assert!(index.is_valid());
    assert_eq!(index.locate(7, |_| true), LocateResult::Found(7));
    assert_eq!(index.locate(15, |_| true), LocateResult::Found(0));
    assert_eq!(index.locate(23, |_| true), LocateResult::Found(1));
    assert_eq!(index.index_delete(7, |_| true), Some(data(100)));
    assert!(index.is_valid());
    assert_eq!(index.locate(15, |_| true), LocateResult::Found(7));
    assert_eq!(index.locate(23, |_| true), LocateResult::Found(0));
    assert!(!index.get_entries()[1].is_used());
}

#[test]
fn set_replaces_what_matches() {
    let mut index = empty(8);
    index.index_set(3, |_| false, data(100));
    assert_eq!(index.index_set(3, |d| d.position == 100, data(150)), Some(data(100)));
    assert_eq!(index.len(), 1);
    assert_eq!(index.index_get(3, |d| d.position == 150), Some(data(150)));
    // Same hash, other key: a second entry.
    assert_eq!(index.index_set(3, |d| d.position == 100, data(100)), None);
    assert_eq!(index.len(), 2);
    assert!(index.is_valid());
}

#[test]
fn delete_moves_the_displaced_back() {
    let mut index = empty(8);
    index.index_set(3, |_| false, data(100));
    index.index_set(11, |_| false, data(200));
    index.index_set(5, |_| false, data(300));
    index.index_set(19, |_| false, data(400));
    assert!(index.is_valid());
    assert_eq!(index.locate(5, |_| true), LocateResult::Found(6));
    assert_eq!(index.index_delete(3, |d| d.position == 100), Some(data(100)));
    assert!(index.is_valid());
    assert_eq!(index.len(), 3);
    assert_eq!(index.locate(11, |_| true), LocateResult::Found(3));
    assert_eq!(index.locate(19, |d| d.position == 400), LocateResult::Found(4));
    assert_eq!(index.locate(5, |_| true), LocateResult::Found(5));
    assert_eq!(index.index_delete(3, |_| true), None);
    assert_eq!(index.len(), 3);
}

#[test]
fn update_block_position_finds_the_block() {
    let mut index = empty(8);
    index.index_set(3, |_| false, data(100));
    index.index_set(11, |_| false, data(200));
    index.update_block_position(11, 200, 900);
    assert_eq!(index.index_get(11, |_| true), Some(data(900)));
    assert_eq!(index.index_get(3, |_| true), Some(data(100)));
    index.update_block_position(11, 200, 500);
    assert_eq!(index.index_get(11, |_| true), Some(data(900)));
    assert!(index.is_valid());
}

#[test]
fn grow_and_shrink_keep_the_entries() {
    let mut index = empty(8);
    let hashes: [u64; 4] = [3, 11, 14, 7];
    for (i, h) in hashes.iter().enumerate() {
        index.index_set(*h, |_| false, data(100 * (i as u64 + 1)));
    }
    assert!(index.is_valid());
    index.set_capacity(16);
    assert_eq!(index.capacity(), 16);
    index.grow_from_half();
    assert!(index.is_valid());
    assert_eq!(index.len(), 4);
    assert_eq!(index.locate(3, |_| true), LocateResult::Found(3));
    assert_eq!(index.locate(11, |_| true), LocateResult::Found(11));
    assert_eq!(index.locate(14, |_| true), LocateResult::Found(14));
    assert_eq!(index.locate(7, |_| true), LocateResult::Found(7));
    index.shrink_to_half();
    assert!(index.is_valid());
    assert_eq!(index.capacity(), 8);
    assert_eq!(index.len(), 4);
    for (i, h) in hashes.iter().enumerate() {
        assert_eq!(index.index_get(*h, |_| true).map(|d| d.position), Some(100 * (i as u64 + 1)));
    }
}

#[test]
fn reinsert_all_repairs_any_order() {
    let zero = Entry { hash: 0, data: EntryData { position: 0, size: 0, key_size: 0, flags: 0 } };
    let mut slots = vec![zero; 8];
    slots[0] = Entry { hash: 5, data: data(100) };
    slots[1] = Entry { hash: 7, data: data(200) };
    slots[6] = Entry { hash: 1, data: data(300) };
    let mut index = Index::new(slots, 3);
    assert!(!index.is_valid());
    index.reinsert_all();
    assert!(index.is_valid());
    assert_eq!(index.len(), 3);
    assert_eq!(index.locate(5, |_| true), LocateResult::Found(5));
    assert_eq!(index.locate(7, |_| true), LocateResult::Found(7));
    assert_eq!(index.locate(1, |_| true), LocateResult::Found(1));
}

#[test]
fn is_valid_sees_what_is_wrong() {
    let mut index = empty(8);
    index.index_set(3, |_| false, data(100));
    assert!(index.is_valid());
    // A wrong count.
    let wrong = Index::new(index.get_entries().clone(), 2);
    assert!(!wrong.is_valid());
    // The same entry twice.
    let mut twice = empty(8);
    twice.index_set(3, |_| false, data(100));
    twice.index_set(3, |_| false, data(100));
    assert_eq!(twice.len(), 2);
    assert!(!twice.is_valid());
    // A key longer than its entry.
    let mut long = empty(8);
    long.index_set(3, |_| false, EntryData { position: 1, size: 1, key_size: 2, flags: 0 });
    assert!(!long.is_valid());
    index.clear();
    assert_eq!(index.len(), 0);
    assert!(index.is_valid());
}

#[test]
fn slot_turns_its_bytes_round() {
    let mut e = Entry {
        hash: 0x0102030405060708,
        data: EntryData { position: 0x1112131415161718, size: 0x21222324, key_size: 0x3132, flags: 0x4142 },
    };
    e.fix_endianness();
    assert_eq!(e.hash, 0x0807060504030201);
    assert_eq!(e.data.position, 0x1817161514131211);
    assert_eq!(e.data.size, 0x24232221);
    assert_eq!(e.data.key_size, 0x3231);
    assert_eq!(e.data.flags, 0x4241);
    assert!(e.is_used());
    e.clear();
    assert!(!e.is_used());
}

#[test]
fn delete_from_a_full_index() {
    let mut index = empty(4);
    for (i, h) in [1u64, 5, 9, 13].iter().enumerate() {
        assert_eq!(index.index_set(*h, |_| false, data(10 * (i as u64 + 1))), None);
    }
    assert_eq!(index.len(), 4);
    assert!(index.is_valid());
    assert_eq!(index.locate(17, |_| true), LocateResult::Steal(1));
    index.update_block_position(17, 10, 99);
    assert_eq!(index.index_get(1, |_| true), Some(data(10)));
    assert_eq!(index.index_delete(9, |d| d.position == 30), Some(data(30)));
    assert_eq!(index.len(), 3);
    assert!(index.is_valid());
    assert_eq!(index.index_get(1, |_| true), Some(data(10)));
    assert_eq!(index.index_get(5, |_| true), Some(data(20)));
    assert_eq!(index.index_get(13, |_| true), Some(data(40)));
    assert_eq!(index.index_get(9, |_| true), None);
}
