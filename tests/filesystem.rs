use omega::block_device::{BlockDevice, MyBlockDevice};
use omega::error::FsError;
use omega::file_ops::{create_file, delete_file, format_fs, list_files, read_file, write_file};
use omega::file_table::{blocks_needed, FileEntry, FileTable};
use omega::interrupts::InterruptIndex;
use omega::superblock::{Superblock, SUPERBLOCK_MAGIC};
use omega::BLOCK_SIZE;

fn device(blocks: usize) -> MyBlockDevice {
    MyBlockDevice::new(vec![0u8; BLOCK_SIZE * blocks])
}

fn formatted(total: u32) -> MyBlockDevice {
    let mut d = device(total as usize);
    format_fs(&mut d, total).unwrap();
    d
}

fn free_count(d: &mut MyBlockDevice) -> usize {
    d.get_file_table().available_blocks.len()
}

fn owned_count(d: &mut MyBlockDevice) -> usize {
    d.get_file_table().entries.iter().map(|e| e.blocks.len()).sum()
}

fn block(d: &MyBlockDevice, id: usize) -> Vec<u8> {
    let mut out = vec![0xFFu8; BLOCK_SIZE];
    d.read_block(id, BLOCK_SIZE, &mut out).unwrap();
    out
}

fn names(d: &mut MyBlockDevice) -> Vec<String> {
    list_files(d).into_iter().map(|n| String::from_utf8(n).unwrap()).collect()
}

#[test]
fn round_trip_small_payload() {
    let mut d = formatted(8);
    create_file(&mut d, "notes").unwrap();
    write_file(&mut d, "notes", b"hello, disk").unwrap();
    assert_eq!(read_file(&mut d, "notes").unwrap(), b"hello, disk".to_vec());
}

#[test]
fn round_trip_fills_every_free_block() {
    let mut d = formatted(6);
    create_file(&mut d, "big").unwrap();
    // 4 blocks are free after the create; with the file's own block that is 5.
    let data: Vec<u8> = (0..5 * BLOCK_SIZE).map(|i| (i % 251) as u8).collect();
    write_file(&mut d, "big", &data).unwrap();
    assert_eq!(read_file(&mut d, "big").unwrap(), data);
    assert_eq!(free_count(&mut d), 0);
}

#[test]
fn round_trip_of_payload_the_free_blocks_hold() {
    let mut d = formatted(6);
    create_file(&mut d, "f").unwrap();
    let free = free_count(&mut d);
    let data = vec![7u8; free * BLOCK_SIZE];
    write_file(&mut d, "f", &data).unwrap();
    assert_eq!(read_file(&mut d, "f").unwrap(), data);
}

#[test]
fn conservation_holds_across_operations() {
    let mut d = formatted(10);
    let usable = 9;
    assert_eq!(free_count(&mut d) + owned_count(&mut d), usable);
    create_file(&mut d, "a").unwrap();
    create_file(&mut d, "b").unwrap();
    assert_eq!(free_count(&mut d) + owned_count(&mut d), usable);
    write_file(&mut d, "a", &vec![1u8; 3 * BLOCK_SIZE + 1]).unwrap();
    assert_eq!(free_count(&mut d) + owned_count(&mut d), usable);
    write_file(&mut d, "a", b"short").unwrap();
    assert_eq!(free_count(&mut d) + owned_count(&mut d), usable);
    delete_file(&mut d, "b").unwrap();
    assert_eq!(free_count(&mut d) + owned_count(&mut d), usable);
    assert_eq!(write_file(&mut d, "a", &vec![0u8; 20 * BLOCK_SIZE]), Err(FsError::NoSpace));
    assert_eq!(free_count(&mut d) + owned_count(&mut d), usable);
}

#[test]
fn exhaustion_boundary() {
    let mut d = formatted(4);
    create_file(&mut d, "one").unwrap();
    create_file(&mut d, "two").unwrap();
    create_file(&mut d, "three").unwrap();
    assert_eq!(free_count(&mut d), 0);
    assert_eq!(create_file(&mut d, "four"), Err(FsError::NoSpace));
    assert_eq!(names(&mut d), vec!["one", "two", "three"]);
    assert_eq!(free_count(&mut d), 0);
    assert_eq!(owned_count(&mut d), 3);
}

#[test]
fn create_takes_the_most_recently_freed_block() {
    let mut d = formatted(4);
    assert_eq!(d.get_file_table().available_blocks, vec![1, 2, 3]);
    create_file(&mut d, "a").unwrap();
    assert_eq!(d.get_file_table().entries[0].blocks, vec![3]);
    create_file(&mut d, "b").unwrap();
    delete_file(&mut d, "a").unwrap();
    assert_eq!(d.get_file_table().available_blocks, vec![1, 3]);
    create_file(&mut d, "c").unwrap();
    assert_eq!(d.get_file_table().entries[1].blocks, vec![3]);
}

#[test]
fn delete_reclaims_blocks() {
    let mut d = formatted(8);
    create_file(&mut d, "a").unwrap();
    create_file(&mut d, "b").unwrap();
    write_file(&mut d, "a", &vec![9u8; 2 * BLOCK_SIZE + 10]).unwrap();
    let owned = d.get_file_table().entries[0].blocks.clone();
    assert_eq!(owned.len(), 3);
    delete_file(&mut d, "a").unwrap();
    let table = d.get_file_table();
    for b in &owned {
        assert!(table.available_blocks.contains(b));
        assert!(table.entries.iter().all(|e| !e.blocks.contains(b)));
    }
    for b in &owned {
        assert_eq!(block(&d, *b), vec![0u8; BLOCK_SIZE]);
    }
}

#[test]
fn delete_missing_is_not_found() {
    let mut d = formatted(8);
    create_file(&mut d, "a").unwrap();
    write_file(&mut d, "a", b"keep").unwrap();
    let free_before = d.get_file_table().available_blocks.clone();
    assert_eq!(delete_file(&mut d, "zzz"), Err(FsError::NotFound));
    assert_eq!(d.get_file_table().available_blocks, free_before);
    assert_eq!(names(&mut d), vec!["a"]);
    assert_eq!(read_file(&mut d, "a").unwrap(), b"keep".to_vec());
}

#[test]
fn multi_block_span() {
    let mut d = formatted(4);
    create_file(&mut d, "a").unwrap();
    assert_eq!(d.get_file_table().entries[0].blocks.len(), 1);
    write_file(&mut d, "a", &vec![0xABu8; 600]).unwrap();
    assert_eq!(d.get_file_table().entries[0].blocks.len(), 2);
    let back = read_file(&mut d, "a").unwrap();
    assert_eq!(back.len(), 600);
    assert!(back.iter().all(|b| *b == 0xAB));
    delete_file(&mut d, "a").unwrap();
    assert_eq!(free_count(&mut d), 3);
}

#[test]
fn oversized_write_changes_nothing() {
    let mut d = formatted(5);
    create_file(&mut d, "a").unwrap();
    create_file(&mut d, "b").unwrap();
    write_file(&mut d, "a", b"previous").unwrap();
    let blocks_before = d.get_file_table().entries[0].blocks.clone();
    let free_before = d.get_file_table().available_blocks.clone();
    // "a" owns 1 block and 2 are free: 3 blocks cannot hold 3 * 512 + 1 bytes.
    let too_big = vec![1u8; 3 * BLOCK_SIZE + 1];
    assert_eq!(write_file(&mut d, "a", &too_big), Err(FsError::NoSpace));
    assert_eq!(read_file(&mut d, "a").unwrap(), b"previous".to_vec());
    assert_eq!(d.get_file_table().entries[0].size, 8);
    assert_eq!(d.get_file_table().entries[0].blocks, blocks_before);
    assert_eq!(d.get_file_table().available_blocks, free_before);
}

#[test]
fn write_that_just_fits_succeeds() {
    let mut d = formatted(5);
    create_file(&mut d, "a").unwrap();
    create_file(&mut d, "b").unwrap();
    let fits = vec![1u8; 3 * BLOCK_SIZE];
    write_file(&mut d, "a", &fits).unwrap();
    assert_eq!(read_file(&mut d, "a").unwrap(), fits);
}

#[test]
fn listing_is_idempotent() {
    let mut d = formatted(8);
    create_file(&mut d, "x").unwrap();
    create_file(&mut d, "y").unwrap();
    create_file(&mut d, "z").unwrap();
    let first = list_files(&mut d);
    let second = list_files(&mut d);
    assert_eq!(first, second);
    assert_eq!(names(&mut d), vec!["x", "y", "z"]);
}

#[test]
fn listing_of_empty_table_is_empty() {
    let mut d = formatted(8);
    assert!(list_files(&mut d).is_empty());
}

#[test]
fn create_rejects_long_name() {
    let mut d = formatted(8);
    assert_eq!(create_file(&mut d, "abcdefghijklmnopq"), Err(FsError::NameTooLong));
    create_file(&mut d, "abcdefghijklmnop").unwrap();
    assert_eq!(names(&mut d), vec!["abcdefghijklmnop"]);
}

#[test]
fn create_rejects_name_in_use() {
    let mut d = formatted(8);
    create_file(&mut d, "dup").unwrap();
    let free_before = free_count(&mut d);
    assert_eq!(create_file(&mut d, "dup"), Err(FsError::NameInUse));
    assert_eq!(create_file(&mut d, "dup\0"), Err(FsError::NameInUse));
    assert_eq!(free_count(&mut d), free_before);
    assert_eq!(names(&mut d), vec!["dup"]);
}

#[test]
fn names_match_exactly_not_by_prefix() {
    let mut d = formatted(8);
    create_file(&mut d, "abc").unwrap();
    write_file(&mut d, "abc", b"data").unwrap();
    assert_eq!(read_file(&mut d, "ab"), Err(FsError::NotFound));
    assert_eq!(read_file(&mut d, "abcd"), Err(FsError::NotFound));
    assert_eq!(write_file(&mut d, "a", b"x"), Err(FsError::NotFound));
    create_file(&mut d, "ab").unwrap();
    assert_eq!(read_file(&mut d, "ab").unwrap(), Vec::<u8>::new());
    assert_eq!(read_file(&mut d, "abc").unwrap(), b"data".to_vec());
}

#[test]
fn empty_write_keeps_one_block() {
    let mut d = formatted(8);
    create_file(&mut d, "e").unwrap();
    write_file(&mut d, "e", &vec![5u8; 1000]).unwrap();
    assert_eq!(d.get_file_table().entries[0].blocks.len(), 2);
    write_file(&mut d, "e", b"").unwrap();
    assert_eq!(d.get_file_table().entries[0].blocks.len(), 1);
    assert_eq!(d.get_file_table().entries[0].size, 0);
    assert_eq!(read_file(&mut d, "e").unwrap(), Vec::<u8>::new());
}

#[test]
fn shrinking_write_zeroes_released_blocks() {
    let mut d = formatted(8);
    create_file(&mut d, "s").unwrap();
    write_file(&mut d, "s", &vec![0xEEu8; 3 * BLOCK_SIZE]).unwrap();
    let owned = d.get_file_table().entries[0].blocks.clone();
    write_file(&mut d, "s", &vec![0x11u8; 10]).unwrap();
    assert_eq!(d.get_file_table().entries[0].blocks, vec![owned[0]]);
    assert_eq!(block(&d, owned[1]), vec![0u8; BLOCK_SIZE]);
    assert_eq!(block(&d, owned[2]), vec![0u8; BLOCK_SIZE]);
    let table = d.get_file_table();
    assert!(table.available_blocks.ends_with(&[owned[1], owned[2]]));
    assert_eq!(read_file(&mut d, "s").unwrap(), vec![0x11u8; 10]);
}

#[test]
fn exact_block_write_uses_one_block() {
    let mut d = formatted(8);
    create_file(&mut d, "x").unwrap();
    write_file(&mut d, "x", &vec![3u8; BLOCK_SIZE]).unwrap();
    assert_eq!(d.get_file_table().entries[0].blocks.len(), 1);
    write_file(&mut d, "x", &vec![3u8; BLOCK_SIZE + 1]).unwrap();
    assert_eq!(d.get_file_table().entries[0].blocks.len(), 2);
}

#[test]
fn write_to_one_file_leaves_others_alone() {
    let mut d = formatted(10);
    create_file(&mut d, "a").unwrap();
    create_file(&mut d, "b").unwrap();
    write_file(&mut d, "b", &vec![2u8; 700]).unwrap();
    write_file(&mut d, "a", &vec![1u8; 1500]).unwrap();
    write_file(&mut d, "a", &vec![4u8; 100]).unwrap();
    assert_eq!(read_file(&mut d, "b").unwrap(), vec![2u8; 700]);
    assert_eq!(read_file(&mut d, "a").unwrap(), vec![4u8; 100]);
}

#[test]
fn format_rejects_bad_block_counts() {
    let mut d = device(4);
    create_file(&mut d, "kept").unwrap();
    assert_eq!(format_fs(&mut d, 0), Err(FsError::DeviceError));
    assert_eq!(format_fs(&mut d, 5), Err(FsError::DeviceError));
    assert_eq!(names(&mut d), vec!["kept"]);
    assert_eq!(d.get_file_table().available_blocks, vec![1, 2]);
    format_fs(&mut d, 4).unwrap();
    assert!(list_files(&mut d).is_empty());
    assert_eq!(d.get_file_table().available_blocks, vec![1, 2, 3]);
}

#[test]
fn format_writes_superblock_and_resets_table() {
    let mut d = device(8);
    format_fs(&mut d, 8).unwrap();
    create_file(&mut d, "gone").unwrap();
    format_fs(&mut d, 6).unwrap();
    assert!(list_files(&mut d).is_empty());
    assert_eq!(d.get_file_table().available_blocks, vec![1, 2, 3, 4, 5]);
    assert_eq!(d.get_file_table().blocks_amount, 5);
    let image = block(&d, 0);
    assert_eq!(&image[0..12], &[0x69, 0x69, 0, 0, 6, 0, 0, 0, 5, 0, 0, 0]);
    assert!(image[12..].iter().all(|b| *b == 0));
    let sb = Superblock::decode(&image).unwrap();
    assert_eq!(sb, Superblock::new(6));
}

#[test]
fn new_device_has_fresh_table() {
    let mut d = device(5);
    assert_eq!(d.block_count(), 5);
    assert_eq!(d.get_file_table().available_blocks, vec![1, 2, 3, 4]);
    assert!(d.get_file_table().entries.is_empty());
}

#[test]
fn block_access_is_bounds_checked() {
    let mut d = device(2);
    let mut buf = vec![9u8; 8];
    assert_eq!(d.read_block(2, 4, &mut buf), Err(FsError::DeviceError));
    assert_eq!(d.read_block(0, BLOCK_SIZE + 1, &mut buf), Err(FsError::DeviceError));
    assert_eq!(d.read_block(0, 9, &mut buf), Err(FsError::DeviceError));
    assert_eq!(buf, vec![9u8; 8]);
    assert_eq!(d.write_block(2, &[1, 2, 3]), Err(FsError::DeviceError));
    assert_eq!(d.write_block(1, &vec![0u8; BLOCK_SIZE + 1]), Err(FsError::DeviceError));
    d.write_block(1, &[1, 2, 3]).unwrap();
    d.read_block(1, 5, &mut buf).unwrap();
    assert_eq!(buf, vec![1, 2, 3, 0, 0, 9, 9, 9]);
    assert_eq!(block(&d, 0), vec![0u8; BLOCK_SIZE]);
}

#[test]
fn read_block_fills_the_start_of_the_buffer() {
    let mut d = device(2);
    d.write_block(1, &[7]).unwrap();
    let mut one = vec![0u8; 1];
    d.read_block(1, 1, &mut one).unwrap();
    assert_eq!(one, vec![7]);
    let mut empty: Vec<u8> = Vec::new();
    d.read_block(1, 0, &mut empty).unwrap();
    assert!(empty.is_empty());
}

#[test]
fn superblock_fields_and_codec() {
    let sb = Superblock::new(1024);
    assert_eq!(sb.magic, SUPERBLOCK_MAGIC);
    assert_eq!(sb.block_count, 1024);
    assert_eq!(sb.free_blocks, 1023);
    let image = sb.encode();
    assert_eq!(image.len(), BLOCK_SIZE);
    assert_eq!(&image[0..12], &[0x69, 0x69, 0, 0, 0, 4, 0, 0, 0xFF, 3, 0, 0]);
    assert_eq!(Superblock::decode(&image), Ok(sb));
    assert_eq!(Superblock::decode(&image[0..11]), Err(FsError::DeviceError));
}

#[test]
fn blocks_needed_rounds_up_and_never_none() {
    assert_eq!(blocks_needed(0), 1);
    assert_eq!(blocks_needed(1), 1);
    assert_eq!(blocks_needed(512), 1);
    assert_eq!(blocks_needed(513), 2);
    assert_eq!(blocks_needed(600), 2);
    assert_eq!(blocks_needed(1024), 2);
    assert_eq!(blocks_needed(1025), 3);
}

#[test]
fn file_entry_pads_and_trims_its_name() {
    let e = FileEntry::new("log", 7);
    assert_eq!(&e.name[0..3], b"log");
    assert!(e.name[3..].iter().all(|b| *b == 0));
    assert_eq!(e.blocks, vec![7]);
    assert_eq!(e.size, 0);
    assert_eq!(e.flags, 0);
    assert_eq!(e.name_len(), 3);
    assert_eq!(e.trimmed_name(), b"log".to_vec());
    assert!(e.name_is(b"log"));
    assert!(!e.name_is(b"lo"));
    assert!(!e.name_is(b"log\0"));
}

#[test]
fn table_new_frees_every_usable_block() {
    let t = FileTable::new(3);
    assert_eq!(t.available_blocks, vec![1, 2, 3]);
    assert!(t.entries.is_empty());
    assert_eq!(t.blocks_amount, 3);
}

#[test]
fn table_find_and_size() {
    let mut t = FileTable::new(8);
    assert!(t.find_file("a").is_none());
    assert_eq!(t.get_file_size("a"), 0);
    t.add_file("a").unwrap();
    assert_eq!(t.find_file("a").unwrap().blocks, vec![8]);
    let idx = t.position(b"a").unwrap();
    let surplus = t.resize_entry(idx, 700).unwrap();
    assert!(surplus.is_empty());
    assert_eq!(t.get_file_size("a"), 700);
    assert_eq!(t.find_file("a").unwrap().blocks, vec![8, 7]);
    assert_eq!(t.blocks_of(idx), vec![8, 7]);
}

#[test]
fn table_allocation_is_all_or_nothing() {
    let mut t = FileTable::new(4);
    assert_eq!(t.allocate_additional(5), Err(FsError::NoSpace));
    assert_eq!(t.available_blocks, vec![1, 2, 3, 4]);
    let got = t.allocate_additional(3).unwrap();
    assert_eq!(got, vec![4, 3, 2]);
    assert_eq!(t.available_blocks, vec![1]);
    t.release(got);
    assert_eq!(t.available_blocks, vec![1, 4, 3, 2]);
}

#[test]
fn table_remove_hands_back_blocks() {
    let mut t = FileTable::new(4);
    t.add_file("a").unwrap();
    t.add_file("b").unwrap();
    assert_eq!(t.delete_file_by_name("c"), Err(FsError::NotFound));
    let blocks = t.delete_file_by_name("a").unwrap();
    assert_eq!(blocks, vec![4]);
    assert_eq!(t.entries.len(), 1);
    assert_eq!(t.available_blocks, vec![1, 2]);
    t.release(blocks);
    assert_eq!(t.available_blocks, vec![1, 2, 4]);
    let names: Vec<Vec<u8>> = t.list_files();
    assert_eq!(names, vec![b"b".to_vec()]);
}

#[test]
fn table_without_usable_blocks_cannot_create() {
    let mut t = FileTable::new(0);
    assert!(t.available_blocks.is_empty());
    assert_eq!(t.add_file("a"), Err(FsError::NoSpace));
    let mut one = FileTable::new(1);
    one.add_file("a").unwrap();
    assert_eq!(one.add_file("b"), Err(FsError::NoSpace));
}

#[test]
fn interrupt_vectors() {
    assert_eq!(InterruptIndex::Timer.as_u8(), 32);
    assert_eq!(InterruptIndex::Keyboard.as_u8(), 33);
    assert_eq!(InterruptIndex::Keyboard.as_usize(), 33);
}
