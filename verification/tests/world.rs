use terraria_world::header::{FilePointers, Header};
use terraria_world::tfilereader::TFileReader;
use terraria_world::world::{FilePointerArray, Tile, World};
use std::collections::HashMap;

const FRAME_BYTES: usize = 64;
const NAME_AT: usize = 72 + FRAME_BYTES;
const TILES_AT: usize = NAME_AT + 8;

fn push_i32(v: &mut Vec<u8>, x: i32) {
    v.extend_from_slice(&x.to_le_bytes());
}

/// A small world file: header, a name section, five tile records, a chest section and a
/// footer that repeats the name before a 4-byte id.
fn sample_world(name: &str) -> Vec<u8> {
    let mut v = Vec::new();
    push_i32(&mut v, 279); // release
    v.extend_from_slice(b"relogic");
    v.push(2); // file type
    push_i32(&mut v, 5); // revision
    v.extend_from_slice(&7u64.to_le_bytes()); // favorite
    v.extend_from_slice(&11i16.to_le_bytes());
    let tiles: Vec<u8> = vec![
        0x02, 23, // one-byte kind 23 (replaced by 2)
        0x22, 0x92, 0x01, // two-byte kind 402 (replaced by 397)
        0x42, 3, 1, 0, 2, 0, 9, // kind 3, frame important, run length byte
        0x05, 0x01, 0x10, 4, 5, // no kind, wall with paint
        0x08, 6, // liquid
    ];
    let name_len = 1 + name.len() + 3;
    let tiles_at = NAME_AT + name_len;
    let chests_at = tiles_at + tiles.len();
    let pointers = [
        NAME_AT as i32,
        tiles_at as i32,
        chests_at as i32,
        chests_at as i32 + 4,
        chests_at as i32 + 4,
        chests_at as i32 + 4,
        chests_at as i32 + 4,
        0,
        0,
        0,
        0,
    ];
    for p in pointers {
        push_i32(&mut v, p);
    }
    v.extend_from_slice(&(8 * FRAME_BYTES as i16).to_le_bytes());
    v.push(0b0000_1000); // kind 3 is frame important
    v.extend_from_slice(&[0; FRAME_BYTES - 1]);
    assert_eq!(v.len(), NAME_AT);
    v.push(name.len() as u8);
    v.extend_from_slice(name.as_bytes());
    v.extend_from_slice(&[0xA1, 0xA2, 0xA3]);
    v.extend_from_slice(&tiles);
    v.extend_from_slice(&[0xC1, 0xC2, 0xC3, 0xC4]);
    v.push(name.len() as u8);
    v.extend_from_slice(name.as_bytes());
    v.extend_from_slice(&[0xD1, 0xD2, 0xD3, 0xD4]);
    v
}

#[test]
fn header_reads_every_field() {
    let bytes = sample_world("Test");
    assert!(Header::readable_at(&bytes, 0));
    let mut r = TFileReader::new(bytes);
    let h = Header::new(&mut r);
    assert_eq!(h.release, 279);
    assert_eq!(&h.magic_number, b"relogic");
    assert_eq!(h.file_type, 2);
    assert_eq!(h.revision, 5);
    assert_eq!(h.is_favorite, 7);
    assert_eq!(h.num_of_pointers, 11);
    assert_eq!(h.array_start_address, 26);
    assert_eq!(h.array_of_pointers.header, NAME_AT as i32);
    assert_eq!(h.array_of_pointers.tiles, TILES_AT as i32);
    assert_eq!(h.array_of_pointers.chests, TILES_AT as i32 + 19);
    assert!(h.tile_frame_important.is_empty());
    assert_eq!(r.get_position(), 70);
}

#[test]
fn header_with_a_wrong_magic_number_is_not_readable() {
    let mut bytes = sample_world("Test");
    bytes[5] = b'X';
    assert!(!Header::readable_at(&bytes, 0));
    assert!(!Header::readable_at(&bytes[..60].to_vec(), 0));
}

#[test]
fn header_of_exactly_70_bytes_is_read() {
    let mut bytes = vec![0xE8, 0x03, 0, 0];
    bytes.extend_from_slice(b"relogic");
    bytes.push(2);
    bytes.extend_from_slice(&[7, 0, 0, 0]);
    bytes.extend_from_slice(&[0; 8]);
    bytes.extend_from_slice(&[11, 0]);
    for p in [70i32, 120, 900, 950, 960, 970, 980, 0, 0, 0, 0] {
        bytes.extend_from_slice(&p.to_le_bytes());
    }
    assert_eq!(bytes.len(), 70);
    assert!(Header::readable_at(&bytes, 0));
    let mut r = TFileReader::new(bytes.clone());
    let h = Header::new(&mut r);
    assert_eq!(h.release, 1000);
    assert_eq!(h.revision, 7);
    assert_eq!(h.is_favorite, 0);
    assert_eq!(h.array_of_pointers.tiles, 120);
    assert_eq!(h.array_of_pointers.footer, 980);
    assert_eq!(r.get_position(), 70);
    let w = World::new(bytes);
    assert_eq!(w.tfile_reader.get_file_len(), 70);
    assert!(w.header.tile_frame_important.is_empty());
}

#[test]
fn world_new_reads_the_frame_table_without_moving() {
    let mut w = World::new(sample_world("Test"));
    assert_eq!(w.tfile_reader.get_position(), 70);
    assert_eq!(w.header.tile_frame_important.len(), FRAME_BYTES);
    assert_eq!(w.header.tile_frame_important[0], 0b0000_1000);
}

#[test]
fn a_frame_table_past_the_end_is_empty() {
    let mut bytes = sample_world("Test");
    bytes.truncate(NAME_AT - 1);
    assert!(Header::readable_at(&bytes, 0));
    assert!(Header::read_frame_table(&bytes, 70).is_empty());
    assert_eq!(Header::read_frame_table(&sample_world("Test"), 70).len(), FRAME_BYTES);
    assert!(Header::read_frame_table(&vec![1], 0).is_empty());
}

#[test]
fn world_name_reads_the_name_and_keeps_the_position() {
    let mut w = World::new(sample_world("Test"));
    assert!(w.name_is_readable());
    let before = w.tfile_reader.get_position();
    assert_eq!(w.world_name(), "Test");
    assert_eq!(w.tfile_reader.get_position(), before);
}

#[test]
fn tile_new_reads_the_leading_part() {
    let mut w = World::new(sample_world("Test"));
    w.tfile_reader.move_to_position(TILES_AT + 2);
    let t = Tile::new(&mut w);
    assert_eq!(t.flag_1, 0x22);
    assert_eq!(t.flag_2, None);
    assert_eq!(t.flag_3, None);
    assert_eq!(t.tile_type, Some(402));
    assert_eq!(w.tfile_reader.get_position(), TILES_AT + 5);
    w.tfile_reader.move_to_position(TILES_AT + 12);
    let t = Tile::new(&mut w);
    assert_eq!(t.flag_2, Some(0x01));
    assert_eq!(t.flag_3, Some(0x10));
    assert_eq!(t.tile_type, None);
}

#[test]
fn read_tile_replaces_a_mapped_kind() {
    let mut w = World::new(sample_world("Test"));
    let mut map = HashMap::new();
    map.insert(23u16, 2u16);
    map.insert(402u16, 397u16);
    w.tfile_reader.move_to_position(TILES_AT);
    assert_eq!(w.read_tile(&map), 1);
    assert_eq!(w.tfile_reader.get_file()[TILES_AT + 1], 2);
    assert_eq!(w.read_tile(&map), 1);
    assert_eq!(w.tfile_reader.get_file()[TILES_AT + 3..TILES_AT + 5], [0x8D, 0x01]);
    assert_eq!(w.read_tile(&map), 0);
    assert_eq!(w.tfile_reader.get_position(), TILES_AT + 12);
    assert_eq!(w.read_tile(&map), 0);
    assert_eq!(w.read_tile(&map), 0);
    assert_eq!(w.tfile_reader.get_position(), TILES_AT + 19);
}

#[test]
fn read_tile_keeps_unmapped_kinds() {
    let mut w = World::new(sample_world("Test"));
    let map: HashMap<u16, u16> = HashMap::new();
    w.tfile_reader.move_to_position(TILES_AT);
    let before = w.tfile_reader.get_file().clone();
    assert_eq!(w.read_tile(&map), 0);
    assert_eq!(w.tfile_reader.get_file(), &before);
}

#[test]
fn iterate_tiles_purifies_the_tile_section() {
    let bytes = sample_world("Test");
    let len = bytes.len();
    let mut w = World::new(bytes.clone());
    assert!(w.tile_section_is_readable());
    assert_eq!(w.iterate_tiles(), 2);
    let after = w.tfile_reader.get_file().clone();
    assert_eq!(after.len(), len);
    assert_eq!(after[TILES_AT + 1], 2);
    assert_eq!(after[TILES_AT + 3..TILES_AT + 5], [0x8D, 0x01]);
    let changed: Vec<usize> = (0..len).filter(|&i| after[i] != bytes[i]).collect();
    assert_eq!(changed, vec![TILES_AT + 1, TILES_AT + 3]);
    assert_eq!(w.tfile_reader.get_position(), TILES_AT + 19);
}

#[test]
fn a_tile_section_with_a_bad_flag_is_not_readable() {
    let mut bytes = sample_world("Test");
    bytes[TILES_AT + 5] = 0xFF;
    let w = World::new(bytes);
    assert!(!w.tile_section_is_readable());
}

#[test]
fn a_tile_section_with_rle_code_3_is_not_readable() {
    let mut bytes = sample_world("Test");
    bytes[TILES_AT + 17] = 0xC0;
    let w = World::new(bytes);
    assert!(!w.tile_section_is_readable());
}

#[test]
fn update_file_pointers_moves_the_later_sections() {
    let mut w = World::new(sample_world("Test"));
    let old_tiles = w.header.array_of_pointers.tiles;
    let old_chests = w.header.array_of_pointers.chests;
    let pos = w.tfile_reader.get_position();
    w.update_file_pointers(3, FilePointerArray::Header);
    assert_eq!(w.header.array_of_pointers.header, NAME_AT as i32);
    assert_eq!(w.header.array_of_pointers.tiles, old_tiles + 3);
    assert_eq!(w.header.array_of_pointers.chests, old_chests + 3);
    assert_eq!(w.header.array_of_pointers.unknown_4, 3);
    assert_eq!(w.tfile_reader.get_position(), pos);
    let mut r = TFileReader::new(w.tfile_reader.get_file().clone());
    r.move_to_position(30);
    assert_eq!(r.read_int_32(), old_tiles + 3);
    assert_eq!(r.read_int_32(), old_chests + 3);
}

#[test]
fn update_file_pointers_after_tiles_writes_from_the_second_slot() {
    let mut w = World::new(sample_world("Test"));
    let old_chests = w.header.array_of_pointers.chests;
    let old_tiles = w.header.array_of_pointers.tiles;
    w.update_file_pointers(-1, FilePointerArray::Tiles);
    assert_eq!(w.header.array_of_pointers.tiles, old_tiles);
    assert_eq!(w.header.array_of_pointers.chests, old_chests - 1);
    let mut r = TFileReader::new(w.tfile_reader.get_file().clone());
    r.move_to_position(30);
    assert_eq!(r.read_int_32(), old_chests - 1);
}

#[test]
fn change_world_name_renames_both_copies() {
    let mut w = World::new(sample_world("Test"));
    assert!(w.can_rename_to("Pure World"));
    let old_tiles = w.header.array_of_pointers.tiles;
    w.change_world_name("Pure World");
    assert_eq!(w.world_name(), "Pure World");
    assert_eq!(w.header.array_of_pointers.tiles, old_tiles + 6);
    assert_eq!(w.header.array_of_pointers.unknown_1, 6);
    let bytes = w.tfile_reader.get_file().clone();
    let expected = sample_world("Pure World");
    assert_eq!(bytes.len(), expected.len());
    assert_eq!(bytes[..54], expected[..54]);
    assert_eq!(bytes[54..58], 6i32.to_le_bytes());
    assert_eq!(bytes[70..], expected[70..]);
    let mut w2 = World::new(bytes);
    assert_eq!(w2.world_name(), "Pure World");
    assert!(w2.tile_section_is_readable());
    assert_eq!(w2.iterate_tiles(), 2);
}

#[test]
fn change_world_name_to_a_shorter_name() {
    let mut w = World::new(sample_world("Old World"));
    w.change_world_name("New");
    let bytes = w.tfile_reader.get_file();
    let expected = sample_world("New");
    assert_eq!(bytes[..54], expected[..54]);
    assert_eq!(bytes[66..70], (-6i32).to_le_bytes());
    assert_eq!(bytes[70..], expected[70..]);
    assert_eq!(w.world_name(), "New");
}

#[test]
fn a_name_of_256_bytes_cannot_be_written() {
    let w = World::new(sample_world("Test"));
    let long = "x".repeat(256);
    assert!(!w.can_rename_to(&long));
    assert!(w.can_rename_to(&"x".repeat(255)));
}

#[test]
fn invalid_utf8_names_are_not_readable() {
    let mut bytes = sample_world("Test");
    bytes[NAME_AT + 1] = 0xFF;
    let w = World::new(bytes);
    assert!(!w.name_is_readable());
}

#[test]
fn file_pointer_array_numbers_follow_file_order() {
    assert_eq!(FilePointerArray::Header.number(), 0);
    assert_eq!(FilePointerArray::Tiles.number(), 1);
    assert_eq!(FilePointerArray::Footer.number(), 6);
    assert_eq!(FilePointerArray::Unknown4.number(), 10);
}

#[test]
fn file_pointers_get_and_set_by_slot() {
    let mut p = FilePointers {
        header: 0,
        tiles: 1,
        chests: 2,
        signs: 3,
        npc: 4,
        entities: 5,
        footer: 6,
        unknown_1: 7,
        unknown_2: 8,
        unknown_3: 9,
        unknown_4: 10,
    };
    for k in 0..11 {
        assert_eq!(p.get_at(k), k as i32);
    }
    p.set_at(4, -4);
    assert_eq!(p.npc, -4);
    assert_eq!(p.get_at(5), 5);
}

#[test]
fn renaming_twice_to_the_same_name_changes_nothing() {
    let mut w = World::new(sample_world("Test"));
    w.change_world_name("Purified");
    let bytes = w.tfile_reader.get_file().clone();
    let pointers = w.header.array_of_pointers.tiles;
    let pos = w.tfile_reader.get_position();
    assert!(w.can_rename_to("Purified"));
    w.change_world_name("Purified");
    assert_eq!(w.tfile_reader.get_file(), &bytes);
    assert_eq!(w.header.array_of_pointers.tiles, pointers);
    assert_eq!(w.tfile_reader.get_position(), pos);
}

#[test]
fn a_second_tile_pass_replaces_nothing() {
    let mut w = World::new(sample_world("Test"));
    assert_eq!(w.iterate_tiles(), 2);
    let bytes = w.tfile_reader.get_file().clone();
    assert!(w.tile_section_is_readable());
    assert_eq!(w.iterate_tiles(), 0);
    assert_eq!(w.tfile_reader.get_file(), &bytes);
}
