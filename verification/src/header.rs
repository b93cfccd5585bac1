//! The fixed header at the start of a world file: version, magic number, section pointers
//! and the table of tile kinds that carry frame coordinates.
use crate::bytes::{
    field, int_at, law_unsigned_roundtrip, lemma_le_value_bound, lemma_pow256_values, lemma_uint_at_2,
    to_unsigned, uint_at,
};
use crate::tfilereader::TFileReader;
use vstd::prelude::*;

verus! {

/// The magic number of a world file: the bytes of "relogic".
pub open spec fn relogic() -> Seq<u8> {
    seq![114u8, 101u8, 108u8, 111u8, 103u8, 105u8, 99u8]
}

/// Number of bytes of the tile-frame-important table whose bit count is the 2-byte integer at `p`.
pub open spec fn frame_table_len(s: Seq<u8>, p: int) -> nat {
    ((uint_at(s, p, 2) + 7) / 8) as nat
}

/// The tile-frame-important table whose 2-byte bit count is at `p`: the bits packed in the
/// bytes that follow the count, or no bytes where the count or the table does not fit in `s`.
pub open spec fn frame_table(s: Seq<u8>, p: int) -> Seq<u8> {
    if 0 <= p && p + 2 <= s.len() && p + 2 + frame_table_len(s, p) <= s.len() {
        field(s, p + 2, frame_table_len(s, p))
    } else {
        Seq::empty()
    }
}

/// A header can be read from `p`: its 70 bytes lie inside `s` and carry the magic number.
pub open spec fn header_readable(s: Seq<u8>, p: int) -> bool {
    &&& 0 <= p
    &&& p + 70 <= s.len()
    &&& field(s, p + 4, 7) == relogic()
}

/// The header of a world file.
pub struct Header {
    pub release: i32,
    pub magic_number: [u8; 7],
    pub file_type: u8,
    pub revision: u32,
    pub is_favorite: u64,
    pub num_of_pointers: u16,
    pub array_start_address: usize,
    pub array_of_pointers: FilePointers,
    /// One bit per tile kind (least significant bit first): set where tiles of that kind
    /// store frame coordinates. `Header::new` leaves it empty; `World::new` fills it.
    pub tile_frame_important: Vec<u8>,
}

/// Reinterprets a 4-byte signed integer as unsigned.
fn as_u32(v: i32) -> (r: u32)
    ensures
        r == to_unsigned(v as int, 4),
{
    proof {
        lemma_pow256_values();
    }
    if v < 0 {
        (v as i64 + 0x1_0000_0000) as u32
    } else {
        v as u32
    }
}

/// Reinterprets an 8-byte signed integer as unsigned.
fn as_u64(v: i64) -> (r: u64)
    ensures
        r == to_unsigned(v as int, 8),
{
    proof {
        lemma_pow256_values();
    }
    if v < 0 {
        (v as i128 + 0x1_0000_0000_0000_0000) as u64
    } else {
        v as u64
    }
}

/// Reinterprets a 2-byte signed integer as unsigned.
fn as_u16(v: i16) -> (r: u16)
    ensures
        r == to_unsigned(v as int, 2),
{
    proof {
        lemma_pow256_values();
    }
    if v < 0 {
        (v as i32 + 0x1_0000) as u16
    } else {
        v as u16
    }
}

impl Header {
    /// The fields of this header but the tile-frame-important table are those read from `p` in `s`.
    pub open spec fn read_from(self, s: Seq<u8>, p: int) -> bool {
        &&& self.release == int_at(s, p, 4)
        &&& self.magic_number@ == field(s, p + 4, 7)
        &&& self.file_type == s[p + 11]
        &&& self.revision == uint_at(s, p + 12, 4)
        &&& self.is_favorite == uint_at(s, p + 16, 8)
        &&& self.num_of_pointers == uint_at(s, p + 24, 2)
        &&& self.array_start_address == p + 26
        &&& self.array_of_pointers.read_from(s, p + 26)
    }

    /// Reads a header from the reader's position and moves past it.
    pub fn new(world: &mut TFileReader) -> (r: Header)
        requires
            header_readable(old(world).bytes(), old(world).pos() as int),
        ensures
            final(world).bytes() == old(world).bytes(),
            final(world).pos() == old(world).pos() + 70,
            r.read_from(old(world).bytes(), old(world).pos() as int),
            r.tile_frame_important@ == Seq::<u8>::empty(),
    {
        let ghost s = world.bytes();
        let ghost p = world.pos() as int;
        proof {
            lemma_pow256_values();
        }
        let release = world.read_int_32();
        let mut magic_number: [u8; 7] = [0; 7];
        world.read_multiple_bytes(&mut magic_number);
        let file_type = world.read_byte();
        let revision_signed = world.read_int_32();
        let revision = as_u32(revision_signed);
        let is_favorite_signed = world.read_int_64();
        let is_favorite = as_u64(is_favorite_signed);
        let num_signed = world.read_int_16();
        let num_of_pointers = as_u16(num_signed);
        proof {
            lemma_le_value_bound(field(s, p + 12, 4));
            law_unsigned_roundtrip(uint_at(s, p + 12, 4), 4);
            lemma_le_value_bound(field(s, p + 16, 8));
            law_unsigned_roundtrip(uint_at(s, p + 16, 8), 8);
            lemma_le_value_bound(field(s, p + 24, 2));
            law_unsigned_roundtrip(uint_at(s, p + 24, 2), 2);
        }
        let array_start_address = world.get_position();
        let array_of_pointers = FilePointers::new(world, num_of_pointers);
        let tile_frame_important: Vec<u8> = Vec::new();
        Header {
            release,
            magic_number,
            file_type,
            revision,
            is_favorite,
            num_of_pointers,
            array_start_address,
            array_of_pointers,
            tile_frame_important,
        }
    }

    /// Reads the tile-frame-important table whose 2-byte bit count is at `p` in `bytes`: the
    /// bits packed in the bytes that follow the count, or no bytes where they do not fit.
    pub fn read_frame_table(bytes: &Vec<u8>, p: usize) -> (r: Vec<u8>)
        ensures
            r@ == frame_table(bytes@, p as int),
    {
        let len = bytes.len();
        let mut table: Vec<u8> = Vec::new();
        if p > len || len - p < 2 {
            return table;
        }
        proof {
            lemma_uint_at_2(bytes@, p as int);
        }
        let count = bytes[p] as usize + 256 * bytes[p + 1] as usize;
        let amount = (count + 7) / 8;
        if amount > len - p - 2 {
            return table;
        }
        let mut i: usize = 0;
        while i < amount
            invariant
                i <= amount,
                amount == frame_table_len(bytes@, p as int),
                p + 2 + amount <= len,
                len == bytes@.len(),
                table@ == field(bytes@, p + 2int, i as nat),
            decreases amount - i,
        {
            table.push(bytes[p + 2 + i]);
            proof {
                assert(table@ =~= field(bytes@, p + 2int, (i + 1) as nat));
            }
            i = i + 1;
        }
        table
    }

    /// Whether a header can be read from `p` in `bytes`.
    pub fn readable_at(bytes: &Vec<u8>, p: usize) -> (r: bool)
        ensures
            r == header_readable(bytes@, p as int),
    {
        let len = bytes.len();
        if p > len || len - p < 70 {
            return false;
        }
        let magic = bytes[p + 4] == 114 && bytes[p + 5] == 101 && bytes[p + 6] == 108 && bytes[p
            + 7] == 111 && bytes[p + 8] == 103 && bytes[p + 9] == 105 && bytes[p + 10] == 99;
        proof {
            let f = field(bytes@, p + 4, 7);
            if magic {
                assert(f =~= relogic());
            } else {
                assert(f[0] != 114 || f[1] != 101 || f[2] != 108 || f[3] != 111 || f[4] != 103
                    || f[5] != 105 || f[6] != 99);
            }
        }
        magic
    }
}

/// The offsets of the file's sections, in file order.
pub struct FilePointers {
    pub header: i32,
    pub tiles: i32,
    pub chests: i32,
    pub signs: i32,
    pub npc: i32,
    pub entities: i32,
    pub footer: i32,
    pub unknown_1: i32,
    pub unknown_2: i32,
    pub unknown_3: i32,
    pub unknown_4: i32,
}

impl FilePointers {
    /// The `k`-th pointer, counting from 0 in file order.
    pub open spec fn get(self, k: int) -> i32 {
        if k == 0 {
            self.header
        } else if k == 1 {
            self.tiles
        } else if k == 2 {
            self.chests
        } else if k == 3 {
            self.signs
        } else if k == 4 {
            self.npc
        } else if k == 5 {
            self.entities
        } else if k == 6 {
            self.footer
        } else if k == 7 {
            self.unknown_1
        } else if k == 8 {
            self.unknown_2
        } else if k == 9 {
            self.unknown_3
        } else {
            self.unknown_4
        }
    }

    /// The pointers are the eleven 4-byte signed integers from `p` in `s`.
    pub open spec fn read_from(self, s: Seq<u8>, p: int) -> bool {
        forall|k: int| 0 <= k < 11 ==> #[trigger] self.get(k) == int_at(s, p + 4 * k, 4)
    }

    /// Reads the eleven pointers from the reader's position and moves past them.
    fn new(world: &mut TFileReader, _amount: u16) -> (r: FilePointers)
        requires
            old(world).pos() + 44 <= old(world).bytes().len(),
        ensures
            final(world).bytes() == old(world).bytes(),
            final(world).pos() == old(world).pos() + 44,
            r.read_from(old(world).bytes(), old(world).pos() as int),
    {
        let header = world.read_int_32();
        let tiles = world.read_int_32();
        let chests = world.read_int_32();
        let signs = world.read_int_32();
        let npc = world.read_int_32();
        let entities = world.read_int_32();
        let footer = world.read_int_32();
        let unknown_1 = world.read_int_32();
        let unknown_2 = world.read_int_32();
        let unknown_3 = world.read_int_32();
        let unknown_4 = world.read_int_32();
        let r = FilePointers {
            header,
            tiles,
            chests,
            signs,
            npc,
            entities,
            footer,
            unknown_1,
            unknown_2,
            unknown_3,
            unknown_4,
        };
        assert forall|k: int| 0 <= k < 11 implies #[trigger] r.get(k) == int_at(
            old(world).bytes(),
            old(world).pos() + 4 * k,
            4,
        ) by {}
        r
    }

    /// The `k`-th pointer, counting from 0 in file order.
    pub fn get_at(&self, k: usize) -> (r: i32)
        requires
            k < 11,
        ensures
            r == self.get(k as int),
    {
        match k {
            0 => self.header,
            1 => self.tiles,
            2 => self.chests,
            3 => self.signs,
            4 => self.npc,
            5 => self.entities,
            6 => self.footer,
            7 => self.unknown_1,
            8 => self.unknown_2,
            9 => self.unknown_3,
            _ => self.unknown_4,
        }
    }

    /// Sets the `k`-th pointer to `v`.
    pub fn set_at(&mut self, k: usize, v: i32)
        requires
            k < 11,
        ensures
            forall|j: int|
                0 <= j < 11 ==> #[trigger] final(self).get(j) == if j == k {
                    v
                } else {
                    old(self).get(j)
                },
    {
        match k {
            0 => self.header = v,
            1 => self.tiles = v,
            2 => self.chests = v,
            3 => self.signs = v,
            4 => self.npc = v,
            5 => self.entities = v,
            6 => self.footer = v,
            7 => self.unknown_1 = v,
            8 => self.unknown_2 = v,
            9 => self.unknown_3 = v,
            _ => self.unknown_4 = v,
        }
    }
}

/// Law: where the bytes after a 2-byte bit count `c` at `p` hold enough bytes for `c` bits,
/// the tile-frame-important table is the bytes right after the count, with one bit for every
/// tile kind it counts and no whole byte more: `8 * len >= c` and `8 * (len - 1) < c`.
pub proof fn law_frame_table_covers_its_count(s: Seq<u8>, p: int)
    requires
        0 <= p,
        p + 2 <= s.len(),
        8 * (s.len() - p - 2) >= uint_at(s, p, 2) + 7,
    ensures
        8 * frame_table(s, p).len() >= uint_at(s, p, 2),
        8 * (frame_table(s, p).len() - 1) < uint_at(s, p, 2),
        frame_table(s, p) == s.subrange(p + 2, p + 2 + frame_table(s, p).len()),
{
}

/// Law: the eleven section pointers are the 4-byte signed integers of the pointer array in
/// file order: header, tiles, chests, signs, npc, entities, footer, then the four unknown ones.
pub proof fn law_pointers_in_file_order(ptrs: FilePointers, s: Seq<u8>, p: int)
    requires
        ptrs.read_from(s, p),
    ensures
        ptrs.header == int_at(s, p, 4),
        ptrs.tiles == int_at(s, p + 4, 4),
        ptrs.chests == int_at(s, p + 8, 4),
        ptrs.signs == int_at(s, p + 12, 4),
        ptrs.npc == int_at(s, p + 16, 4),
        ptrs.entities == int_at(s, p + 20, 4),
        ptrs.footer == int_at(s, p + 24, 4),
        ptrs.unknown_1 == int_at(s, p + 28, 4),
        ptrs.unknown_2 == int_at(s, p + 32, 4),
        ptrs.unknown_3 == int_at(s, p + 36, 4),
        ptrs.unknown_4 == int_at(s, p + 40, 4),
{
    assert(ptrs.get(0) == int_at(s, p + 4 * 0, 4));
    assert(ptrs.get(1) == int_at(s, p + 4 * 1, 4));
    assert(ptrs.get(2) == int_at(s, p + 4 * 2, 4));
    assert(ptrs.get(3) == int_at(s, p + 4 * 3, 4));
    assert(ptrs.get(4) == int_at(s, p + 4 * 4, 4));
    assert(ptrs.get(5) == int_at(s, p + 4 * 5, 4));
    assert(ptrs.get(6) == int_at(s, p + 4 * 6, 4));
    assert(ptrs.get(7) == int_at(s, p + 4 * 7, 4));
    assert(ptrs.get(8) == int_at(s, p + 4 * 8, 4));
    assert(ptrs.get(9) == int_at(s, p + 4 * 9, 4));
    assert(ptrs.get(10) == int_at(s, p + 4 * 10, 4));
}

} // verus!
