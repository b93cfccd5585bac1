//! A world file in memory: its header, its tile records and its name.
use crate::bytes::{field, le_bytes, lemma_le_bytes_len, lemma_splice_concat, splice, to_unsigned};
use crate::header::{frame_table, header_readable, FilePointers, Header};
use crate::tfilereader::{string_at, string_readable, with_string, TFileReader};
use vstd::string::StringSliceAdditionalSpecFns;
use vstd::utf8::{decode_utf8, decode_utf8_encode_utf8, encode_utf8, encode_utf8_decode_utf8, encode_utf8_valid_utf8};
use std::collections::HashMap;
use vstd::prelude::*;

verus! {

broadcast use vstd::std_specs::hash::group_hash_axioms;

/// The sections of a world file, in file order; each has a pointer in the header.
pub enum FilePointerArray {
    Header,
    Tiles,
    Chests,
    Signs,
    Npc,
    Entities,
    Footer,
    Unknown1,
    Unknown2,
    Unknown3,
    Unknown4,
}

impl FilePointerArray {
    /// The section's place in the pointer array.
    pub open spec fn slot(self) -> int {
        match self {
            FilePointerArray::Header => 0,
            FilePointerArray::Tiles => 1,
            FilePointerArray::Chests => 2,
            FilePointerArray::Signs => 3,
            FilePointerArray::Npc => 4,
            FilePointerArray::Entities => 5,
            FilePointerArray::Footer => 6,
            FilePointerArray::Unknown1 => 7,
            FilePointerArray::Unknown2 => 8,
            FilePointerArray::Unknown3 => 9,
            FilePointerArray::Unknown4 => 10,
        }
    }

    /// The section's place in the pointer array.
    pub fn number(&self) -> (r: u8)
        ensures
            r == self.slot(),
    {
        match self {
            FilePointerArray::Header => 0,
            FilePointerArray::Tiles => 1,
            FilePointerArray::Chests => 2,
            FilePointerArray::Signs => 3,
            FilePointerArray::Npc => 4,
            FilePointerArray::Entities => 5,
            FilePointerArray::Footer => 6,
            FilePointerArray::Unknown1 => 7,
            FilePointerArray::Unknown2 => 8,
            FilePointerArray::Unknown3 => 9,
            FilePointerArray::Unknown4 => 10,
        }
    }
}

/// The leading part of a tile record: its flag bytes and its tile kind.
pub struct Tile {
    pub flag_1: u8,
    pub flag_2: Option<u8>,
    pub flag_3: Option<u8>,
    pub tile_type: Option<u16>,
}

/// The optional second and third flag bytes that follow `flag_1`, from `q` on, and where they end.
pub open spec fn spec_tile_flags(s: Seq<u8>, flag_1: u8, q: int) -> Option<(Option<u8>, Option<u8>, int)> {
    if (flag_1 & 1) == 0 {
        Some((None, None, q))
    } else if q >= s.len() {
        None
    } else if (s[q] & 1) == 0 {
        Some((Some(s[q]), None, q + 1))
    } else if q + 1 >= s.len() {
        None
    } else {
        Some((Some(s[q]), Some(s[q + 1]), q + 2))
    }
}

/// The optional tile kind at `q`: two little-endian bytes when bit 5 of `flag_1` is set
/// (they must end strictly before the end of `s`, and the kind must be below 10000),
/// else one byte; and where it ends.
pub open spec fn spec_tile_type(s: Seq<u8>, flag_1: u8, q: int) -> Option<(Option<u16>, int)> {
    if (flag_1 & 2) == 0 {
        Some((None, q))
    } else if (flag_1 & 32) != 0 {
        if q + 2 >= s.len() {
            None
        } else if s[q] + 256 * s[q + 1] >= 10000 {
            None
        } else {
            Some((Some((s[q] + 256 * s[q + 1]) as u16), q + 2))
        }
    } else if q >= s.len() {
        None
    } else {
        Some((Some(s[q] as u16), q + 1))
    }
}

/// The leading part of the tile record at `p` and where it ends; `None` where reading it
/// would fail (out of bytes, a first flag byte of 255, or a kind of 10000 or more).
pub open spec fn spec_tile_header(s: Seq<u8>, p: int) -> Option<(Tile, int)> {
    if !(0 <= p < s.len()) || s[p] == 255 {
        None
    } else {
        match spec_tile_flags(s, s[p], p + 1) {
            None => None,
            Some((f2, f3, q)) => match spec_tile_type(s, s[p], q) {
                None => None,
                Some((tt, q2)) => Some(
                    (Tile { flag_1: s[p], flag_2: f2, flag_3: f3, tile_type: tt }, q2),
                ),
            },
        }
    }
}

/// `q` moved past `n` bytes when `cond` holds, if they lie inside `s`.
pub open spec fn skip_when(s: Seq<u8>, q: Option<int>, cond: bool, n: int) -> Option<int> {
    match q {
        None => None,
        Some(q) => if !cond {
            Some(q)
        } else if q + n <= s.len() {
            Some(q + n)
        } else {
            None
        },
    }
}

/// Whether tiles of kind `tt` store frame coordinates, after the table `frame`.
pub open spec fn frame_important(frame: Seq<u8>, tt: u16) -> bool {
    (frame[(tt / 8) as int] & (1u8 << ((tt % 8) as u8))) != 0
}

/// Whether `flag` is present and has a bit of `mask` set.
pub open spec fn flag_has(flag: Option<u8>, mask: u8) -> bool {
    match flag {
        Some(f) => (f & mask) != 0,
        None => false,
    }
}

/// Where the rest of the tile record whose leading part `t` ends at `q` ends: frame
/// coordinates, paint, wall, wall paint, liquid and run length; `None` where reading it
/// would fail (out of bytes, a kind past the frame table, or a run-length code of 3).
pub open spec fn spec_tile_extras(s: Seq<u8>, q: int, t: Tile, frame: Seq<u8>) -> Option<int> {
    let a = match t.tile_type {
        None => Some(q),
        Some(tt) => if (tt / 8) as int >= frame.len() {
            None
        } else {
            skip_when(s, skip_when(s, Some(q), frame_important(frame, tt), 4), flag_has(t.flag_3, 8), 1)
        },
    };
    let wall = (t.flag_1 & 4) != 0;
    let b = skip_when(s, skip_when(s, a, wall, 1), wall && flag_has(t.flag_3, 16), 1);
    let c = skip_when(s, b, (t.flag_1 & 24) != 0, 1);
    let rle = (t.flag_1 & 192) >> 6;
    if rle == 0 {
        c
    } else if rle == 1 {
        skip_when(s, c, true, 1)
    } else if rle == 2 {
        skip_when(s, c, true, 2)
    } else {
        None
    }
}

/// The tile record at `p`: its leading part, where that part ends, and where the record ends.
pub open spec fn spec_tile_record(s: Seq<u8>, p: int, frame: Seq<u8>) -> Option<(Tile, int, int)> {
    match spec_tile_header(s, p) {
        None => None,
        Some((t, qh)) => match spec_tile_extras(s, qh, t, frame) {
            None => None,
            Some(q) => Some((t, qh, q)),
        },
    }
}

/// Whether the tile `t` is of a kind that `m` replaces.
pub open spec fn tile_replaced(t: Tile, m: Map<u16, u16>) -> bool {
    match t.tile_type {
        Some(tt) => m.contains_key(tt),
        None => false,
    }
}

/// `s` with the kind of tile `t`, whose leading part ends at `qh`, replaced after `m`: one
/// byte (the replacement modulo 256) for a kind below 256, else two little-endian bytes.
pub open spec fn spec_replace(s: Seq<u8>, t: Tile, qh: int, m: Map<u16, u16>) -> Seq<u8> {
    match t.tile_type {
        Some(tt) => if m.contains_key(tt) {
            if tt < 256 {
                s.update(qh - 1, (m[tt] % 256) as u8)
            } else {
                splice(s, qh - 2, le_bytes(m[tt] as nat, 2))
            }
        } else {
            s
        },
        None => s,
    }
}

/// A tile record lies inside `s`, its leading part is not empty, and a kind of 256 or more
/// took two bytes.
pub proof fn lemma_tile_record_bounds(s: Seq<u8>, p: int, frame: Seq<u8>)
    requires
        spec_tile_record(s, p, frame) is Some,
    ensures
        ({
            let (t, qh, q) = spec_tile_record(s, p, frame).unwrap();
            &&& 0 <= p < qh <= q <= s.len()
            &&& (t.tile_type matches Some(tt) && tt >= 256 ==> p + 3 <= qh)
        }),
{
}

/// Reading a tile record at `p` looks at the bytes from `p` on only.
pub proof fn lemma_tile_record_frame(s1: Seq<u8>, s2: Seq<u8>, p: int, frame: Seq<u8>)
    requires
        0 <= p,
        s1.len() == s2.len(),
        forall|k: int| p <= k < s1.len() ==> s1[k] == s2[k],
    ensures
        spec_tile_record(s1, p, frame) == spec_tile_record(s2, p, frame),
{
    if 0 <= p < s1.len() {
        assert(s1[p] == s2[p]);
        assert(spec_tile_header(s1, p) == spec_tile_header(s2, p));
        if let Some((t, qh)) = spec_tile_header(s1, p) {
            lemma_tile_extras_frame(s1, s2, qh, t, frame);
        }
    }
}

/// Reading the rest of a tile record at `q` looks at the length of `s` only.
pub proof fn lemma_tile_extras_frame(s1: Seq<u8>, s2: Seq<u8>, q: int, t: Tile, frame: Seq<u8>)
    requires
        s1.len() == s2.len(),
    ensures
        spec_tile_extras(s1, q, t, frame) == spec_tile_extras(s2, q, t, frame),
{
}

/// Replacing a tile kind changes only bytes of the record's leading part.
pub proof fn lemma_replace_keeps_rest(s: Seq<u8>, out: Seq<u8>, p: int, frame: Seq<u8>, m: Map<u16, u16>)
    requires
        spec_tile_record(s, p, frame) is Some,
        out.len() == s.len(),
    ensures
        ({
            let (t, qh, q) = spec_tile_record(s, p, frame).unwrap();
            let r = spec_replace(out, t, qh, m);
            &&& r.len() == out.len()
            &&& forall|k: int| (0 <= k < p || qh <= k < r.len()) ==> #[trigger] r[k] == out[k]
        }),
{
    lemma_tile_record_bounds(s, p, frame);
    let (t, qh, q) = spec_tile_record(s, p, frame).unwrap();
    if let Some(tt) = t.tile_type {
        if m.contains_key(tt) && tt >= 256 {
            lemma_le_bytes_len(m[tt] as nat, 2);
            let r = spec_replace(out, t, qh, m);
            assert forall|k: int| (0 <= k < p || qh <= k < r.len()) implies #[trigger] r[k] == out[k] by {
                if k < p {
                    assert(r[k] == out.take(qh - 2)[k]);
                } else {
                    assert(r[k] == out.skip(qh)[k - qh]);
                }
            }
        }
    }
}

/// The tile records from `p` while the position stays below `end`, read from `s`: the bytes
/// `out` with each replacement after `m` written in, the number of replaced tiles, and where
/// the last record ends; `None` where a record cannot be read.
pub open spec fn spec_tiles(
    s: Seq<u8>,
    out: Seq<u8>,
    p: int,
    end: int,
    frame: Seq<u8>,
    m: Map<u16, u16>,
) -> Option<(Seq<u8>, nat, int)>
    decreases (if p < end { end - p } else { 0 }),
{
    if p >= end {
        Some((out, 0, p))
    } else {
        match spec_tile_record(s, p, frame) {
            None => None,
            Some((t, qh, q)) => {
                proof {
                    lemma_tile_record_bounds(s, p, frame);
                }
                match spec_tiles(s, spec_replace(out, t, qh, m), q, end, frame, m) {
                    None => None,
                    Some((o, c, e)) => Some(
                        (o, c + if tile_replaced(t, m) {
                            1nat
                        } else {
                            0nat
                        }, e),
                    ),
                }
            },
        }
    }
}

/// Whether the tile section can be read and how many tiles it replaces do not depend on the
/// bytes that the replacements are written into.
pub proof fn lemma_tiles_out_irrelevant(
    s: Seq<u8>,
    o1: Seq<u8>,
    o2: Seq<u8>,
    p: int,
    end: int,
    frame: Seq<u8>,
    m: Map<u16, u16>,
)
    ensures
        spec_tiles(s, o1, p, end, frame, m) is Some <==> spec_tiles(s, o2, p, end, frame, m) is Some,
        spec_tiles(s, o1, p, end, frame, m) is Some ==> {
            &&& spec_tiles(s, o1, p, end, frame, m).unwrap().1 == spec_tiles(s, o2, p, end, frame, m).unwrap().1
            &&& spec_tiles(s, o1, p, end, frame, m).unwrap().2 == spec_tiles(s, o2, p, end, frame, m).unwrap().2
        },
    decreases (if p < end { end - p } else { 0 }),
{
    if p < end {
        if let Some((t, qh, q)) = spec_tile_record(s, p, frame) {
            lemma_tile_record_bounds(s, p, frame);
            lemma_tiles_out_irrelevant(
                s,
                spec_replace(o1, t, qh, m),
                spec_replace(o2, t, qh, m),
                q,
                end,
                frame,
                m,
            );
        }
    }
}

/// The tile kinds that `World::iterate_tiles` replaces: corruption, crimson and hallow
/// blocks become their pure counterparts.
pub open spec fn spec_tile_replacements() -> Map<u16, u16> {
    map![
        112u16 => 53u16,
        23u16 => 2u16,
        163u16 => 161u16,
        25u16 => 1u16,
        116u16 => 53u16,
        109u16 => 2u16,
        164u16 => 161u16,
        117u16 => 1u16,
        234u16 => 53u16,
        199u16 => 2u16,
        200u16 => 161u16,
        203u16 => 1u16,
        402u16 => 397u16,
        399u16 => 397u16,
        398u16 => 397u16,
        403u16 => 396u16,
        401u16 => 396u16,
        400u16 => 396u16
    ]
}

/// The replacement table of `World::iterate_tiles`.
fn tile_replacements() -> (m: HashMap<u16, u16>)
    ensures
        m@ == spec_tile_replacements(),
{
    let mut m: HashMap<u16, u16> = HashMap::new();
    m.insert(112, 53);
    m.insert(23, 2);
    m.insert(163, 161);
    m.insert(25, 1);
    m.insert(116, 53);
    m.insert(109, 2);
    m.insert(164, 161);
    m.insert(117, 1);
    m.insert(234, 53);
    m.insert(199, 2);
    m.insert(200, 161);
    m.insert(203, 1);
    m.insert(402, 397);
    m.insert(399, 397);
    m.insert(398, 397);
    m.insert(403, 396);
    m.insert(401, 396);
    m.insert(400, 396);
    m
}

/// Reads the leading part of the tile record at `p` in `s` without a cursor, and where it
/// ends, or `None` where it cannot be read.
fn scan_tile_header(s: &Vec<u8>, p: usize) -> (r: Option<(Tile, usize)>)
    ensures
        match r {
            None => spec_tile_header(s@, p as int) is None,
            Some((t, qh)) => spec_tile_header(s@, p as int) == Some((t, qh as int)),
        },
{
    let len = s.len();
    if p >= len || s[p] == 255 {
        return None;
    }
    let flag_1 = s[p];
    let mut q = p + 1;
    let mut flag_2: Option<u8> = None;
    let mut flag_3: Option<u8> = None;
    if (flag_1 & 1) != 0 {
        if q >= len {
            return None;
        }
        flag_2 = Some(s[q]);
        if (s[q] & 1) != 0 {
            if q + 1 >= len {
                return None;
            }
            flag_3 = Some(s[q + 1]);
            q = q + 2;
        } else {
            q = q + 1;
        }
    }
    assert(spec_tile_flags(s@, flag_1, p + 1) == Some((flag_2, flag_3, q as int)));
    let mut tile_type: Option<u16> = None;
    if (flag_1 & 2) != 0 {
        if (flag_1 & 32) != 0 {
            if len - q <= 2 {
                return None;
            }
            let tt = s[q] as u16 + 256 * s[q + 1] as u16;
            if tt >= 10000 {
                return None;
            }
            tile_type = Some(tt);
            q = q + 2;
        } else {
            if q >= len {
                return None;
            }
            tile_type = Some(s[q] as u16);
            q = q + 1;
        }
    }
    Some((Tile { flag_1, flag_2, flag_3, tile_type }, q))
}

/// Where the rest of the tile record whose leading part `t` ends at `q` ends, read without a
/// cursor, or `None` where it cannot be read.
fn scan_tile_extras(s: &Vec<u8>, q: usize, t: &Tile, frame: &Vec<u8>) -> (r: Option<usize>)
    requires
        q <= s@.len(),
    ensures
        match r {
            None => spec_tile_extras(s@, q as int, *t, frame@) is None,
            Some(e) => spec_tile_extras(s@, q as int, *t, frame@) == Some(e as int),
        },
{
    let len = s.len();
    let mut q = q;
    match t.tile_type {
        Some(tt) => {
            let byte_position = (tt / 8) as usize;
            if byte_position >= frame.len() {
                return None;
            }
            if (frame[byte_position] & (1u8 << ((tt % 8) as u8))) != 0 {
                if len - q < 4 {
                    return None;
                }
                q = q + 4;
            }
            match t.flag_3 {
                Some(f3) => {
                    if (f3 & 8) != 0 {
                        if q >= len {
                            return None;
                        }
                        q = q + 1;
                    }
                },
                None => {},
            }
        },
        None => {},
    }
    if (t.flag_1 & 4) != 0 {
        if q >= len {
            return None;
        }
        q = q + 1;
        match t.flag_3 {
            Some(f3) => {
                if (f3 & 16) != 0 {
                    if q >= len {
                        return None;
                    }
                    q = q + 1;
                }
            },
            None => {},
        }
    }
    if (t.flag_1 & 24) != 0 {
        if q >= len {
            return None;
        }
        q = q + 1;
    }
    let rle = (t.flag_1 & 192) >> 6;
    if rle == 1 {
        if q >= len {
            return None;
        }
        q = q + 1;
    } else if rle == 2 {
        if len - q < 2 {
            return None;
        }
        q = q + 2;
    } else if rle != 0 {
        return None;
    }
    Some(q)
}

/// Reads the tile record at `p` in `s` without a cursor: its leading part, where that part
/// ends and where the record ends, or `None` where it cannot be read.
fn scan_tile_record(s: &Vec<u8>, p: usize, frame: &Vec<u8>) -> (r: Option<(Tile, usize, usize)>)
    ensures
        match r {
            None => spec_tile_record(s@, p as int, frame@) is None,
            Some((t, qh, q)) => spec_tile_record(s@, p as int, frame@) == Some(
                (t, qh as int, q as int),
            ),
        },
{
    match scan_tile_header(s, p) {
        None => None,
        Some((t, qh)) => match scan_tile_extras(s, qh, &t, frame) {
            None => None,
            Some(q) => Some((t, qh, q)),
        },
    }
}

/// The 4-byte little-endian patterns of the pointers `from`, ..., 10 of `ptrs`, each moved by `added`.
pub open spec fn pointer_block(ptrs: FilePointers, from: int, added: int) -> Seq<u8>
    decreases 11 - from,
{
    if from >= 11 {
        Seq::empty()
    } else {
        le_bytes(to_unsigned(ptrs.get(from) + added, 4), 4) + pointer_block(ptrs, from + 1, added)
    }
}

/// `pointer_block(ptrs, from, added)` has four bytes per pointer.
pub proof fn lemma_pointer_block_len(ptrs: FilePointers, from: int, added: int)
    requires
        0 <= from <= 11,
    ensures
        pointer_block(ptrs, from, added).len() == 4 * (11 - from),
    decreases 11 - from,
{
    if from < 11 {
        lemma_le_bytes_len(to_unsigned(ptrs.get(from) + added, 4), 4);
        lemma_pointer_block_len(ptrs, from + 1, added);
    }
}

/// `new` is `old` with the pointers after section `area` moved by `added`.
pub open spec fn pointers_shifted(old: FilePointers, new: FilePointers, area: int, added: int) -> bool {
    forall|k: int|
        0 <= k < 11 ==> #[trigger] new.get(k) == if k > area {
            old.get(k) + added
        } else {
            old.get(k) as int
        }
}

/// The pointers after section `area`, moved by `added`, still fit in an `i32`.
pub open spec fn pointers_can_shift(ptrs: FilePointers, area: int, added: int) -> bool {
    forall|k: int| area < k < 11 ==> i32::MIN <= #[trigger] ptrs.get(k) + added <= i32::MAX
}

/// `a` and `b` agree on every field but the pointers.
pub open spec fn same_but_pointers(a: Header, b: Header) -> bool {
    &&& a.release == b.release
    &&& a.magic_number == b.magic_number
    &&& a.file_type == b.file_type
    &&& a.revision == b.revision
    &&& a.is_favorite == b.is_favorite
    &&& a.num_of_pointers == b.num_of_pointers
    &&& a.array_start_address == b.array_start_address
    &&& a.tile_frame_important == b.tile_frame_important
}

/// The bytes `s` of a world whose name (length byte at `hp`) becomes `nb`: the name is
/// rewritten, the pointers after the header's are moved by the change of length and written
/// back after the pointer array at `start`, and the copy of the name that ends 4 bytes before
/// the end of the file is rewritten.
pub open spec fn renamed_bytes(s: Seq<u8>, ptrs: FilePointers, start: int, hp: int, nb: Seq<u8>) -> Seq<u8> {
    let n = s[hp] as nat;
    let s1 = with_string(s, hp, nb, n);
    let s2 = splice(s1, start + 4, pointer_block(ptrs, 1, nb.len() - n));
    with_string(s2, s2.len() - 5 - n, nb, n)
}

/// The world `s`, with its cursor at `pos`, can be renamed to `nb`: the old name can be read,
/// the new one has at most 255 bytes, the moved pointers fit, and every write and move stays
/// inside the file.
pub open spec fn rename_fits(s: Seq<u8>, ptrs: FilePointers, start: int, hp: int, pos: int, nb: Seq<u8>) -> bool {
    let n = s[hp] as int;
    let m = nb.len() as int;
    let len1 = s.len() - n + m;
    &&& string_readable(s, hp)
    &&& 0 <= pos < s.len()
    &&& m < 256
    &&& pointers_can_shift(ptrs, 0, m - n)
    &&& 0 <= start
    &&& start + 44 <= len1
    &&& hp + 1 + n < s.len()
    &&& len1 >= 5 + n
    &&& pos < len1 - n + m
}

/// Law: after renaming a world to `name`, both copies of the name read back as `name`: the
/// one at `hp`, where it lies after the pointer array and before the copy at the end, and the
/// copy that ends 4 bytes before the end of the file.
pub proof fn law_rename_then_read(
    s: Seq<u8>,
    ptrs: FilePointers,
    start: int,
    hp: int,
    pos: int,
    name: Seq<char>,
)
    requires
        rename_fits(s, ptrs, start, hp, pos, encode_utf8(name)),
        start + 44 <= hp,
        hp + 6 + 2 * s[hp] <= s.len(),
    ensures
        ({
            let r = renamed_bytes(s, ptrs, start, hp, encode_utf8(name));
            let f = r.len() - 5 - encode_utf8(name).len();
            &&& string_readable(r, hp)
            &&& decode_utf8(string_at(r, hp)) == name
            &&& string_readable(r, f)
            &&& decode_utf8(string_at(r, f)) == name
            &&& r[hp] == encode_utf8(name).len()
            &&& string_at(r, hp) == encode_utf8(name)
            &&& r[f] == encode_utf8(name).len()
            &&& string_at(r, f) == encode_utf8(name)
            &&& r.len() == s.len() - 2 * s[hp] + 2 * encode_utf8(name).len()
            &&& field(r, start + 4, 40) == pointer_block(ptrs, 1, encode_utf8(name).len() - s[hp])
        }),
{
    let nb = encode_utf8(name);
    let n = s[hp] as nat;
    let m = nb.len();
    let s1 = with_string(s, hp, nb, n);
    let block = pointer_block(ptrs, 1, m - n);
    lemma_pointer_block_len(ptrs, 1, m - n);
    let s2 = splice(s1, start + 4, block);
    let r = with_string(s2, s2.len() - 5 - n, nb, n);
    let f = r.len() - 5 - m;
    encode_utf8_valid_utf8(name);
    encode_utf8_decode_utf8(name);
    assert(s1.len() == s.len() - n + m);
    assert(s2.len() == s1.len());
    assert(r.len() == s2.len() - n + m);
    assert(string_at(s1, hp) =~= nb);
    assert forall|k: int| hp <= k <= hp + m implies #[trigger] s2[k] == s1[k] by {
        assert(s2[k] == s1.skip(start + 4 + block.len())[k - (start + 4 + block.len())]);
    }
    assert forall|k: int| hp <= k <= hp + m implies #[trigger] r[k] == s2[k] by {
        assert(r[k] == s2.take(s2.len() - 5 - n)[k]);
    }
    assert(string_at(r, hp) =~= nb);
    assert(r[f] == m as u8);
    assert(string_at(r, f) =~= nb);
    assert forall|k: int| start + 4 <= k < start + 44 implies #[trigger] r[k] == s2[k] by {
        assert(r[k] == s2.take(s2.len() - 5 - n)[k]);
    }
    assert(field(s2, start + 4, 40) =~= block);
    assert(field(r, start + 4, 40) =~= block);
}

/// A length-prefixed string written over itself leaves the bytes as they are.
proof fn lemma_with_string_same(t: Seq<u8>, at: int, nb: Seq<u8>)
    requires
        0 <= at,
        at + 1 + nb.len() <= t.len(),
        t[at] == nb.len(),
        string_at(t, at) == nb,
    ensures
        with_string(t, at, nb, nb.len()) == t,
{
    assert(with_string(t, at, nb, nb.len()) =~= t);
}

/// Bytes written over equal bytes leave them as they are.
proof fn lemma_splice_same(t: Seq<u8>, at: int, b: Seq<u8>)
    requires
        0 <= at,
        at + b.len() <= t.len(),
        field(t, at, b.len()) == b,
    ensures
        splice(t, at, b) == t,
{
    assert(splice(t, at, b) =~= t);
}

/// Writing pointers that were already moved, moved by nothing, writes what moving them did.
proof fn lemma_pointer_block_shifted(ptrs: FilePointers, ptrs2: FilePointers, from: int, d: int)
    requires
        1 <= from <= 11,
        pointers_shifted(ptrs, ptrs2, 0, d),
    ensures
        pointer_block(ptrs2, from, 0) == pointer_block(ptrs, from, d),
    decreases 11 - from,
{
    if from < 11 {
        assert(ptrs2.get(from) == ptrs.get(from) + d);
        lemma_pointer_block_shifted(ptrs, ptrs2, from + 1, d);
    }
}

/// Law: renaming a world a second time to the same name is possible and changes nothing:
/// the bytes stay those of the first rename, and the pointers move by nothing (where the
/// header's name lies after the pointer array and before the copy at the end).
pub proof fn law_rename_twice(
    s: Seq<u8>,
    ptrs: FilePointers,
    ptrs2: FilePointers,
    start: int,
    hp: int,
    pos: int,
    name: Seq<char>,
)
    requires
        rename_fits(s, ptrs, start, hp, pos, encode_utf8(name)),
        start + 44 <= hp,
        hp + 6 + 2 * s[hp] <= s.len(),
        pointers_shifted(ptrs, ptrs2, 0, encode_utf8(name).len() - s[hp]),
    ensures
        ({
            let r = renamed_bytes(s, ptrs, start, hp, encode_utf8(name));
            &&& rename_fits(r, ptrs2, start, hp, pos, encode_utf8(name))
            &&& renamed_bytes(r, ptrs2, start, hp, encode_utf8(name)) == r
            &&& encode_utf8(name).len() - r[hp] == 0
        }),
{
    let nb = encode_utf8(name);
    let n = s[hp] as int;
    let m = nb.len() as int;
    law_rename_then_read(s, ptrs, start, hp, pos, name);
    let r = renamed_bytes(s, ptrs, start, hp, nb);
    let f = r.len() - 5 - m;
    lemma_pointer_block_len(ptrs, 1, m - n);
    lemma_pointer_block_shifted(ptrs, ptrs2, 1, m - n);
    assert(pointer_block(ptrs2, 1, nb.len() - r[hp]) == pointer_block(ptrs, 1, m - n));
    lemma_with_string_same(r, hp, nb);
    lemma_splice_same(r, start + 4, pointer_block(ptrs, 1, m - n));
    lemma_with_string_same(r, f, nb);
    assert(pointers_can_shift(ptrs2, 0, 0));
}

/// Law: reading the tile section changes no byte before the section's start `p` or from
/// where its last record ends on, and keeps the length of the bytes.
pub proof fn law_tiles_stay_in_section(
    s: Seq<u8>,
    out: Seq<u8>,
    p: int,
    end: int,
    frame: Seq<u8>,
    m: Map<u16, u16>,
)
    requires
        0 <= p,
        out.len() == s.len(),
        spec_tiles(s, out, p, end, frame, m) is Some,
    ensures
        ({
            let (o, c, e) = spec_tiles(s, out, p, end, frame, m).unwrap();
            &&& o.len() == out.len()
            &&& p <= e
            &&& forall|k: int| (0 <= k < p || e <= k < o.len()) ==> #[trigger] o[k] == out[k]
        }),
    decreases (if p < end { end - p } else { 0 }),
{
    if p < end {
        let (t, qh, q) = spec_tile_record(s, p, frame).unwrap();
        lemma_tile_record_bounds(s, p, frame);
        lemma_replace_keeps_rest(s, out, p, frame, m);
        let out2 = spec_replace(out, t, qh, m);
        law_tiles_stay_in_section(s, out2, q, end, frame, m);
        let (o, c, e) = spec_tiles(s, out, p, end, frame, m).unwrap();
        assert forall|k: int| (0 <= k < p || e <= k < o.len()) implies #[trigger] o[k] == out[k] by {
            assert(o[k] == out2[k]);
        }
    }
}

/// Each replacement of `m` settles: where a key fits in the frame table `frame`, it maps to a
/// kind that is not a key, is below 10000, stays below 256 when the key is, fits in the table
/// and has the key's frame bit.
pub open spec fn replacements_settle(m: Map<u16, u16>, frame: Seq<u8>) -> bool {
    forall|k: u16|
        #[trigger] m.contains_key(k) && ((k / 8) as int) < frame.len() ==> {
            &&& !m.contains_key(m[k])
            &&& m[k] < 10000
            &&& (k < 256 ==> m[k] < 256)
            &&& ((m[k] / 8) as int) < frame.len()
            &&& frame_important(frame, m[k]) == frame_important(frame, k)
        }
}

/// Along the tile records from `p` while the position stays below `end`, every kind below
/// 256 that `m` replaces is stored in one byte.
pub open spec fn replaced_kinds_short(s: Seq<u8>, p: int, end: int, frame: Seq<u8>, m: Map<u16, u16>) -> bool
    decreases (if p < end { end - p } else { 0 }),
{
    if p >= end {
        true
    } else {
        match spec_tile_record(s, p, frame) {
            None => true,
            Some((t, qh, q)) => {
                proof {
                    lemma_tile_record_bounds(s, p, frame);
                }
                &&& (t.tile_type matches Some(tt) && m.contains_key(tt) && tt < 256 ==> (t.flag_1
                    & 32) == 0)
                &&& replaced_kinds_short(s, q, end, frame, m)
            }
        }
    }
}

/// Reading a tile record at `p` looks only at the record's own bytes and at the length of `s`.
proof fn lemma_tile_record_prefix(s1: Seq<u8>, s2: Seq<u8>, p: int, frame: Seq<u8>)
    requires
        spec_tile_record(s1, p, frame) is Some,
        s1.len() == s2.len(),
        forall|k: int|
            p <= k < spec_tile_record(s1, p, frame).unwrap().2 ==> #[trigger] s1[k] == s2[k],
    ensures
        spec_tile_record(s2, p, frame) == spec_tile_record(s1, p, frame),
{
    lemma_tile_record_bounds(s1, p, frame);
    let (t, qh, q) = spec_tile_record(s1, p, frame).unwrap();
    assert(s1[p] == s2[p]);
    if p + 1 < q {
        assert(s1[p + 1] == s2[p + 1]);
    }
    if p + 2 < q {
        assert(s1[p + 2] == s2[p + 2]);
    }
    if p + 3 < q {
        assert(s1[p + 3] == s2[p + 3]);
    }
    if p + 4 < q {
        assert(s1[p + 4] == s2[p + 4]);
    }
    assert(spec_tile_header(s2, p) == spec_tile_header(s1, p));
    lemma_tile_extras_frame(s1, s2, qh, t, frame);
}

/// Replacing at the same record in two byte sequences that agree from `p` on gives sequences
/// that agree from `p` on.
proof fn lemma_replace_agrees(s: Seq<u8>, out: Seq<u8>, p: int, frame: Seq<u8>, m: Map<u16, u16>)
    requires
        spec_tile_record(s, p, frame) is Some,
        out.len() == s.len(),
        forall|k: int| p <= k < s.len() ==> out[k] == s[k],
    ensures
        ({
            let (t, qh, q) = spec_tile_record(s, p, frame).unwrap();
            forall|k: int|
                p <= k < s.len() ==> #[trigger] spec_replace(out, t, qh, m)[k] == spec_replace(
                    s,
                    t,
                    qh,
                    m,
                )[k]
        }),
{
    lemma_tile_record_bounds(s, p, frame);
    let (t, qh, q) = spec_tile_record(s, p, frame).unwrap();
    if let Some(tt) = t.tile_type {
        if m.contains_key(tt) && tt >= 256 {
            let b = le_bytes(m[tt] as nat, 2);
            lemma_le_bytes_len(m[tt] as nat, 2);
            assert forall|k: int| p <= k < s.len() implies #[trigger] spec_replace(out, t, qh, m)[k]
                == spec_replace(s, t, qh, m)[k] by {
                if k < qh - 2 {
                    assert(splice(out, qh - 2, b)[k] == out.take(qh - 2)[k]);
                    assert(splice(s, qh - 2, b)[k] == s.take(qh - 2)[k]);
                } else if k < qh {
                    assert(splice(out, qh - 2, b)[k] == b[k - (qh - 2)]);
                    assert(splice(s, qh - 2, b)[k] == b[k - (qh - 2)]);
                } else {
                    assert(splice(out, qh - 2, b)[k] == out.skip(qh)[k - qh]);
                    assert(splice(s, qh - 2, b)[k] == s.skip(qh)[k - qh]);
                }
            }
        }
    }
}

/// After its kind is replaced by a settling replacement, a tile record reads with the same
/// bounds and with a kind that is not replaced again.
proof fn lemma_record_after_replace(s: Seq<u8>, p: int, frame: Seq<u8>, m: Map<u16, u16>)
    requires
        spec_tile_record(s, p, frame) is Some,
        replacements_settle(m, frame),
        ({
            let t = spec_tile_record(s, p, frame).unwrap().0;
            t.tile_type matches Some(tt) && m.contains_key(tt) && tt < 256 ==> (t.flag_1 & 32) == 0
        }),
    ensures
        ({
            let (t, qh, q) = spec_tile_record(s, p, frame).unwrap();
            let w = spec_replace(s, t, qh, m);
            &&& spec_tile_record(w, p, frame) matches Some((t2, qh2, q2))
            &&& qh2 == qh
            &&& q2 == q
            &&& !tile_replaced(t2, m)
        }),
{
    lemma_tile_record_bounds(s, p, frame);
    let (t, qh, q) = spec_tile_record(s, p, frame).unwrap();
    let w = spec_replace(s, t, qh, m);
    if let Some(tt) = t.tile_type {
        if m.contains_key(tt) {
            let v = m[tt];
            assert(((tt / 8) as int) < frame.len());
            let t2 = Tile { tile_type: Some(v), ..t };
            if tt < 256 {
                assert(w.len() == s.len());
                assert(spec_tile_header(w, p) == Some((t2, qh)));
            } else {
                reveal_with_fuel(le_bytes, 3);
                let b = le_bytes(v as nat, 2);
                assert(b[0] == v % 256 && b[1] == v / 256);
                assert(w[qh - 2] == b[0] && w[qh - 1] == b[1]) by {
                    assert(w[qh - 2] == splice(s, qh - 2, b)[qh - 2]);
                }
                assert forall|k: int| 0 <= k < qh - 2 implies #[trigger] w[k] == s[k] by {
                    assert(w[k] == s.take(qh - 2)[k]);
                }
                assert(w.len() == s.len());
                assert(spec_tile_header(w, p) == Some((t2, qh)));
            }
            lemma_tile_extras_frame(w, s, qh, t2, frame);
            assert(spec_tile_extras(s, qh, t2, frame) == spec_tile_extras(s, qh, t, frame));
        }
    }
}

/// The second walk over the bytes a first walk left: each record reads with the same bounds
/// and nothing is replaced.
proof fn lemma_second_walk(
    s: Seq<u8>,
    out: Seq<u8>,
    p: int,
    end: int,
    frame: Seq<u8>,
    m: Map<u16, u16>,
    u: Seq<u8>,
    x: Seq<u8>,
)
    requires
        0 <= p,
        out.len() == s.len(),
        u.len() == s.len(),
        forall|k: int| p <= k < s.len() ==> out[k] == s[k],
        spec_tiles(s, out, p, end, frame, m) is Some,
        replacements_settle(m, frame),
        replaced_kinds_short(s, p, end, frame, m),
        forall|k: int| p <= k < s.len() ==> #[trigger] u[k] == spec_tiles(s, out, p, end, frame, m).unwrap().0[k],
    ensures
        spec_tiles(u, x, p, end, frame, m) == Some(
            (x, 0nat, spec_tiles(s, out, p, end, frame, m).unwrap().2),
        ),
    decreases (if p < end { end - p } else { 0 }),
{
    if p < end {
        let (t, qh, q) = spec_tile_record(s, p, frame).unwrap();
        lemma_tile_record_bounds(s, p, frame);
        let out2 = spec_replace(out, t, qh, m);
        let o = spec_tiles(s, out2, q, end, frame, m).unwrap().0;
        lemma_replace_keeps_rest(s, out, p, frame, m);
        law_tiles_stay_in_section(s, out2, q, end, frame, m);
        lemma_replace_agrees(s, out, p, frame, m);
        let w = spec_replace(s, t, qh, m);
        lemma_record_after_replace(s, p, frame, m);
        lemma_replace_keeps_rest(s, s, p, frame, m);
        let (t2, qh2, q2) = spec_tile_record(w, p, frame).unwrap();
        assert forall|k: int| p <= k < q implies #[trigger] w[k] == u[k] by {
            assert(u[k] == o[k]);
            assert(o[k] == out2[k]);
        }
        lemma_tile_record_prefix(w, u, p, frame);
        assert forall|k: int| q <= k < s.len() implies out2[k] == s[k] by {
            assert(out2[k] == out[k]);
        }
        lemma_second_walk(s, out2, q, end, frame, m, u, x);
        assert(spec_replace(x, t2, qh, m) == x);
    }
}

/// Law: once the tile section has been walked, a second walk over the bytes it left replaces
/// nothing, leaves those bytes as they are and ends where the first ended, wherever the
/// replacements settle (`replacements_settle`) and every replaced kind below 256 is stored in
/// one byte.
pub proof fn law_tiles_second_pass(s: Seq<u8>, p: int, end: int, frame: Seq<u8>, m: Map<u16, u16>)
    requires
        0 <= p,
        spec_tiles(s, s, p, end, frame, m) is Some,
        replacements_settle(m, frame),
        replaced_kinds_short(s, p, end, frame, m),
    ensures
        ({
            let (o, c, e) = spec_tiles(s, s, p, end, frame, m).unwrap();
            spec_tiles(o, o, p, end, frame, m) == Some((o, 0nat, e))
        }),
{
    let (o, c, e) = spec_tiles(s, s, p, end, frame, m).unwrap();
    law_tiles_stay_in_section(s, s, p, end, frame, m);
    lemma_second_walk(s, s, p, end, frame, m, o, o);
}

/// Every kind that `m` replaces and that fits in the frame table `frame` maps to a kind that
/// fits in the table and has the same frame bit.
pub open spec fn replacements_keep_frame_bits(m: Map<u16, u16>, frame: Seq<u8>) -> bool {
    forall|k: u16|
        #[trigger] m.contains_key(k) && ((k / 8) as int) < frame.len() ==> ((m[k] / 8) as int)
            < frame.len() && frame_important(frame, m[k]) == frame_important(frame, k)
}

/// The replacements of `iterate_tiles` settle wherever they keep the frame bits: no
/// replacement is itself replaced, and the kinds below 256 map below 256.
pub proof fn lemma_tile_replacements_settle(frame: Seq<u8>)
    requires
        replacements_keep_frame_bits(spec_tile_replacements(), frame),
    ensures
        replacements_settle(spec_tile_replacements(), frame),
{
    let m = spec_tile_replacements();
    assert forall|k: u16| #[trigger] m.contains_key(k) && ((k / 8) as int) < frame.len() implies {
        &&& !m.contains_key(m[k])
        &&& m[k] < 10000
        &&& (k < 256 ==> m[k] < 256)
        &&& ((m[k] / 8) as int) < frame.len()
        &&& frame_important(frame, m[k]) == frame_important(frame, k)
    } by {
        assert(m[k] == 53 || m[k] == 2 || m[k] == 161 || m[k] == 1 || m[k] == 397 || m[k] == 396);
        assert(k < 256 ==> m[k] < 256);
        assert(!m.contains_key(53) && !m.contains_key(2) && !m.contains_key(161) && !m.contains_key(1)
            && !m.contains_key(397) && !m.contains_key(396));
    }
}

impl Tile {
    /// Reads the leading part of the tile record at the world's position and moves past it.
    pub fn new(world: &mut World) -> (r: Tile)
        requires
            spec_tile_header(old(world).bytes(), old(world).pos() as int) is Some,
        ensures
            spec_tile_header(old(world).bytes(), old(world).pos() as int) == Some(
                (r, final(world).pos() as int),
            ),
            final(world).bytes() == old(world).bytes(),
            final(world).header == old(world).header,
    {
        let ghost s = world.bytes();
        let ghost p = world.pos() as int;
        let flag_1 = world.tfile_reader.read_byte();
        let mut flag_2: Option<u8> = None;
        let mut flag_3: Option<u8> = None;
        let mut tile_type: Option<u16> = None;
        let second_flag_present = (flag_1 & 1) != 0;
        if second_flag_present {
            flag_2 = Some(world.tfile_reader.read_byte());
            let third_flag_present = (flag_2.unwrap() & 1) != 0;
            if third_flag_present {
                flag_3 = Some(world.tfile_reader.read_byte());
            }
        }
        let block_has_tile_type = (flag_1 & 2) != 0;
        if block_has_tile_type {
            let block_is_two_bytes = (flag_1 & 32) != 0;
            if block_is_two_bytes {
                let mut tile_bytes: [u8; 2] = [0; 2];
                world.tfile_reader.read_multiple_bytes(&mut tile_bytes);
                let tt = tile_bytes[0] as u16 + 256 * tile_bytes[1] as u16;
                tile_type = Some(tt);
            } else {
                let convert_tt = world.tfile_reader.read_byte();
                let convert_tt = convert_tt as u16;
                tile_type = Some(convert_tt);
            }
        }
        Tile { flag_1, flag_2, flag_3, tile_type }
    }
}

/// A world file: a cursor over its bytes and its header.
pub struct World {
    pub tfile_reader: TFileReader,
    pub header: Header,
}

impl World {
    /// The file's bytes.
    pub open spec fn bytes(&self) -> Seq<u8> {
        self.tfile_reader.bytes()
    }

    /// The cursor's position.
    pub open spec fn pos(&self) -> nat {
        self.tfile_reader.pos()
    }

    /// The tile-frame-important table.
    pub open spec fn frame(&self) -> Seq<u8> {
        self.header.tile_frame_important@
    }

    /// Reads the header of the world file `bytes`; the cursor is left just past its 70 bytes.
    /// The tile-frame-important table is read, without moving the cursor, from the bit count
    /// that follows the header (it is empty where it does not fit in the file).
    pub fn new(bytes: Vec<u8>) -> (r: World)
        requires
            header_readable(bytes@, 0),
        ensures
            r.bytes() == bytes@,
            r.pos() == 70,
            r.header.read_from(bytes@, 0),
            r.frame() == frame_table(bytes@, 70),
    {
        let mut tfile_reader = TFileReader::new(bytes);
        let mut header = Header::new(&mut tfile_reader);
        header.tile_frame_important = Header::read_frame_table(tfile_reader.get_file(), 70);
        World { tfile_reader, header }
    }

    /// Where the tile section starts: the tiles pointer.
    pub open spec fn tiles_start(&self) -> int {
        (self.header.array_of_pointers.tiles as usize) as int
    }

    /// Where the tile section ends: the chests pointer.
    pub open spec fn tiles_end(&self) -> int {
        (self.header.array_of_pointers.chests as usize) as int
    }

    /// The tile section read with `spec_tile_replacements`: the rewritten bytes, the number
    /// of replaced tiles, and where the last record ends.
    pub open spec fn tile_section(&self) -> Option<(Seq<u8>, nat, int)> {
        spec_tiles(
            self.bytes(),
            self.bytes(),
            self.tiles_start(),
            self.tiles_end(),
            self.frame(),
            spec_tile_replacements(),
        )
    }

    /// The tile section can be read, and the number of replaced tiles fits in a `u32`.
    pub open spec fn tile_section_ok(&self) -> bool {
        &&& self.tiles_start() < self.bytes().len()
        &&& self.tile_section() matches Some((_, c, _)) && c <= u32::MAX
    }

    /// Law: `iterate_tiles` run a second time on the bytes that the first run left (with the
    /// header unchanged) can run, replaces nothing, leaves the bytes as they are and ends where
    /// the first ended; wherever the replacements keep the frame bits of the world's table and
    /// every replaced kind below 256 is stored in one byte.
    pub proof fn law_iterate_tiles_twice(w: World)
        requires
            w.tile_section_ok(),
            replacements_keep_frame_bits(spec_tile_replacements(), w.frame()),
            replaced_kinds_short(
                w.bytes(),
                w.tiles_start(),
                w.tiles_end(),
                w.frame(),
                spec_tile_replacements(),
            ),
        ensures
            ({
                let (o, c, e) = w.tile_section().unwrap();
                &&& w.tiles_start() < o.len()
                &&& spec_tiles(
                    o,
                    o,
                    w.tiles_start(),
                    w.tiles_end(),
                    w.frame(),
                    spec_tile_replacements(),
                ) == Some((o, 0nat, e))
            }),
    {
        lemma_tile_replacements_settle(w.frame());
        law_tiles_stay_in_section(
            w.bytes(),
            w.bytes(),
            w.tiles_start(),
            w.tiles_end(),
            w.frame(),
            spec_tile_replacements(),
        );
        law_tiles_second_pass(
            w.bytes(),
            w.tiles_start(),
            w.tiles_end(),
            w.frame(),
            spec_tile_replacements(),
        );
    }

    /// Whether `iterate_tiles` can run on this world.
    pub fn tile_section_is_readable(&self) -> (r: bool)
        ensures
            r == self.tile_section_ok(),
    {
        let s = self.tfile_reader.get_file();
        let frame = &self.header.tile_frame_important;
        let start = self.header.array_of_pointers.tiles as usize;
        let end = self.header.array_of_pointers.chests as usize;
        if start >= s.len() {
            return false;
        }
        let replacements = tile_replacements();
        let ghost m = spec_tile_replacements();
        let ghost whole = spec_tiles(s@, s@, start as int, end as int, frame@, m);
        assert(whole == self.tile_section());
        let mut p = start;
        let mut count: u64 = 0;
        while p < end
            invariant
                s@ == self.bytes(),
                frame@ == self.frame(),
                replacements@ == m,
                whole == spec_tiles(s@, s@, start as int, end as int, frame@, m),
                whole == self.tile_section(),
                (start as int) < s@.len(),
                p <= s@.len(),
                count <= u32::MAX,
                whole is Some <==> spec_tiles(s@, s@, p as int, end as int, frame@, m) is Some,
                whole is Some ==> whole.unwrap().1 == count + spec_tiles(
                    s@,
                    s@,
                    p as int,
                    end as int,
                    frame@,
                    m,
                ).unwrap().1,
            decreases s@.len() - p,
        {
            match scan_tile_record(s, p, frame) {
                None => {
                    assert(spec_tiles(s@, s@, p as int, end as int, frame@, m) is None);
                    return false;
                },
                Some((t, qh, q)) => {
                    proof {
                        lemma_tile_record_bounds(s@, p as int, frame@);
                        lemma_tiles_out_irrelevant(
                            s@,
                            spec_replace(s@, t, qh as int, m),
                            s@,
                            q as int,
                            end as int,
                            frame@,
                            m,
                        );
                    }
                    let replaced = match t.tile_type {
                        Some(tt) => replacements.contains_key(&tt),
                        None => false,
                    };
                    if replaced {
                        count = count + 1;
                        if count > 0xffff_ffff {
                            return false;
                        }
                    }
                    p = q;
                },
            }
        }
        true
    }

    /// Replaces the corruption, crimson and hallow blocks of the tile section by their pure
    /// counterparts (`spec_tile_replacements`), reading tile records from the tiles pointer
    /// while the position is below the chests pointer; returns how many tiles were replaced.
    pub fn iterate_tiles(&mut self) -> (r: u32)
        requires
            old(self).tile_section_ok(),
        ensures
            ({
                let (o, c, e) = old(self).tile_section().unwrap();
                &&& final(self).bytes() == o
                &&& r == c
                &&& final(self).pos() == e
            }),
            final(self).header == old(self).header,
    {
        let mut running_total: u32 = 0;
        self.tfile_reader.move_to_position(self.header.array_of_pointers.tiles as usize);
        let tile_replacements = tile_replacements();
        let end = self.header.array_of_pointers.chests as usize;
        let ghost s0 = self.bytes();
        let ghost m = spec_tile_replacements();
        let ghost h0 = self.header;
        let ghost fin = old(self).tile_section().unwrap().0;
        let ghost total = old(self).tile_section().unwrap().1;
        let ghost fe = old(self).tile_section().unwrap().2;
        while self.tfile_reader.get_position() < end
            invariant
                self.header == h0,
                h0 == old(self).header,
                end == old(self).tiles_end(),
                tile_replacements@ == m,
                m == spec_tile_replacements(),
                s0 == old(self).bytes(),
                self.bytes().len() == s0.len(),
                self.pos() <= s0.len(),
                forall|k: int| self.pos() <= k < s0.len() ==> self.bytes()[k] == s0[k],
                spec_tiles(s0, self.bytes(), self.pos() as int, end as int, self.frame(), m) == Some(
                    (fin, (total - running_total) as nat, fe),
                ),
                running_total <= total <= u32::MAX,
            decreases s0.len() - self.pos(),
        {
            let ghost cur = self.bytes();
            let ghost p = self.pos() as int;
            proof {
                lemma_tile_record_frame(s0, cur, p, self.frame());
                lemma_tile_record_bounds(s0, p, self.frame());
                lemma_replace_keeps_rest(s0, cur, p, self.frame(), m);
            }
            let count = self.read_tile(&tile_replacements);
            running_total = running_total + count;
        }
        running_total
    }

    /// Where the world's name lies: the header pointer.
    pub open spec fn name_pos(&self) -> int {
        (self.header.array_of_pointers.header as usize) as int
    }

    /// The world's name: the length-prefixed UTF-8 string at the header pointer.
    pub open spec fn spec_world_name(&self) -> Seq<char> {
        decode_utf8(string_at(self.bytes(), self.name_pos()))
    }

    /// The world's name can be read, and the cursor can be put back where it is.
    pub open spec fn name_readable(&self) -> bool {
        &&& string_readable(self.bytes(), self.name_pos())
        &&& self.pos() < self.bytes().len()
    }

    /// Whether `world_name` can run on this world.
    pub fn name_is_readable(&self) -> (r: bool)
        ensures
            r == self.name_readable(),
    {
        let s = self.tfile_reader.get_file();
        let hp = self.header.array_of_pointers.header as usize;
        if hp >= s.len() {
            return false;
        }
        let n = s[hp] as usize;
        if s.len() - hp - 1 < n {
            return false;
        }
        let pos = self.tfile_reader.position();
        if pos >= s.len() {
            return false;
        }
        let slice = vstd::slice::slice_subrange(s.as_slice(), hp + 1, hp + 1 + n);
        crate::tfilereader::utf8_is_valid(slice)
    }

    /// Moves each pointer after section `area_added_to` by `bytes_added` and writes them back
    /// into the pointer array, one after the other from the slot right after the header's
    /// pointer; the position does not change.
    pub fn update_file_pointers(&mut self, bytes_added: i32, area_added_to: FilePointerArray)
        requires
            old(self).header.array_start_address + 4 + 4 * (10 - area_added_to.slot())
                <= old(self).bytes().len(),
            pointers_can_shift(
                old(self).header.array_of_pointers,
                area_added_to.slot(),
                bytes_added as int,
            ),
            old(self).pos() < old(self).bytes().len(),
        ensures
            final(self).bytes() == splice(
                old(self).bytes(),
                old(self).header.array_start_address + 4,
                pointer_block(
                    old(self).header.array_of_pointers,
                    area_added_to.slot() + 1,
                    bytes_added as int,
                ),
            ),
            final(self).pos() == old(self).pos(),
            pointers_shifted(
                old(self).header.array_of_pointers,
                final(self).header.array_of_pointers,
                area_added_to.slot(),
                bytes_added as int,
            ),
            same_but_pointers(old(self).header, final(self).header),
    {
        let area_added_to = area_added_to.number();
        let pos = self.tfile_reader.get_position();
        let start = self.header.array_start_address;
        self.tfile_reader.move_to_position(start);
        self.tfile_reader.read_int_32();
        let ghost s0 = self.bytes();
        let ghost p0 = self.header.array_of_pointers;
        let ghost h0 = self.header;
        let ghost area = area_added_to as int;
        let ghost added = bytes_added as int;
        let mut k: usize = area_added_to as usize + 1;
        proof {
            lemma_pointer_block_len(p0, k as int, added);
        }
        while k < 11
            invariant
                0 <= area <= 10,
                area == area_added_to as int,
                added == bytes_added as int,
                area + 1 <= k <= 11,
                start == h0.array_start_address,
                start + 4 + 4 * (10 - area) <= s0.len(),
                self.pos() == start + 4 + 4 * (k - area - 1),
                self.bytes().len() == s0.len(),
                splice(self.bytes(), self.pos() as int, pointer_block(p0, k as int, added))
                    == splice(s0, start + 4, pointer_block(p0, area + 1, added)),
                forall|j: int|
                    0 <= j < 11 ==> #[trigger] self.header.array_of_pointers.get(j) == if area < j
                        < k {
                        p0.get(j) + added
                    } else {
                        p0.get(j) as int
                    },
                pointers_can_shift(p0, area, added),
                same_but_pointers(h0, self.header),
            decreases 11 - k,
        {
            let ghost before = self.bytes();
            let ghost at = self.pos() as int;
            assert(i32::MIN <= p0.get(k as int) + added <= i32::MAX);
            assert(self.header.array_of_pointers.get(k as int) == p0.get(k as int));
            let ghost ptrs_before = self.header.array_of_pointers;
            let v = self.header.array_of_pointers.get_at(k) + bytes_added;
            self.header.array_of_pointers.set_at(k, v);
            self.tfile_reader.write_int_32(v);
            proof {
                lemma_le_bytes_len(to_unsigned(v as int, 4), 4);
                lemma_pointer_block_len(p0, k + 1, added);
                lemma_splice_concat(
                    before,
                    at,
                    le_bytes(to_unsigned(v as int, 4), 4),
                    pointer_block(p0, k + 1, added),
                );
                assert(pointer_block(p0, k as int, added) == le_bytes(to_unsigned(v as int, 4), 4)
                    + pointer_block(p0, k + 1, added));
                assert forall|j: int| 0 <= j < 11 implies #[trigger] self.header.array_of_pointers.get(j)
                    == if area < j < k + 1 {
                    p0.get(j) + added
                } else {
                    p0.get(j) as int
                } by {
                    assert(ptrs_before.get(j) == if area < j < k {
                        p0.get(j) + added
                    } else {
                        p0.get(j) as int
                    });
                }
            }
            k = k + 1;
        }
        proof {
            assert(splice(self.bytes(), self.pos() as int, pointer_block(p0, 11, added))
                =~= self.bytes());
        }
        self.tfile_reader.move_to_position(pos);
    }

    /// The world's name.
    pub fn world_name(&mut self) -> (r: String)
        requires
            old(self).name_readable(),
        ensures
            r@ == old(self).spec_world_name(),
            final(self).bytes() == old(self).bytes(),
            final(self).pos() == old(self).pos(),
            final(self).header == old(self).header,
    {
        let pos = self.tfile_reader.get_position();
        self.tfile_reader.move_to_position(self.header.array_of_pointers.header as usize);
        let name = self.tfile_reader.read_string().to_string();
        self.tfile_reader.move_to_position(pos);
        name
    }

    /// This world can be renamed to `name` (its bytes `nb`).
    pub open spec fn rename_ok(&self, nb: Seq<u8>) -> bool {
        rename_fits(
            self.bytes(),
            self.header.array_of_pointers,
            self.header.array_start_address as int,
            self.name_pos(),
            self.pos() as int,
            nb,
        )
    }

    /// Whether `change_world_name` can rename this world to `new_name`.
    pub fn can_rename_to(&self, new_name: &str) -> (r: bool)
        ensures
            r == self.rename_ok(new_name.spec_bytes()),
    {
        if !self.name_is_readable() {
            return false;
        }
        let s = self.tfile_reader.get_file();
        let hp = self.header.array_of_pointers.header as usize;
        let len = s.len() as u128;
        let n = s[hp] as u128;
        let m = new_name.as_bytes().len() as u128;
        if m >= 256 || hp as u128 + 1 + n >= len {
            return false;
        }
        let len1 = len - n + m;
        let start = self.header.array_start_address as u128;
        let pos = self.tfile_reader.position() as u128;
        if start + 44 > len1 || len1 < 5 + n || pos >= len1 - n + m {
            return false;
        }
        let added = m as i64 - n as i64;
        let mut k: usize = 1;
        while k < 11
            invariant
                1 <= k <= 11,
                -256 < added < 256,
                s@ == self.bytes(),
                hp as int == self.name_pos(),
                added == new_name.spec_bytes().len() - s@[hp as int],
                forall|j: int|
                    0 < j < k ==> i32::MIN <= #[trigger] self.header.array_of_pointers.get(j)
                        + added <= i32::MAX,
            decreases 11 - k,
        {
            let v = self.header.array_of_pointers.get_at(k) as i64 + added;
            if v < i32::MIN as i64 || v > i32::MAX as i64 {
                assert(!(i32::MIN <= self.header.array_of_pointers.get(k as int) + added
                    <= i32::MAX));
                return false;
            }
            k = k + 1;
        }
        true
    }

    /// Renames the world to `new_name`: rewrites the name at the header pointer, moves the
    /// pointers after it by the change of length, and rewrites the copy of the name that ends
    /// 4 bytes before the end of the file. The position does not change.
    pub fn change_world_name(&mut self, new_name: &str)
        requires
            old(self).rename_ok(new_name.spec_bytes()),
        ensures
            final(self).bytes() == renamed_bytes(
                old(self).bytes(),
                old(self).header.array_of_pointers,
                old(self).header.array_start_address as int,
                old(self).name_pos(),
                new_name.spec_bytes(),
            ),
            final(self).pos() == old(self).pos(),
            pointers_shifted(
                old(self).header.array_of_pointers,
                final(self).header.array_of_pointers,
                0,
                new_name.spec_bytes().len() - old(self).bytes()[old(self).name_pos()],
            ),
            same_but_pointers(old(self).header, final(self).header),
            final(self).name_pos() == old(self).name_pos(),
            old(self).header.array_start_address + 44 <= old(self).name_pos()
                && old(self).name_pos() + 6 + 2 * old(self).bytes()[old(self).name_pos()]
                <= old(self).bytes().len() ==> final(self).name_readable()
                && final(self).spec_world_name() == new_name@,
    {
        let ghost s = self.bytes();
        let ghost hp = self.name_pos();
        let ghost n = s[hp] as nat;
        let ghost p0 = self.header.array_of_pointers;
        let pos = self.tfile_reader.get_position();
        let old_name = self.world_name();
        let new_name_bytes = new_name.as_bytes();
        self.tfile_reader.move_to_position(self.header.array_of_pointers.header as usize);
        self.tfile_reader.write_string_unknown_len(new_name_bytes);
        let old_len = old_name.as_str().len();
        proof {
            decode_utf8_encode_utf8(string_at(s, hp));
            assert(old_len == n);
        }
        self.update_file_pointers(
            new_name_bytes.len() as i32 - old_len as i32,
            FilePointerArray::Header,
        );
        let file_len = self.tfile_reader.get_file_len();
        self.tfile_reader.move_to_position(file_len - (4 + old_len));
        self.tfile_reader.write_string_known_len(new_name_bytes, old_len);
        self.tfile_reader.move_to_position(pos);
        proof {
            assert(self.header.array_of_pointers.get(0) == p0.get(0));
            if self.header.array_start_address + 44 <= hp && hp + 6 + 2 * n <= s.len() {
                law_rename_then_read(
                    s,
                    p0,
                    self.header.array_start_address as int,
                    hp,
                    pos as int,
                    new_name@,
                );
            }
        }
    }

    /// Moves past the rest of the tile record whose leading part `tile` ends at the position.
    fn skip_tile_extras(&mut self, tile: &Tile)
        requires
            spec_tile_extras(old(self).bytes(), old(self).pos() as int, *tile, old(self).frame())
                is Some,
        ensures
            final(self).pos() == spec_tile_extras(
                old(self).bytes(),
                old(self).pos() as int,
                *tile,
                old(self).frame(),
            ).unwrap(),
            final(self).bytes() == old(self).bytes(),
            final(self).header == old(self).header,
    {
        match tile.tile_type {
            Some(tile_type) => {
                let byte_position = tile_type / 8;
                let bit_position = tile_type % 8;
                let is_tile_frame_important = (self.header.tile_frame_important[byte_position as usize]
                    & (1u8 << (bit_position as u8))) != 0;
                if is_tile_frame_important {
                    let _frame_x = self.tfile_reader.read_int_16();
                    let _frame_y = self.tfile_reader.read_int_16();
                }
                match tile.flag_3 {
                    Some(flag_3) => {
                        if (flag_3 & 8) != 0 {
                            let _paint_of_tile = self.tfile_reader.read_byte();
                        }
                    },
                    None => {},
                }
            },
            None => {},
        }
        if (tile.flag_1 & 4) != 0 {
            let _type_of_wall = self.tfile_reader.read_byte();
            match tile.flag_3 {
                Some(flag_3) => {
                    if (flag_3 & 16) != 0 {
                        let _paint_of_wall = self.tfile_reader.read_byte();
                    }
                },
                None => {},
            }
        }
        if (tile.flag_1 & 24) != 0 {
            let _volume_of_liquid = self.tfile_reader.read_byte();
        }
        let rle = (tile.flag_1 & 192) >> 6;
        if rle == 0 {
        } else if rle == 1 {
            let _rle_lsb = self.tfile_reader.read_byte();
        } else if rle == 2 {
            let _rle_msb = self.tfile_reader.read_int_16();
        } else {
            proof {
                assert(false);
            }
        }
    }

    /// Reads the tile record at the position and moves past it; where `replacement_map` maps
    /// the tile's kind, writes the replacement over the kind's bytes and returns 1, else 0.
    pub fn read_tile(&mut self, replacement_map: &HashMap<u16, u16>) -> (r: u32)
        requires
            spec_tile_record(old(self).bytes(), old(self).pos() as int, old(self).frame()) is Some,
        ensures
            ({
                let (t, qh, q) = spec_tile_record(
                    old(self).bytes(),
                    old(self).pos() as int,
                    old(self).frame(),
                ).unwrap();
                &&& final(self).bytes() == spec_replace(old(self).bytes(), t, qh, replacement_map@)
                &&& final(self).pos() == q
                &&& r == if tile_replaced(t, replacement_map@) {
                    1u32
                } else {
                    0u32
                }
            }),
            final(self).header == old(self).header,
    {
        let ghost s = self.bytes();
        let ghost p = self.pos() as int;
        proof {
            lemma_tile_record_bounds(s, p, self.frame());
        }
        let tile = Tile::new(self);
        let mut count: u32 = 0;
        match tile.tile_type {
            Some(tile_type) => {
                if tile_type < 256 {
                    if replacement_map.contains_key(&tile_type) {
                        let v = *replacement_map.get(&tile_type).unwrap();
                        self.tfile_reader.replace_byte((v % 256) as u8);
                        count += 1;
                    }
                } else {
                    if replacement_map.contains_key(&tile_type) {
                        let v = *replacement_map.get(&tile_type).unwrap();
                        let mut replacement: Vec<u8> = Vec::new();
                        replacement.push((v % 256) as u8);
                        replacement.push((v / 256) as u8);
                        proof {
                            reveal_with_fuel(le_bytes, 3);
                            assert(replacement@ =~= le_bytes(v as nat, 2));
                        }
                        self.tfile_reader.replace_bytes(replacement.as_slice());
                        count += 1;
                    }
                }
            },
            None => {},
        }
        proof {
            lemma_replace_keeps_rest(s, s, p, self.frame(), replacement_map@);
            let (t, qh, q) = spec_tile_record(s, p, self.frame()).unwrap();
            lemma_tile_extras_frame(s, self.bytes(), qh, t, self.frame());
        }
        self.skip_tile_extras(&tile);
        count
    }
}

/// Law: the replacement table of `iterate_tiles` maps each corruption, crimson and hallow
/// block to its pure counterpart, and replaces nothing else: ebonsand, pearlsand and crimsand
/// (112, 116, 234) become sand (53); corrupt, hallowed and crimson grass (23, 109, 199) become
/// grass (2); purple, pink and red ice (163, 164, 200) become ice (161); ebonstone, pearlstone
/// and crimstone (25, 117, 203) become stone (1); hardened ebonsand, pearlsand and crimsand
/// (398, 402, 399) become hardened sand (397); ebonsandstone, pearlsandstone and
/// crimsandstone (400, 403, 401) become sandstone (396).
pub proof fn law_replacement_table()
    ensures
        spec_tile_replacements().dom() =~= set![
            112u16, 116u16, 234u16, 23u16, 109u16, 199u16, 163u16, 164u16, 200u16,
            25u16, 117u16, 203u16, 398u16, 402u16, 399u16, 400u16, 403u16, 401u16
        ],
        spec_tile_replacements()[112] == 53,
        spec_tile_replacements()[116] == 53,
        spec_tile_replacements()[234] == 53,
        spec_tile_replacements()[23] == 2,
        spec_tile_replacements()[109] == 2,
        spec_tile_replacements()[199] == 2,
        spec_tile_replacements()[163] == 161,
        spec_tile_replacements()[164] == 161,
        spec_tile_replacements()[200] == 161,
        spec_tile_replacements()[25] == 1,
        spec_tile_replacements()[117] == 1,
        spec_tile_replacements()[203] == 1,
        spec_tile_replacements()[398] == 397,
        spec_tile_replacements()[402] == 397,
        spec_tile_replacements()[399] == 397,
        spec_tile_replacements()[400] == 396,
        spec_tile_replacements()[403] == 396,
        spec_tile_replacements()[401] == 396,
{
}

/// Law: once a tile's kind `k` has been replaced through `m` (with `m[k]` below 10000, and,
/// for `k` below 256, `m[k]` below 256 and `k` stored in one byte), the record's leading part
/// reads back with kind `m[k]`, the same flags and the same end.
pub proof fn law_replaced_tile_reads_as_replacement(s: Seq<u8>, p: int, frame: Seq<u8>, m: Map<u16, u16>)
    requires
        spec_tile_record(s, p, frame) is Some,
        ({
            let t = spec_tile_record(s, p, frame).unwrap().0;
            &&& t.tile_type matches Some(k)
            &&& m.contains_key(k)
            &&& m[k] < 10000
            &&& k < 256 ==> m[k] < 256 && (t.flag_1 & 32) == 0
        }),
    ensures
        ({
            let (t, qh, q) = spec_tile_record(s, p, frame).unwrap();
            let k = t.tile_type.unwrap();
            spec_tile_header(spec_replace(s, t, qh, m), p) == Some(
                (Tile { tile_type: Some(m[k]), ..t }, qh),
            )
        }),
{
    lemma_tile_record_bounds(s, p, frame);
    let (t, qh, q) = spec_tile_record(s, p, frame).unwrap();
    let w = spec_replace(s, t, qh, m);
    let tt = t.tile_type.unwrap();
    let v = m[tt];
    let t2 = Tile { tile_type: Some(v), ..t };
    if tt < 256 {
        assert(spec_tile_header(w, p) == Some((t2, qh)));
    } else {
        reveal_with_fuel(le_bytes, 3);
        let b = le_bytes(v as nat, 2);
        assert(b[0] == v % 256 && b[1] == v / 256);
        assert(w[qh - 2] == b[0] && w[qh - 1] == b[1]) by {
            assert(w[qh - 2] == splice(s, qh - 2, b)[qh - 2]);
        }
        assert forall|k: int| 0 <= k < qh - 2 implies #[trigger] w[k] == s[k] by {
            assert(w[k] == s.take(qh - 2)[k]);
        }
        assert(spec_tile_header(w, p) == Some((t2, qh)));
    }
}

/// Law: the leading part of a tile record at `p`: the first flag byte is `s[p]` and not 255;
/// a second flag byte follows exactly when bit 0 of the first is set, and a third exactly
/// when the second is there with bit 0 set; then, exactly when bit 1 of the first flag is set,
/// the kind follows: two little-endian bytes below 10000 when bit 5 is set (which must end
/// strictly before the end of `s`), else one byte; the part ends right after.
pub proof fn law_tile_header_layout(s: Seq<u8>, p: int)
    requires
        spec_tile_header(s, p) is Some,
    ensures
        ({
            let (t, qh) = spec_tile_header(s, p).unwrap();
            let n2: int = if t.flag_2 is Some { 1 } else { 0 };
            let n3: int = if t.flag_3 is Some { 1 } else { 0 };
            let k = p + 1 + n2 + n3;
            &&& 0 <= p < s.len()
            &&& t.flag_1 == s[p]
            &&& t.flag_1 != 255
            &&& (t.flag_2 is Some <==> (t.flag_1 & 1) != 0)
            &&& (t.flag_2 is Some ==> t.flag_2 == Some(s[p + 1]))
            &&& (t.flag_3 is Some <==> (t.flag_2 matches Some(f2) && (f2 & 1) != 0))
            &&& (t.flag_3 is Some ==> t.flag_3 == Some(s[p + 2]))
            &&& (t.tile_type is Some <==> (t.flag_1 & 2) != 0)
            &&& (t.tile_type is None ==> qh == k)
            &&& (t.tile_type is Some && (t.flag_1 & 32) != 0 ==> {
                &&& k + 2 < s.len()
                &&& t.tile_type.unwrap() == s[k] + 256 * s[k + 1]
                &&& t.tile_type.unwrap() < 10000
                &&& qh == k + 2
            })
            &&& (t.tile_type is Some && (t.flag_1 & 32) == 0 ==> {
                &&& t.tile_type.unwrap() == s[k]
                &&& qh == k + 1
            })
        }),
{
}

/// Law: the run length at the end of a tile record: bits 6 and 7 of the first flag give a code
/// that is never 3; with that code cleared, the same record reads with the same leading part
/// and ends 1 byte earlier for code 1, 2 bytes earlier for code 2, and at the same place for
/// code 0.
pub proof fn law_run_length_field(s: Seq<u8>, p: int, frame: Seq<u8>)
    requires
        spec_tile_record(s, p, frame) is Some,
    ensures
        ({
            let (t, qh, q) = spec_tile_record(s, p, frame).unwrap();
            let code = (t.flag_1 & 192) >> 6;
            let cleared = s.update(p, s[p] & 63);
            &&& code != 3
            &&& spec_tile_record(cleared, p, frame) matches Some((t0, qh0, q0))
            &&& t0 == Tile { flag_1: s[p] & 63, ..t }
            &&& qh0 == qh
            &&& q == q0 + if code == 1 {
                1int
            } else if code == 2 {
                2int
            } else {
                0int
            }
        }),
{
    lemma_tile_record_bounds(s, p, frame);
    let (t, qh, q) = spec_tile_record(s, p, frame).unwrap();
    let f = s[p];
    let g = f & 63;
    assert(g & 1 == f & 1 && g & 2 == f & 2 && g & 4 == f & 4 && g & 24 == f & 24 && g & 32
        == f & 32 && (g & 192) >> 6 == 0 && g != 255 && (f & 192) >> 6 <= 3) by (bit_vector)
        requires
            g == f & 63,
    ;
    let cleared = s.update(p, g);
    let t0 = Tile { flag_1: g, ..t };
    assert(spec_tile_flags(cleared, g, p + 1) == spec_tile_flags(s, f, p + 1));
    assert(spec_tile_type(cleared, g, p + 1 + (if t.flag_2 is Some { 1int } else { 0 }) + (
    if t.flag_3 is Some { 1int } else { 0 })) == spec_tile_type(
        s,
        f,
        p + 1 + (if t.flag_2 is Some { 1int } else { 0 }) + (if t.flag_3 is Some { 1int } else { 0 }),
    ));
    assert(spec_tile_header(cleared, p) == Some((t0, qh)));
    lemma_tile_extras_frame(cleared, s, qh, t0, frame);
}

impl FilePointerArray {
    /// This section's pointer among `ptrs`, chosen by its name.
    pub open spec fn pointer_in(self, ptrs: FilePointers) -> i32 {
        match self {
            FilePointerArray::Header => ptrs.header,
            FilePointerArray::Tiles => ptrs.tiles,
            FilePointerArray::Chests => ptrs.chests,
            FilePointerArray::Signs => ptrs.signs,
            FilePointerArray::Npc => ptrs.npc,
            FilePointerArray::Entities => ptrs.entities,
            FilePointerArray::Footer => ptrs.footer,
            FilePointerArray::Unknown1 => ptrs.unknown_1,
            FilePointerArray::Unknown2 => ptrs.unknown_2,
            FilePointerArray::Unknown3 => ptrs.unknown_3,
            FilePointerArray::Unknown4 => ptrs.unknown_4,
        }
    }
}

/// Law: a section's place in the pointer array is the place of the pointer named after it, and
/// each place holds one section.
pub proof fn law_slot_names_the_pointer(a: FilePointerArray, b: FilePointerArray, ptrs: FilePointers)
    ensures
        0 <= a.slot() <= 10,
        ptrs.get(a.slot()) == a.pointer_in(ptrs),
        a.slot() == b.slot() ==> a == b,
{
}

/// Law: moving the pointers after section `a` moves the pointer of every section that comes
/// later in the file by `added` and keeps the others: after the chests, the signs pointer moves.
pub proof fn law_shift_moves_later_sections(
    old: FilePointers,
    new: FilePointers,
    a: FilePointerArray,
    added: int,
)
    requires
        pointers_shifted(old, new, a.slot(), added),
    ensures
        a.pointer_in(new) == a.pointer_in(old),
        FilePointerArray::Header.pointer_in(new) == FilePointerArray::Header.pointer_in(old),
        FilePointerArray::Unknown4.pointer_in(new) == FilePointerArray::Unknown4.pointer_in(old) + if a
            == FilePointerArray::Unknown4 {
            0
        } else {
            added
        },
        a == FilePointerArray::Chests ==> new.signs == old.signs + added && new.tiles == old.tiles,
        a == FilePointerArray::Tiles ==> new.chests == old.chests + added,
        a == FilePointerArray::Header ==> new.tiles == old.tiles + added,
{
    assert(new.get(a.slot()) == old.get(a.slot()) as int);
    assert(new.get(0) == old.get(0) as int);
    assert(new.get(10) == if 10 > a.slot() { old.get(10) + added } else { old.get(10) as int });
    assert(new.get(1) == if 1 > a.slot() { old.get(1) + added } else { old.get(1) as int });
    assert(new.get(2) == if 2 > a.slot() { old.get(2) + added } else { old.get(2) as int });
    assert(new.get(3) == if 3 > a.slot() { old.get(3) + added } else { old.get(3) as int });
}

} // verus!
