//! A cursor over the bytes of a world file: little-endian reads, in-place writes,
//! and length-prefixed strings that may change the file's length.
use crate::bytes::{
    field, int_at, le_bytes, le_value, lemma_le_bytes_len, lemma_le_value_bound, lemma_pow256_mono,
    lemma_pow256_values, pow256, splice, to_unsigned, uint_at,
};
use vstd::prelude::*;
use vstd::slice::slice_subrange;
use vstd::string::StringSliceAdditionalSpecFns;
use vstd::utf8::*;

verus! {

/// The bytes of a length-prefixed string whose length byte is at `p`.
pub open spec fn string_at(s: Seq<u8>, p: int) -> Seq<u8> {
    s.subrange(p + 1, p + 1 + s[p])
}

/// A length-prefixed string at `p` lies inside `s` and is valid UTF-8.
pub open spec fn string_readable(s: Seq<u8>, p: int) -> bool {
    &&& 0 <= p < s.len()
    &&& p + 1 + s[p] <= s.len()
    &&& valid_utf8(string_at(s, p))
}

/// `s` with the length-prefixed string whose length byte is at `at` (and whose old body
/// has `old_len` bytes) replaced by `new`, prefixed by its length.
pub open spec fn with_string(s: Seq<u8>, at: int, new: Seq<u8>, old_len: nat) -> Seq<u8> {
    s.take(at) + seq![new.len() as u8] + new + s.skip(at + 1 + old_len)
}

/// Law: a length-prefixed string written with its length byte at `at` reads back, from `at`,
/// as the bytes written.
pub proof fn law_write_string_then_read(s: Seq<u8>, at: int, new: Seq<u8>, old_len: nat)
    requires
        0 <= at,
        at + 1 + old_len <= s.len(),
        new.len() < 256,
    ensures
        string_at(with_string(s, at, new, old_len), at) == new,
        with_string(s, at, new, old_len).len() == s.len() - old_len + new.len(),
{
    let t = with_string(s, at, new, old_len);
    assert(t[at] == new.len() as u8);
    assert(string_at(t, at) =~= new);
}

/// Calls `std::str::from_utf8`. Its documentation says that it returns the string slice made
/// of the bytes `v` when they are valid UTF-8, and an error otherwise: the contract says so,
/// with vstd's definition of valid UTF-8.
#[verifier::external_body]
fn str_from_utf8(v: &[u8]) -> (r: Option<&str>)
    ensures
        r is Some <==> valid_utf8(v@),
        r matches Some(s) ==> s.spec_bytes() == v@,
{
    std::str::from_utf8(v).ok()
}

/// Whether `v` is valid UTF-8.
pub(crate) fn utf8_is_valid(v: &[u8]) -> (r: bool)
    ensures
        r == valid_utf8(v@),
{
    str_from_utf8(v).is_some()
}

/// The bytes of a world file and a position in them.
pub struct TFileReader {
    file: Vec<u8>,
    position: usize,
}

impl TFileReader {
    /// The file's bytes.
    pub closed spec fn bytes(&self) -> Seq<u8> {
        self.file@
    }

    /// The current position.
    pub closed spec fn pos(&self) -> nat {
        self.position as nat
    }

    /// A reader over `bytes`, positioned at the start.
    pub fn new(bytes: Vec<u8>) -> (r: TFileReader)
        ensures
            r.bytes() == bytes@,
            r.pos() == 0,
    {
        TFileReader { file: bytes, position: 0 }
    }

    /// Reads `n` bytes as an unsigned little-endian integer and moves past them.
    fn read_le(&mut self, n: usize) -> (r: u64)
        requires
            1 <= n <= 8,
            old(self).pos() + n <= old(self).bytes().len(),
        ensures
            final(self).bytes() == old(self).bytes(),
            final(self).pos() == old(self).pos() + n,
            r == uint_at(old(self).bytes(), old(self).pos() as int, n as nat),
    {
        let start = self.position;
        let len = self.file.len();
        let ghost s = self.file@;
        let mut acc: u64 = 0;
        let mut i: usize = n;
        proof {
            lemma_pow256_values();
            assert(s.subrange(start + n, start + n) =~= Seq::<u8>::empty());
        }
        while i > 0
            invariant
                0 <= i <= n <= 8,
                start + n <= len,
                len == s.len(),
                self.file@ == s,
                acc == le_value(s.subrange(start + i, start + n)),
                acc < pow256((n - i) as nat),
            decreases i,
        {
            let b = self.file[start + i - 1];
            proof {
                lemma_pow256_mono((n - i) as nat, 7);
                lemma_pow256_values();
                let t = s.subrange(start + i - 1, start + n);
                assert(t.drop_first() =~= s.subrange(start + i, start + n));
            }
            acc = (b as u64) + 256 * acc;
            i = i - 1;
        }
        self.position = start + n;
        acc
    }

    /// Reads a 2-byte signed little-endian integer and moves past it.
    pub fn read_int_16(&mut self) -> (r: i16)
        requires
            old(self).pos() + 2 <= old(self).bytes().len(),
        ensures
            final(self).bytes() == old(self).bytes(),
            final(self).pos() == old(self).pos() + 2,
            r == int_at(old(self).bytes(), old(self).pos() as int, 2),
    {
        let ghost s = self.file@;
        let ghost p = self.position as int;
        let u = self.read_le(2);
        proof {
            lemma_pow256_values();
            lemma_le_value_bound(field(s, p, 2));
        }
        if u >= 0x8000 {
            (u as i64 - 0x1_0000) as i16
        } else {
            u as i16
        }
    }

    /// Reads a 4-byte signed little-endian integer and moves past it.
    pub fn read_int_32(&mut self) -> (r: i32)
        requires
            old(self).pos() + 4 <= old(self).bytes().len(),
        ensures
            final(self).bytes() == old(self).bytes(),
            final(self).pos() == old(self).pos() + 4,
            r == int_at(old(self).bytes(), old(self).pos() as int, 4),
    {
        let ghost s = self.file@;
        let ghost p = self.position as int;
        let u = self.read_le(4);
        proof {
            lemma_pow256_values();
            lemma_le_value_bound(field(s, p, 4));
        }
        if u >= 0x8000_0000 {
            (u as i64 - 0x1_0000_0000) as i32
        } else {
            u as i32
        }
    }

    /// Writes `num` as 4 little-endian bytes over the bytes at the position and moves past them.
    pub fn write_int_32(&mut self, num: i32)
        requires
            old(self).pos() + 4 <= old(self).bytes().len(),
        ensures
            final(self).bytes() == splice(
                old(self).bytes(),
                old(self).pos() as int,
                le_bytes(to_unsigned(num as int, 4), 4),
            ),
            final(self).pos() == old(self).pos() + 4,
    {
        let ghost s = self.file@;
        let ghost p = self.position as int;
        proof {
            lemma_pow256_values();
        }
        let mut v: u32 = if num < 0 {
            (num as i64 + 0x1_0000_0000) as u32
        } else {
            num as u32
        };
        let ghost u = v as nat;
        let len = self.file.len();
        let mut k: usize = 0;
        proof {
            assert(splice(s, p, le_bytes(u, 4)) == splice(self.file@, p, le_bytes(u, 4)));
        }
        while k < 4
            invariant
                0 <= k <= 4,
                p + 4 <= s.len(),
                len == s.len(),
                self.position == p + k,
                self.file@.len() == s.len(),
                u == to_unsigned(num as int, 4),
                splice(self.file@, self.position as int, le_bytes(v as nat, (4 - k) as nat))
                    == splice(s, p, le_bytes(u, 4)),
            decreases 4 - k,
        {
            let b = (v % 256) as u8;
            let ghost before = self.file@;
            let ghost rest = le_bytes((v / 256) as nat, (4 - k - 1) as nat);
            proof {
                lemma_le_bytes_len((v / 256) as nat, (4 - k - 1) as nat);
                assert(le_bytes(v as nat, (4 - k) as nat) == seq![b] + rest);
            }
            self.file.set(self.position, b);
            proof {
                assert(splice(self.file@, self.position + 1, rest) =~= splice(
                    before,
                    self.position as int,
                    seq![b] + rest,
                ));
            }
            v = v / 256;
            self.position = self.position + 1;
            k = k + 1;
        }
        proof {
            assert(splice(self.file@, self.position as int, le_bytes(v as nat, 0)) =~= self.file@);
        }
    }

    /// Reads an 8-byte signed little-endian integer and moves past it.
    pub fn read_int_64(&mut self) -> (r: i64)
        requires
            old(self).pos() + 8 <= old(self).bytes().len(),
        ensures
            final(self).bytes() == old(self).bytes(),
            final(self).pos() == old(self).pos() + 8,
            r == int_at(old(self).bytes(), old(self).pos() as int, 8),
    {
        let u = self.read_le(8);
        proof {
            lemma_pow256_values();
        }
        if u >= 0x8000_0000_0000_0000 {
            (u as i128 - 0x1_0000_0000_0000_0000) as i64
        } else {
            u as i64
        }
    }

    /// Reads one byte and moves past it.
    pub fn read_byte(&mut self) -> (r: u8)
        requires
            old(self).pos() < old(self).bytes().len(),
        ensures
            final(self).bytes() == old(self).bytes(),
            final(self).pos() == old(self).pos() + 1,
            r == old(self).bytes()[old(self).pos() as int],
    {
        let curr_pos = self.position;
        let len = self.file.len();
        assert(curr_pos < len);
        self.position = self.position + 1;
        self.file[curr_pos]
    }

    /// Inserts `byte` at the position (the file grows by one byte) and moves past it.
    pub fn write_byte(&mut self, byte: u8)
        requires
            old(self).pos() <= old(self).bytes().len(),
        ensures
            final(self).bytes() == old(self).bytes().insert(old(self).pos() as int, byte),
            final(self).pos() == old(self).pos() + 1,
    {
        self.file.insert(self.position, byte);
        let len = self.file.len();
        assert(self.position < len);
        self.position = self.position + 1;
    }

    /// Copies the bytes at the position into `bytes` and moves past them. The copied range
    /// must end strictly before the end of the file.
    pub fn read_multiple_bytes(&mut self, bytes: &mut [u8])
        requires
            old(self).pos() + old(bytes)@.len() < old(self).bytes().len(),
        ensures
            final(self).bytes() == old(self).bytes(),
            final(self).pos() == old(self).pos() + old(bytes)@.len(),
            final(bytes)@ == field(old(self).bytes(), old(self).pos() as int, old(bytes)@.len()),
    {
        let curr_pos = self.position;
        let amount = bytes.len();
        let len = self.file.len();
        assert(curr_pos + amount < len);
        self.position = self.position + amount;
        let mut i = curr_pos;
        while i < self.position
            invariant
                curr_pos <= i <= self.position,
                self.position == curr_pos + amount,
                self.position < self.file@.len(),
                self.file@ == old(self).file@,
                bytes@.len() == amount,
                forall|j: int| 0 <= j < i - curr_pos ==> bytes@[j] == self.file@[curr_pos + j],
            decreases self.position - i,
        {
            bytes[i - curr_pos] = self.file[i];
            i = i + 1;
        }
        assert(bytes@ =~= field(self.file@, curr_pos as int, amount as nat));
    }

    /// Writes `bytes` over the bytes that end at the position; the position does not move.
    pub fn replace_bytes(&mut self, bytes: &[u8])
        requires
            bytes@.len() <= old(self).pos() <= old(self).bytes().len(),
        ensures
            final(self).bytes() == splice(
                old(self).bytes(),
                old(self).pos() - bytes@.len(),
                bytes@,
            ),
            final(self).pos() == old(self).pos(),
    {
        let start = self.position - bytes.len();
        let mut pos = start;
        let mut i: usize = 0;
        while i < bytes.len()
            invariant
                i <= bytes@.len(),
                pos == start + i,
                start + bytes@.len() == self.position,
                self.position <= self.file@.len(),
                self.position == old(self).position,
                self.file@.len() == old(self).file@.len(),
                forall|j: int|
                    0 <= j < self.file@.len() ==> self.file@[j] == if start <= j < start + i {
                        bytes@[j - start]
                    } else {
                        old(self).file@[j]
                    },
            decreases bytes@.len() - i,
        {
            self.file.set(pos, bytes[i]);
            pos = pos + 1;
            i = i + 1;
        }
        assert(self.file@ =~= splice(old(self).file@, start as int, bytes@));
    }

    /// Writes `byte` over the byte just before the position.
    pub fn replace_byte(&mut self, byte: u8)
        requires
            1 <= old(self).pos() <= old(self).bytes().len(),
        ensures
            final(self).bytes() == old(self).bytes().update(old(self).pos() - 1, byte),
            final(self).pos() == old(self).pos(),
    {
        self.file.set(self.position - 1, byte);
    }

    /// Reads a string of at most 255 bytes prefixed by its length byte and moves past it.
    pub fn read_string(&mut self) -> (r: &str)
        requires
            string_readable(old(self).bytes(), old(self).pos() as int),
        ensures
            final(self).bytes() == old(self).bytes(),
            final(self).pos() == old(self).pos() + 1 + old(self).bytes()[old(self).pos() as int],
            r.spec_bytes() == string_at(old(self).bytes(), old(self).pos() as int),
            r@ == decode_utf8(string_at(old(self).bytes(), old(self).pos() as int)),
    {
        let string_len = self.read_byte() as usize;
        let curr_pos = self.position;
        let len = self.file.len();
        assert(curr_pos + string_len <= len);
        self.position = self.position + string_len;
        let slice = slice_subrange(self.file.as_slice(), curr_pos, curr_pos + string_len);
        match str_from_utf8(slice) {
            Some(s) => {
                proof {
                    encode_utf8_decode_utf8(s@);
                }
                s
            },
            None => {
                proof {
                    assert(false);
                }
                ""
            },
        }
    }

    /// Replaces the string of `old_len` bytes at the position by `s`: the length byte just
    /// before the position becomes `s`'s length, and the position moves past `s`.
    fn splice_string(&mut self, s: &[u8], old_len: usize)
        requires
            1 <= old(self).pos(),
            old(self).pos() + old_len <= old(self).bytes().len(),
            s@.len() < 256,
        ensures
            final(self).bytes() == with_string(
                old(self).bytes(),
                old(self).pos() - 1,
                s@,
                old_len as nat,
            ),
            final(self).pos() == old(self).pos() + s@.len(),
    {
        let ghost f0 = self.file@;
        let p = self.position;
        let mut k: usize = 0;
        proof {
            assert(f0 =~= f0.take(p as int) + f0.skip(p + k));
        }
        while k < old_len
            invariant
                k <= old_len,
                p + old_len <= f0.len(),
                self.position == p,
                self.file@ == f0.take(p as int) + f0.skip(p + k),
            decreases old_len - k,
        {
            self.file.remove(self.position);
            proof {
                assert(self.file@ =~= f0.take(p as int) + f0.skip(p + k + 1));
            }
            k = k + 1;
        }
        let new_len = s.len();
        self.replace_byte(new_len as u8);
        let ghost head = f0.take(p - 1) + seq![new_len as u8];
        let ghost tail = f0.skip(p + old_len);
        proof {
            assert(self.file@ =~= head + s@.take(0) + tail);
        }
        let mut i: usize = 0;
        while i < s.len()
            invariant
                i <= s@.len(),
                head.len() == p,
                self.position == p + i,
                self.file@ == head + s@.take(i as int) + tail,
            decreases s@.len() - i,
        {
            self.write_byte(s[i]);
            proof {
                assert(self.file@ =~= head + s@.take(i + 1) + tail);
            }
            i = i + 1;
        }
        proof {
            assert(s@.take(s@.len() as int) =~= s@);
            assert(self.file@ =~= with_string(f0, p - 1, s@, old_len as nat));
        }
    }

    /// Replaces the length-prefixed string whose length byte is at the position by `s`,
    /// and moves past it.
    pub fn write_string_unknown_len(&mut self, s: &[u8])
        requires
            old(self).pos() < old(self).bytes().len(),
            old(self).pos() + 1 + old(self).bytes()[old(self).pos() as int]
                <= old(self).bytes().len(),
            s@.len() < 256,
        ensures
            final(self).bytes() == with_string(
                old(self).bytes(),
                old(self).pos() as int,
                s@,
                old(self).bytes()[old(self).pos() as int] as nat,
            ),
            final(self).pos() == old(self).pos() + 1 + s@.len(),
    {
        let old_len = self.read_byte();
        self.splice_string(s, old_len as usize);
    }

    /// Replaces the string of `old_len` bytes that starts at the position (its length byte is
    /// just before it) by `s`, and moves past it.
    pub fn write_string_known_len(&mut self, s: &[u8], old_len: usize)
        requires
            1 <= old(self).pos(),
            old(self).pos() + old_len <= old(self).bytes().len(),
            s@.len() < 256,
        ensures
            final(self).bytes() == with_string(
                old(self).bytes(),
                old(self).pos() - 1,
                s@,
                old_len as nat,
            ),
            final(self).pos() == old(self).pos() + s@.len(),
    {
        self.splice_string(s, old_len);
    }

    /// The current position, read through a shared reference.
    pub fn position(&self) -> (r: usize)
        ensures
            r == self.pos(),
    {
        self.position
    }

    /// The current position.
    pub fn get_position(&mut self) -> (r: usize)
        ensures
            *final(self) == *old(self),
            r == old(self).pos(),
    {
        self.position
    }

    /// Moves to `new_pos`, which must lie inside the file.
    pub fn move_to_position(&mut self, new_pos: usize)
        requires
            new_pos < old(self).bytes().len(),
        ensures
            final(self).bytes() == old(self).bytes(),
            final(self).pos() == new_pos,
    {
        self.position = new_pos;
    }

    /// The file's bytes.
    pub fn get_file(&self) -> (r: &Vec<u8>)
        ensures
            r@ == self.bytes(),
    {
        &self.file
    }

    /// The file's length.
    pub fn get_file_len(&self) -> (r: usize)
        ensures
            r == self.bytes().len(),
    {
        self.file.len()
    }
}

} // verus!
