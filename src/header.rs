//! The archive header and the records of the file table.

use crate::le::{read_u32_le, write_u32_le};
use vstd::bytes::{lemma_auto_spec_u32_to_from_le_bytes, spec_u32_from_le_bytes, spec_u32_to_le_bytes};
use vstd::prelude::*;
use vstd::slice::slice_subrange;
use vstd::string::StringSliceAdditionalSpecFns;
use vstd::utf8::{
    decode_utf8, encode_utf8, encode_utf8_decode_utf8, encode_utf8_valid_utf8, valid_utf8,
};

verus! {

/// The PAK file type identifier: the four ASCII characters "PACK".
pub const PAK_IDENTIFIER: [u8; 4] = [0x50u8, 0x41u8, 0x43u8, 0x4Bu8];

/// Length of the PAK file header.
pub const PAK_HEADER_LENGTH: u32 = 12;

/// Length of a PAK file table entry.
pub const PAK_FILE_LENGTH: u32 = 64;

/// Why a buffer could not be read as an archive, or an archive written out.
#[derive(Debug, Clone, Copy, PartialEq, Eq, Structural)]
pub enum PakError {
    /// The buffer does not start with the identifier "PACK".
    Format,
    /// An offset or a size points outside the buffer.
    Bounds,
    /// The archive does not fit in the 32-bit offsets of the format.
    SizeOverflow,
}

/// The identifier as a sequence of bytes.
pub open spec fn pak_magic() -> Seq<u8> {
    seq![0x50u8, 0x41u8, 0x43u8, 0x4Bu8]
}

/// The little-endian `u32` stored at `pos` in `d`.
pub open spec fn u32_at(d: Seq<u8>, pos: int) -> u32 {
    spec_u32_from_le_bytes(d.subrange(pos, pos + 4))
}

/// The twelve bytes of a header with the given table offset and size.
pub open spec fn header_bytes(table_offset: u32, table_size: u32) -> Seq<u8> {
    pak_magic() + spec_u32_to_le_bytes(table_offset) + spec_u32_to_le_bytes(table_size)
}

/// What the first twelve bytes of `d` say, as `(table_offset, table_size)`.
pub open spec fn header_decode(d: Seq<u8>) -> Result<(u32, u32), PakError> {
    if d.len() < 12 {
        Err(PakError::Bounds)
    } else if d.subrange(0, 4) != pak_magic() {
        Err(PakError::Format)
    } else {
        Ok((u32_at(d, 4), u32_at(d, 8)))
    }
}

/// Appends the bytes of `b` to `out`.
pub(crate) fn append_bytes(out: &mut Vec<u8>, b: &[u8])
    ensures
        final(out)@ == old(out)@ + b@,
{
    let ghost start = out@;
    let mut i: usize = 0;
    while i < b.len()
        invariant
            i <= b@.len(),
            out@ == start + b@.subrange(0, i as int),
        decreases b@.len() - i,
    {
        out.push(b[i]);
        i = i + 1;
        assert(b@.subrange(0, i as int) == b@.subrange(0, i - 1 as int).push(b@[i - 1]));
    }
    assert(b@.subrange(0, i as int) == b@);
}

/// Appends the four little-endian bytes of `n` to `out`.
pub(crate) fn append_u32(out: &mut Vec<u8>, n: u32)
    ensures
        final(out)@ == old(out)@ + spec_u32_to_le_bytes(n),
{
    let mut buf = [0u8; 4];
    write_u32_le(&mut buf, n);
    append_bytes(out, buf.as_slice());
}

/// The PAK file header.
pub struct PakHeader {
    /// Offset of the file table, from the start of the file.
    pub table_offset: u32,
    /// Size of the file table.
    pub table_size: u32,
}

impl PakHeader {
    /// Create a new PAK header with the given file table offset and size.
    pub fn new(table_offset: u32, table_size: u32) -> (r: Self)
        ensures
            r.table_offset == table_offset,
            r.table_size == table_size,
    {
        Self { table_offset, table_size }
    }

    /// Parse a PAK header from the first twelve bytes of `data`.
    ///
    /// Fails with `Bounds` when `data` is shorter than a header, and with
    /// `Format` when it does not start with the identifier.
    pub fn from_bytes(data: &[u8]) -> (r: Result<Self, PakError>)
        ensures
            r is Ok <==> header_decode(data@) is Ok,
            r is Ok ==> r->Ok_0.table_offset == header_decode(data@)->Ok_0.0
                && r->Ok_0.table_size == header_decode(data@)->Ok_0.1,
            r is Err ==> r->Err_0 == header_decode(data@)->Err_0,
    {
        if data.len() < PAK_HEADER_LENGTH as usize {
            return Err(PakError::Bounds);
        }
        if data[0] != PAK_IDENTIFIER[0] || data[1] != PAK_IDENTIFIER[1] || data[2]
            != PAK_IDENTIFIER[2] || data[3] != PAK_IDENTIFIER[3] {
            assert(data@.subrange(0, 4) != pak_magic()) by {
                if data@.subrange(0, 4) == pak_magic() {
                    assert(data@.subrange(0, 4)[0] == data@[0]);
                    assert(data@.subrange(0, 4)[1] == data@[1]);
                    assert(data@.subrange(0, 4)[2] == data@[2]);
                    assert(data@.subrange(0, 4)[3] == data@[3]);
                }
            }
            return Err(PakError::Format);
        }
        assert(data@.subrange(0, 4) == pak_magic());
        let offset_bytes = slice_subrange(data, 4, 8);
        let size_bytes = slice_subrange(data, 8, 12);
        assert(offset_bytes@.subrange(0, 4) == data@.subrange(4, 8));
        assert(size_bytes@.subrange(0, 4) == data@.subrange(8, 12));
        let table_offset = read_u32_le(offset_bytes);
        let table_size = read_u32_le(size_bytes);
        Ok(Self { table_offset, table_size })
    }

    /// Return this PAK header as a byte vector.
    pub fn as_bytes(&self) -> (r: Vec<u8>)
        ensures
            r@ == header_bytes(self.table_offset, self.table_size),
    {
        let mut output: Vec<u8> = Vec::new();
        append_bytes(&mut output, PAK_IDENTIFIER.as_slice());
        append_u32(&mut output, self.table_offset);
        append_u32(&mut output, self.table_size);
        assert(PAK_IDENTIFIER@ == pak_magic());
        output
    }
}

impl Default for PakHeader {
    fn default() -> (r: Self)
        ensures
            r.table_offset == 0,
            r.table_size == 0,
    {
        Self { table_offset: 0, table_size: 0 }
    }
}

/// The 56-byte name field written for `name`: its UTF-8 bytes, cut after
/// the 55th, then zeros up to the end of the field.
pub open spec fn name_field(name: Seq<char>) -> Seq<u8> {
    let b = encode_utf8(name);
    let kept = if b.len() <= 55 { b } else { b.subrange(0, 55) };
    kept + Seq::new((56 - kept.len()) as nat, |k: int| 0u8)
}

/// The bytes of `s` before its first zero byte (all of `s` if it has none).
pub open spec fn until_zero(s: Seq<u8>) -> Seq<u8>
    decreases s.len(),
{
    if s.len() == 0 || s[0] == 0 {
        Seq::empty()
    } else {
        seq![s[0]] + until_zero(s.drop_first())
    }
}

/// The name given to a member whose name field does not hold valid UTF-8.
pub open spec fn fallback_name() -> Seq<char> {
    "unknown.bin"@
}

/// The name that a name field holds: the text of the bytes before the first
/// zero, or the fallback name where those bytes are not valid UTF-8.
pub open spec fn name_text(field: Seq<u8>) -> Seq<char> {
    let raw = until_zero(field);
    if valid_utf8(raw) {
        decode_utf8(raw)
    } else {
        fallback_name()
    }
}

/// The 64 bytes of a table record.
pub open spec fn entry_bytes(name_bytes: Seq<u8>, offset: u32, size: u32) -> Seq<u8> {
    name_bytes + spec_u32_to_le_bytes(offset) + spec_u32_to_le_bytes(size)
}

/// A prefix of nonzero bytes ended by a zero byte, or by the end, is what
/// `until_zero` keeps.
pub proof fn lemma_until_zero_prefix(s: Seq<u8>, i: int)
    requires
        0 <= i <= s.len(),
        forall|j: int| 0 <= j < i ==> s[j] != 0,
        i == s.len() || s[i] == 0,
    ensures
        until_zero(s) == s.subrange(0, i),
    decreases i,
{
    if i == 0 {
        assert(s.subrange(0, 0) =~= Seq::<u8>::empty());
    } else {
        lemma_until_zero_prefix(s.drop_first(), i - 1);
        assert(s.subrange(0, i) =~= seq![s[0]] + s.drop_first().subrange(0, i - 1));
    }
}

/// A name that a record holds unchanged: at most 55 bytes of UTF-8, none
/// of them zero.
pub open spec fn name_fits(name: Seq<char>) -> bool {
    &&& encode_utf8(name).len() <= 55
    &&& forall|i: int| 0 <= i < encode_utf8(name).len() ==> #[trigger] encode_utf8(name)[i] != 0
}

/// The name field is always 56 bytes long.
pub proof fn lemma_name_field_len(name: Seq<char>)
    ensures
        name_field(name).len() == 56,
{
}

/// A header decodes to the table offset and size it was encoded from.
pub proof fn lemma_header_round_trip(table_offset: u32, table_size: u32)
    ensures
        header_decode(header_bytes(table_offset, table_size)) == Ok::<(u32, u32), PakError>(
            (table_offset, table_size),
        ),
{
    lemma_auto_spec_u32_to_from_le_bytes();
    let d = header_bytes(table_offset, table_size);
    assert(d.subrange(0, 4) =~= pak_magic());
    assert(d.subrange(4, 8) =~= spec_u32_to_le_bytes(table_offset));
    assert(d.subrange(8, 12) =~= spec_u32_to_le_bytes(table_size));
}

/// A name that fits is read back from its name field unchanged.
pub proof fn lemma_name_round_trip(name: Seq<char>)
    requires
        name_fits(name),
    ensures
        name_text(name_field(name)) == name,
{
    let b = encode_utf8(name);
    let field = name_field(name);
    lemma_until_zero_prefix(field, b.len() as int);
    assert(field.subrange(0, b.len() as int) =~= b);
    encode_utf8_valid_utf8(name);
    encode_utf8_decode_utf8(name);
}

/// A record decodes to the offset, size and name it was encoded from, for a
/// name that fits.
pub proof fn lemma_entry_round_trip(name: Seq<char>, offset: u32, size: u32)
    requires
        name_fits(name),
    ensures
        entry_bytes(name_field(name), offset, size).len() == 64,
        entry_bytes(name_field(name), offset, size).subrange(0, 56) == name_field(name),
        u32_at(entry_bytes(name_field(name), offset, size), 56) == offset,
        u32_at(entry_bytes(name_field(name), offset, size), 60) == size,
        name_text(entry_bytes(name_field(name), offset, size).subrange(0, 56)) == name,
{
    lemma_entry_fields(name_field(name), offset, size);
    lemma_name_round_trip(name);
}

/// The fields of a record are where its decoder looks for them.
pub proof fn lemma_entry_fields(name_bytes: Seq<u8>, offset: u32, size: u32)
    requires
        name_bytes.len() == 56,
    ensures
        entry_bytes(name_bytes, offset, size).len() == 64,
        entry_bytes(name_bytes, offset, size).subrange(0, 56) == name_bytes,
        u32_at(entry_bytes(name_bytes, offset, size), 56) == offset,
        u32_at(entry_bytes(name_bytes, offset, size), 60) == size,
{
    lemma_auto_spec_u32_to_from_le_bytes();
    let e = entry_bytes(name_bytes, offset, size);
    assert(e.subrange(0, 56) =~= name_bytes);
    assert(e.subrange(56, 60) =~= spec_u32_to_le_bytes(offset));
    assert(e.subrange(60, 64) =~= spec_u32_to_le_bytes(size));
}

/// A name longer than 55 bytes, none of them zero, reads back as the text of
/// its first 55 bytes, or as the fallback name where those bytes end inside
/// a character.
pub proof fn lemma_name_truncated(name: Seq<char>)
    requires
        encode_utf8(name).len() > 55,
        forall|i: int| 0 <= i < 55 ==> #[trigger] encode_utf8(name)[i] != 0,
    ensures
        name_text(name_field(name)) == if valid_utf8(encode_utf8(name).subrange(0, 55)) {
            decode_utf8(encode_utf8(name).subrange(0, 55))
        } else {
            fallback_name()
        },
{
    let field = name_field(name);
    lemma_until_zero_prefix(field, 55);
    assert(field.subrange(0, 55) =~= encode_utf8(name).subrange(0, 55));
}

/// Relies on std's `String::from_utf8`: it succeeds exactly when the bytes
/// are valid UTF-8, and the string then holds the text they encode.
#[verifier::external_body]
fn string_from_utf8(bytes: Vec<u8>) -> (r: Option<String>)
    ensures
        r is Some <==> valid_utf8(bytes@),
        r is Some ==> r->Some_0@ == decode_utf8(bytes@),
{
    String::from_utf8(bytes).ok()
}

/// An entry in the PAK file table.
pub struct PakFileEntry {
    /// Null-terminated file name.
    pub name_bytes: [u8; 56],
    /// Offset of the file data, from the start of the file.
    pub offset: u32,
    /// Size of the file.
    pub size: u32,
}

impl PakFileEntry {
    /// Create a new file entry with the given file name, offset, and size.
    ///
    /// The name is cut after its 55th byte, the most that the field holds
    /// beside its terminating zero.
    pub fn new(file_name: String, offset: u32, size: u32) -> (r: Self)
        ensures
            r.name_bytes@ == name_field(file_name@),
            r.offset == offset,
            r.size == size,
    {
        let mut out = Self { name_bytes: [0u8; 56], offset, size };
        out.set_name(file_name);
        out
    }

    /// Return the name of the file represented by this file entry.
    ///
    /// Names that are not valid UTF-8 come back as "unknown.bin".
    pub fn get_name(&self) -> (r: String)
        ensures
            r@ == name_text(self.name_bytes@),
    {
        let mut s: Vec<u8> = Vec::new();
        let mut i: usize = 0;
        while i < 56 && self.name_bytes[i] != 0
            invariant
                i <= 56,
                s@ == self.name_bytes@.subrange(0, i as int),
                forall|j: int| 0 <= j < i ==> self.name_bytes@[j] != 0,
            decreases 56 - i,
        {
            s.push(self.name_bytes[i]);
            i = i + 1;
            assert(s@ =~= self.name_bytes@.subrange(0, i as int));
        }
        proof {
            lemma_until_zero_prefix(self.name_bytes@, i as int);
        }
        match string_from_utf8(s) {
            Some(name) => name,
            None => "unknown.bin".to_owned(),
        }
    }

    /// Set the name of the file.
    ///
    /// The name is cut after its 55th byte, the most that the field holds
    /// beside its terminating zero.
    pub fn set_name(&mut self, file_name: String)
        ensures
            final(self).name_bytes@ == name_field(file_name@),
            final(self).offset == old(self).offset,
            final(self).size == old(self).size,
    {
        self.name_bytes = [0u8; 56];
        let bytes = file_name.as_str().as_bytes();
        let ghost b = encode_utf8(file_name@);
        assert(self.name_bytes@ =~= b.subrange(0, 0) + Seq::new(56, |k: int| 0u8));
        let mut i: usize = 0;
        while i < bytes.len() && i < 55
            invariant
                i <= 55,
                i <= b.len(),
                bytes@ == b,
                self.name_bytes@ == b.subrange(0, i as int) + Seq::new(
                    (56 - i) as nat,
                    |k: int| 0u8,
                ),
                self.offset == old(self).offset,
                self.size == old(self).size,
            decreases 55 - i,
        {
            self.name_bytes[i] = bytes[i];
            i = i + 1;
            assert(self.name_bytes@ =~= b.subrange(0, i as int) + Seq::new(
                (56 - i) as nat,
                |k: int| 0u8,
            ));
        }
        assert(b.len() > 55 ==> i == 55);
    }

    /// Parse a file entry from the first 64 bytes of `data`.
    pub fn from_bytes(data: &[u8]) -> (r: Self)
        requires
            data@.len() >= 64,
        ensures
            r.name_bytes@ == data@.subrange(0, 56),
            r.offset == u32_at(data@, 56),
            r.size == u32_at(data@, 60),
    {
        let mut name_bytes = [0u8; 56];
        let mut i: usize = 0;
        while i < 56
            invariant
                i <= 56,
                data@.len() >= 64,
                forall|j: int| 0 <= j < i ==> name_bytes@[j] == data@[j],
            decreases 56 - i,
        {
            name_bytes[i] = data[i];
            i = i + 1;
        }
        assert(name_bytes@ =~= data@.subrange(0, 56));
        let offset_bytes = slice_subrange(data, 56, 60);
        let size_bytes = slice_subrange(data, 60, 64);
        assert(offset_bytes@.subrange(0, 4) == data@.subrange(56, 60));
        assert(size_bytes@.subrange(0, 4) == data@.subrange(60, 64));
        let offset = read_u32_le(offset_bytes);
        let size = read_u32_le(size_bytes);
        Self { name_bytes, offset, size }
    }

    /// Return this file entry as a byte vector.
    pub fn as_bytes(&self) -> (r: Vec<u8>)
        ensures
            r@ == entry_bytes(self.name_bytes@, self.offset, self.size),
    {
        let mut output: Vec<u8> = Vec::new();
        append_bytes(&mut output, self.name_bytes.as_slice());
        append_u32(&mut output, self.offset);
        append_u32(&mut output, self.size);
        output
    }
}

} // verus!
