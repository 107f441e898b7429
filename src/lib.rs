//! Reading and writing PAK archives: a twelve-byte header, the members' data
//! back to back, and a table of fixed-size records naming each member.

pub mod header;
mod le;

pub use header::{
    PakError, PakFileEntry, PakHeader, PAK_FILE_LENGTH, PAK_HEADER_LENGTH, PAK_IDENTIFIER,
};

use header::{
    append_bytes, entry_bytes, header_bytes, header_decode, lemma_entry_fields,
    lemma_header_round_trip, lemma_name_field_len, lemma_name_round_trip, name_field, name_fits,
    name_text, u32_at,
};
use vstd::bytes::lemma_auto_spec_u32_to_from_le_bytes;
use vstd::prelude::*;
use vstd::slice::slice_subrange;

verus! {

/// An archive as a mathematical value: each member's name and data, in order.
pub type Members = Seq<(Seq<char>, Seq<u8>)>;

/// Offset of the file table, as the header of `d` gives it.
pub open spec fn table_start(d: Seq<u8>) -> int {
    u32_at(d, 4) as int
}

/// Number of 64-byte records from the table's start to the end of `d`.
pub open spec fn table_count(d: Seq<u8>) -> int {
    (d.len() - table_start(d)) / 64
}

/// Position in `d` of the `k`-th table record.
pub open spec fn record_pos(d: Seq<u8>, k: int) -> int {
    table_start(d) + 64 * k
}

/// The record at `pos` points at data that lies within `d`.
pub open spec fn record_in_bounds(d: Seq<u8>, pos: int) -> bool {
    u32_at(d, pos + 56) + u32_at(d, pos + 60) <= d.len()
}

/// The member that the record at `pos` describes: its name, and the bytes of
/// `d` that its offset and size select.
pub open spec fn member_at(d: Seq<u8>, pos: int) -> (Seq<char>, Seq<u8>) {
    let off = u32_at(d, pos + 56) as int;
    let size = u32_at(d, pos + 60) as int;
    (name_text(d.subrange(pos, pos + 56)), d.subrange(off, off + size))
}

/// The table runs from its offset to the end of `d` in whole records, each
/// of which points within `d`.
pub open spec fn table_valid(d: Seq<u8>) -> bool {
    &&& table_start(d) <= d.len()
    &&& (d.len() - table_start(d)) % 64 == 0
    &&& forall|k: int| 0 <= k < table_count(d) ==> record_in_bounds(d, #[trigger] record_pos(d, k))
}

/// What a buffer decodes to.
pub open spec fn archive_decode(d: Seq<u8>) -> Result<Members, PakError> {
    match header_decode(d) {
        Err(e) => Err(e),
        Ok(_) => if table_valid(d) {
            Ok(Seq::new(table_count(d) as nat, |k: int| member_at(d, record_pos(d, k))))
        } else {
            Err(PakError::Bounds)
        },
    }
}

/// The members' data, back to back.
pub open spec fn members_data(m: Members) -> Seq<u8>
    decreases m.len(),
{
    if m.len() == 0 {
        Seq::empty()
    } else {
        members_data(m.drop_last()) + m.last().1
    }
}

/// Where the data of the `i`-th member starts in the encoded archive.
pub open spec fn member_offset(m: Members, i: int) -> int {
    12 + members_data(m.take(i)).len() as int
}

/// The table records of the first `k` members.
pub open spec fn members_table(m: Members, k: int) -> Seq<u8>
    decreases k,
{
    if k <= 0 {
        Seq::empty()
    } else {
        members_table(m, k - 1) + entry_bytes(
            name_field(m[k - 1].0),
            member_offset(m, k - 1) as u32,
            m[k - 1].1.len() as u32,
        )
    }
}

/// Length of the encoded archive.
pub open spec fn encoded_len(m: Members) -> int {
    12 + members_data(m).len() + 64 * m.len() as int
}

/// The encoded archive: header, then all data, then all table records.
pub open spec fn archive_bytes(m: Members) -> Seq<u8> {
    header_bytes((12 + members_data(m).len()) as u32, (64 * m.len()) as u32) + members_data(m)
        + members_table(m, m.len() as int)
}

proof fn lemma_members_data_concat(a: Members, b: Members)
    ensures
        members_data(a + b) == members_data(a) + members_data(b),
    decreases b.len(),
{
    if b.len() == 0 {
        assert(a + b =~= a);
        assert(members_data(a) + members_data(b) =~= members_data(a));
    } else {
        lemma_members_data_concat(a, b.drop_last());
        assert((a + b).drop_last() =~= a + b.drop_last());
        assert(members_data(a + b) =~= members_data(a) + members_data(b));
    }
}

proof fn lemma_members_data_step(m: Members, i: int)
    requires
        0 <= i < m.len(),
    ensures
        members_data(m.take(i + 1)) == members_data(m.take(i)) + m[i].1,
        members_data(m.take(i + 1)).len() <= members_data(m).len(),
{
    assert(m.take(i + 1).drop_last() =~= m.take(i));
    lemma_members_data_concat(m.take(i + 1), m.skip(i + 1));
    assert(m.take(i + 1) + m.skip(i + 1) =~= m);
}

proof fn lemma_members_table_len(m: Members, k: int)
    requires
        0 <= k,
    ensures
        members_table(m, k).len() == 64 * k,
    decreases k,
{
    if k > 0 {
        lemma_members_table_len(m, k - 1);
        lemma_name_field_len(m[k - 1].0);
        lemma_entry_fields(
            name_field(m[k - 1].0),
            member_offset(m, k - 1) as u32,
            m[k - 1].1.len() as u32,
        );
    }
}

proof fn lemma_members_table_record(m: Members, k2: int, k: int)
    requires
        0 <= k < k2,
    ensures
        members_table(m, k2).subrange(64 * k, 64 * k + 64) == entry_bytes(
            name_field(m[k].0),
            member_offset(m, k) as u32,
            m[k].1.len() as u32,
        ),
    decreases k2,
{
    let e = entry_bytes(
        name_field(m[k2 - 1].0),
        member_offset(m, k2 - 1) as u32,
        m[k2 - 1].1.len() as u32,
    );
    lemma_members_table_len(m, k2 - 1);
    lemma_name_field_len(m[k2 - 1].0);
    lemma_entry_fields(name_field(m[k2 - 1].0), member_offset(m, k2 - 1) as u32, m[k2 - 1].1.len() as u32);
    if k < k2 - 1 {
        lemma_members_table_record(m, k2 - 1, k);
        assert(members_table(m, k2).subrange(64 * k, 64 * k + 64) =~= members_table(m, k2 - 1).subrange(64 * k, 64 * k + 64));
    } else {
        assert(members_table(m, k2).subrange(64 * k, 64 * k + 64) =~= e);
    }
}

proof fn lemma_member_data(m: Members, k: int)
    requires
        0 <= k < m.len(),
    ensures
        member_offset(m, k) + m[k].1.len() <= 12 + members_data(m).len(),
        members_data(m).subrange(member_offset(m, k) - 12, member_offset(m, k) - 12 + m[k].1.len())
            == m[k].1,
{
    lemma_members_data_step(m, k);
    lemma_members_data_concat(m.take(k + 1), m.skip(k + 1));
    assert(m.take(k + 1) + m.skip(k + 1) =~= m);
    let lo = member_offset(m, k) - 12;
    assert(members_data(m).subrange(lo, lo + m[k].1.len()) =~= m[k].1);
}

/// Decoding an encoded archive gives back its members, in order, with their
/// names and data unchanged, where every name fits in a record and the
/// archive fits in 32-bit offsets.
pub proof fn lemma_archive_round_trip(m: Members)
    requires
        encoded_len(m) <= u32::MAX,
        forall|i: int| 0 <= i < m.len() ==> name_fits(#[trigger] m[i].0),
    ensures
        archive_decode(archive_bytes(m)) == Ok::<Members, PakError>(m),
{
    let d = archive_bytes(m);
    let data = members_data(m);
    let n = m.len() as int;
    let start = 12 + data.len();
    lemma_header_round_trip(start as u32, (64 * n) as u32);
    lemma_members_table_len(m, n);
    let h = header_bytes(start as u32, (64 * n) as u32);
    lemma_auto_spec_u32_to_from_le_bytes();
    assert(d.subrange(0, 12) =~= h);
    assert(d.subrange(0, 4) =~= h.subrange(0, 4));
    assert(d.subrange(4, 8) =~= h.subrange(4, 8));
    assert(d.subrange(8, 12) =~= h.subrange(8, 12));
    assert(header_decode(d) is Ok);
    assert(table_start(d) == start);
    assert(d.len() == start + 64 * n);
    assert(table_count(d) == n) by (nonlinear_arith)
        requires
            d.len() == start + 64 * n,
            table_start(d) == start,
            table_count(d) == (d.len() - table_start(d)) / 64,
    ;
    assert((d.len() - table_start(d)) % 64 == 0) by (nonlinear_arith)
        requires
            d.len() - table_start(d) == 64 * n,
    ;
    assert forall|k: int| 0 <= k < n implies record_in_bounds(d, #[trigger] record_pos(d, k))
        && member_at(d, record_pos(d, k)) == m[k] by {
        let pos = record_pos(d, k);
        let off = member_offset(m, k);
        let size = m[k].1.len() as int;
        lemma_members_table_record(m, n, k);
        lemma_member_data(m, k);
        lemma_name_field_len(m[k].0);
        lemma_entry_fields(name_field(m[k].0), off as u32, size as u32);
        lemma_name_round_trip(m[k].0);
        let e = entry_bytes(name_field(m[k].0), off as u32, size as u32);
        assert(0 <= 64 * k && 64 * k + 64 <= 64 * n) by (nonlinear_arith)
            requires
                0 <= k < n,
        ;
        assert(d.subrange(pos, pos + 64) =~= e);
        assert(d.subrange(pos, pos + 56) =~= e.subrange(0, 56));
        assert(d.subrange(pos + 56, pos + 60) =~= e.subrange(56, 60));
        assert(d.subrange(pos + 60, pos + 64) =~= e.subrange(60, 64));
        assert(d.subrange(off, off + size) =~= data.subrange(off - 12, off - 12 + size));
    }
    assert(Seq::new(table_count(d) as nat, |k: int| member_at(d, record_pos(d, k))) =~= m);
}

/// An in-memory representation of a PAK archive.
pub struct PakArchive<'a> {
    /// Files contained within this archive.
    pub files: Vec<(String, &'a [u8])>,
}

impl<'a> View for PakArchive<'a> {
    type V = Members;

    open spec fn view(&self) -> Members {
        self.files@.map_values(|f: (String, &'a [u8])| (f.0@, f.1@))
    }
}

impl<'a> PakArchive<'a> {
    /// Create a new empty PAK archive.
    pub fn new() -> (r: Self)
        ensures
            r@ == Seq::<(Seq<char>, Seq<u8>)>::empty(),
    {
        let r = Self { files: Vec::new() };
        assert(r@ =~= Seq::<(Seq<char>, Seq<u8>)>::empty());
        r
    }

    /// Add a file to the archive with the given file name, containing the
    /// given data.
    pub fn add_file(&mut self, file_name: String, file_data: &'a [u8])
        ensures
            final(self).files@ == old(self).files@.push((file_name, file_data)),
            final(self)@ == old(self)@.push((file_name@, file_data@)),
    {
        self.files.push((file_name, file_data));
        assert(self@ =~= old(self)@.push((file_name@, file_data@)));
    }

    /// Decode a PAK archive from an input byte slice.
    ///
    /// The file table is read from the header's table offset to the end of
    /// `data`. Fails with `Bounds` where the header, the table or a member's
    /// data lies outside `data`, and with `Format` where the identifier is
    /// wrong. The members' data borrow from `data`.
    pub fn from_bytes(data: &'a [u8]) -> (r: Result<Self, PakError>)
        ensures
            r is Ok <==> archive_decode(data@) is Ok,
            r is Ok ==> r->Ok_0@ == archive_decode(data@)->Ok_0,
            r is Err ==> r->Err_0 == archive_decode(data@)->Err_0,
    {
        let ghost d = data@;
        let header = match PakHeader::from_bytes(data) {
            Ok(h) => h,
            Err(e) => return Err(e),
        };
        let len = data.len();
        let start = header.table_offset as usize;
        if start > len || (len - start) % (PAK_FILE_LENGTH as usize) != 0 {
            return Err(PakError::Bounds);
        }
        let ghost count = table_count(d);
        assert(len == start + 64 * count);
        let mut files: Vec<(String, &'a [u8])> = Vec::new();
        let mut offset: usize = start;
        while offset < len
            invariant
                d == data@,
                header_decode(d) is Ok,
                len == d.len(),
                start == table_start(d),
                len == start + 64 * count,
                count == table_count(d),
                offset == start + 64 * files@.len(),
                files@.len() <= count,
                forall|k: int|
                    0 <= k < files@.len() ==> record_in_bounds(d, #[trigger] record_pos(d, k)),
                forall|k: int|
                    0 <= k < files@.len() ==> (#[trigger] files@[k].0@, files@[k].1@)
                        == member_at(d, record_pos(d, k)),
            decreases len - offset,
        {
            let ghost k = files@.len() as int;
            assert(k < count) by (nonlinear_arith)
                requires
                    start + 64 * k < start + 64 * count,
            ;
            assert(offset + 64 <= len) by (nonlinear_arith)
                requires
                    offset == start + 64 * k,
                    len == start + 64 * count,
                    k < count,
            ;
            let record = slice_subrange(data, offset, offset + 64);
            let entry = PakFileEntry::from_bytes(record);
            assert(record@.subrange(0, 56) == d.subrange(offset as int, offset + 56));
            assert(record@.subrange(56, 60) == d.subrange(offset + 56, offset + 60));
            assert(record@.subrange(60, 64) == d.subrange(offset + 60, offset + 64));
            assert(record_pos(d, k) == offset);
            let file_offset = entry.offset as usize;
            let file_size = entry.size as usize;
            if file_offset > len || file_size > len - file_offset {
                assert(!record_in_bounds(d, record_pos(d, k)));
                return Err(PakError::Bounds);
            }
            let file_data = slice_subrange(data, file_offset, file_offset + file_size);
            let name = entry.get_name();
            files.push((name, file_data));
            offset = offset + PAK_FILE_LENGTH as usize;
        }
        assert(files@.len() == count) by (nonlinear_arith)
            requires
                offset == start + 64 * files@.len(),
                len == start + 64 * count,
                offset >= len,
                files@.len() <= count,
        ;
        let r = Self { files };
        assert(r@ =~= Seq::new(count as nat, |k: int| member_at(d, record_pos(d, k))));
        Ok(r)
    }

    /// Encode this archive representation into a byte vector: the header,
    /// then the members' data in order, then one table record per member.
    ///
    /// Fails with `SizeOverflow` when the encoded archive would be longer
    /// than its 32-bit offsets can address.
    pub fn as_bytes(&self) -> (r: Result<Vec<u8>, PakError>)
        ensures
            r is Ok <==> encoded_len(self@) <= u32::MAX,
            r is Ok ==> r->Ok_0@ == archive_bytes(self@),
            r is Err ==> r->Err_0 == PakError::SizeOverflow,
    {
        let ghost m = self@;
        let n = self.files.len();
        let mut offset: u32 = PAK_HEADER_LENGTH;
        let mut output: Vec<u8> = Vec::new();
        let mut file_table: Vec<PakFileEntry> = Vec::new();
        let mut i: usize = 0;
        assert(m.take(0) =~= Seq::<(Seq<char>, Seq<u8>)>::empty());
        while i < n
            invariant
                m == self@,
                n == m.len(),
                i <= n,
                offset == member_offset(m, i as int),
                output@ == members_data(m.take(i as int)),
                file_table@.len() == i,
                forall|k: int|
                    0 <= k < i ==> {
                        &&& (#[trigger] file_table@[k]).name_bytes@ == name_field(m[k].0)
                        &&& file_table@[k].offset == member_offset(m, k)
                        &&& file_table@[k].size == m[k].1.len()
                    },
            decreases n - i,
        {
            let fname = &self.files[i].0;
            let fdata = self.files[i].1;
            proof {
                lemma_members_data_step(m, i as int);
                assert(m[i as int].1 == fdata@);
            }
            if fdata.len() > (u32::MAX - offset) as usize {
                return Err(PakError::SizeOverflow);
            }
            let flength = fdata.len() as u32;
            file_table.push(PakFileEntry::new(fname.clone(), offset, flength));
            append_bytes(&mut output, fdata);
            offset = offset + flength;
            i = i + 1;
        }
        assert(m.take(n as int) =~= m);
        let table_offset = offset;
        let mut j: usize = 0;
        assert(output@ =~= members_data(m) + members_table(m, 0));
        while j < n
            invariant
                m == self@,
                n == m.len(),
                j <= n,
                file_table@.len() == n,
                table_offset == 12 + members_data(m).len(),
                offset == table_offset + 64 * j,
                output@ == members_data(m) + members_table(m, j as int),
                forall|k: int|
                    0 <= k < n ==> {
                        &&& (#[trigger] file_table@[k]).name_bytes@ == name_field(m[k].0)
                        &&& file_table@[k].offset == member_offset(m, k)
                        &&& file_table@[k].size == m[k].1.len()
                    },
            decreases n - j,
        {
            if offset > u32::MAX - PAK_FILE_LENGTH {
                assert(encoded_len(m) > u32::MAX) by (nonlinear_arith)
                    requires
                        encoded_len(m) == table_offset + 64 * n,
                        offset == table_offset + 64 * j,
                        j < n,
                        offset > u32::MAX - 64,
                ;
                return Err(PakError::SizeOverflow);
            }
            let tdata = file_table[j].as_bytes();
            append_bytes(&mut output, tdata.as_slice());
            offset = offset + PAK_FILE_LENGTH;
            assert(output@ =~= members_data(m) + members_table(m, j + 1));
            j = j + 1;
        }
        let header = PakHeader::new(table_offset, offset - table_offset);
        let mut bytes = header.as_bytes();
        append_bytes(&mut bytes, output.as_slice());
        assert(bytes@ =~= archive_bytes(m));
        Ok(bytes)
    }
}

} // verus!
