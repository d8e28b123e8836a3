//! The one record type of the table, and its form in a page.

use vstd::prelude::*;
use crate::bytes::{spec_u32_at, spec_put_u32, spec_copy, read_u32, write_u32, lemma_put_then_get};
use crate::layout::{ID_OFFSET, USERNAME_OFFSET, EMAIL_OFFSET, USERNAME_SIZE, EMAIL_SIZE};

verus! {

/// A row: its key, and two texts that end at their first zero byte.
#[derive(Clone, Copy, Debug)]
pub struct Row {
    pub id: u32,
    pub username: [u8; 33],
    pub email: [u8; 256],
}

impl Row {
    /// The 293 bytes that stand for the row in a page: the key, least
    /// significant byte first, then the user name and the e-mail address
    /// with all their bytes.
    pub open spec fn spec_bytes(self) -> Seq<u8> {
        spec_put_u32(Seq::new(4, |i: int| 0u8), 0, self.id) + self.username@ + self.email@
    }
}

/// `row` is what the 293 bytes of `bytes` stand for.
pub open spec fn row_matches(row: Row, bytes: Seq<u8>) -> bool {
    &&& bytes.len() == 293
    &&& row.id == spec_u32_at(bytes, 0)
    &&& row.username@ == bytes.subrange(4, 37)
    &&& row.email@ == bytes.subrange(37, 293)
}

/// A row is what its own bytes stand for, and the bytes stand for no other
/// row.
pub proof fn lemma_row_bytes(row: Row, other: Row)
    ensures
        row.spec_bytes().len() == 293,
        row_matches(row, row.spec_bytes()),
        row_matches(other, row.spec_bytes()) ==> other == row,
{
    let head = spec_put_u32(Seq::new(4, |i: int| 0u8), 0, row.id);
    lemma_put_then_get(Seq::new(4, |i: int| 0u8), 0, row.id);
    let b = row.spec_bytes();
    assert(b.len() == 293);
    assert(b[0] == head[0] && b[1] == head[1] && b[2] == head[2] && b[3] == head[3]);
    assert(b.subrange(4, 37) =~= row.username@);
    assert(b.subrange(37, 293) =~= row.email@);
    if row_matches(other, b) {
        assert(other.username =~= row.username);
        assert(other.email =~= row.email);
    }
}

/// Writes the 293 bytes of `source` into `destination` at `offset`.
pub fn serialize_row(source: &Row, destination: &mut Vec<u8>, offset: usize)
    requires
        offset + 293 <= old(destination).len(),
    ensures
        final(destination)@ == spec_copy(
            old(destination)@,
            offset as int,
            source.spec_bytes(),
            0,
            293,
        ),
        final(destination).len() == old(destination).len(),
{
    write_u32(destination, offset + ID_OFFSET as usize, source.id);
    let ghost after_id = destination@;
    let mut i: usize = 0;
    while i < USERNAME_SIZE as usize
        invariant
            i <= 33,
            destination.len() == old(destination).len(),
            offset + 293 <= destination.len(),
            forall|j: int| 0 <= j < offset + 4 + i ==> destination@[j] == spec_copy(
                    old(destination)@,
                    offset as int,
                    source.spec_bytes(),
                    0,
                    293,
                )[j],
            forall|j: int| offset + 4 + i <= j < destination.len() ==> destination@[j] == old(
                    destination,
                )@[j],
        decreases 33 - i,
    {
        destination[offset + USERNAME_OFFSET as usize + i] = source.username[i];
        i += 1;
    }
    let mut k: usize = 0;
    while k < EMAIL_SIZE as usize
        invariant
            k <= 256,
            destination.len() == old(destination).len(),
            offset + 293 <= destination.len(),
            forall|j: int| 0 <= j < offset + 37 + k ==> destination@[j] == spec_copy(
                    old(destination)@,
                    offset as int,
                    source.spec_bytes(),
                    0,
                    293,
                )[j],
            forall|j: int| offset + 37 + k <= j < destination.len() ==> destination@[j] == old(
                    destination,
                )@[j],
        decreases 256 - k,
    {
        destination[offset + EMAIL_OFFSET as usize + k] = source.email[k];
        k += 1;
    }
    assert(destination@ =~= spec_copy(
        old(destination)@,
        offset as int,
        source.spec_bytes(),
        0,
        293,
    ));
}

/// Reads into `destination` the row that the 293 bytes of `source` at
/// `offset` stand for.
pub fn deserialize_row(source: &Vec<u8>, offset: usize, destination: &mut Row)
    requires
        offset + 293 <= source.len(),
    ensures
        row_matches(*final(destination), source@.subrange(offset as int, offset + 293)),
{
    destination.id = read_u32(source, offset + ID_OFFSET as usize);
    let mut i: usize = 0;
    while i < USERNAME_SIZE as usize
        invariant
            i <= 33,
            offset + 293 <= source.len(),
            destination.id == spec_u32_at(source@, offset as int),
            forall|j: int| 0 <= j < i ==> destination.username@[j] == source@[offset + 4 + j],
        decreases 33 - i,
    {
        destination.username[i] = source[offset + USERNAME_OFFSET as usize + i];
        i += 1;
    }
    let mut k: usize = 0;
    while k < EMAIL_SIZE as usize
        invariant
            k <= 256,
            offset + 293 <= source.len(),
            destination.id == spec_u32_at(source@, offset as int),
            forall|j: int| 0 <= j < 33 ==> destination.username@[j] == source@[offset + 4 + j],
            forall|j: int| 0 <= j < k ==> destination.email@[j] == source@[offset + 37 + j],
        decreases 256 - k,
    {
        destination.email[k] = source[offset + EMAIL_OFFSET as usize + k];
        k += 1;
    }
    proof {
        let bytes = source@.subrange(offset as int, offset + 293);
        assert(destination.username@ =~= bytes.subrange(4, 37));
        assert(destination.email@ =~= bytes.subrange(37, 293));
    }
}

} // verus!
