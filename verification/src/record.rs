//! The text of one snapshot record of the log: a capture time and the
//! value of every parameter, in the order of the parameters, on a line of
//! its own.

use vstd::prelude::*;
use crate::text::decimal;
use crate::text::digits;

verus! {

/// One parameter of a snapshot: its id and its numeric value, written out.
#[derive(Debug)]
pub struct Field {
    pub id: u16,
    pub value: Vec<u8>,
}

/// `{"time":"`, the start of a record.
pub open spec fn record_head() -> Seq<u8> {
    seq![0x7bu8, 0x22, 0x74, 0x69, 0x6d, 0x65, 0x22, 0x3a, 0x22]
}

/// `},` and the newline that ends a record.
pub open spec fn record_tail() -> Seq<u8> {
    seq![0x7du8, 0x2c, 0x0a]
}

/// One field of a record: `,"`, the id in decimal, `":`, the value.
pub open spec fn field_bytes(id: u16, value: Seq<u8>) -> Seq<u8> {
    seq![0x2cu8, 0x22] + digits(id as nat) + seq![0x22u8, 0x3a] + value
}

/// The fields of a record, one after the other.
pub open spec fn fields_bytes(fields: Seq<Field>) -> Seq<u8>
    decreases fields.len(),
{
    if fields.len() == 0 {
        Seq::empty()
    } else {
        fields_bytes(fields.drop_last()) + field_bytes(fields.last().id, fields.last().value@)
    }
}

/// A record: the head, the time, the quote that closes it, the fields and
/// the tail.
pub open spec fn record_bytes(time: Seq<u8>, fields: Seq<Field>) -> Seq<u8> {
    record_head() + time + seq![0x22u8] + fields_bytes(fields) + record_tail()
}

/// Appends `bytes` to `out`.
fn append(out: &mut Vec<u8>, bytes: &Vec<u8>)
    ensures
        final(out)@ == old(out)@ + bytes@,
{
    let mut k: usize = 0;
    while k < bytes.len()
        invariant
            k <= bytes.len(),
            out@ == old(out)@ + bytes@.take(k as int),
        decreases bytes.len() - k,
    {
        out.push(bytes[k]);
        assert(bytes@.take(k + 1) =~= bytes@.take(k as int).push(bytes@[k as int]));
        k += 1;
    }
    assert(bytes@.take(k as int) =~= bytes@);
}

impl Field {
    /// The field of a parameter whose value is the integer `val`.
    pub fn integer(id: u16, val: u32) -> (field: Field)
        ensures
            field.id == id,
            field.value@ == digits(val as nat),
    {
        Field { id, value: decimal(val) }
    }
}

/// Writes one snapshot record: the capture time, then the fields in their
/// order. The record ends with a newline.
pub fn snapshot_record(time: &Vec<u8>, fields: &Vec<Field>) -> (record: Vec<u8>)
    ensures
        record@ == record_bytes(time@, fields@),
        record@.len() >= 13,
        record@[record@.len() - 1] == 0x0a,
{
    let mut record: Vec<u8> = Vec::new();
    record.push(0x7b);
    record.push(0x22);
    record.push(0x74);
    record.push(0x69);
    record.push(0x6d);
    record.push(0x65);
    record.push(0x22);
    record.push(0x3a);
    record.push(0x22);
    assert(record@ =~= record_head());
    append(&mut record, time);
    record.push(0x22);
    let ghost start = record@;
    assert(fields@.take(0) =~= Seq::<Field>::empty());
    let mut k: usize = 0;
    while k < fields.len()
        invariant
            k <= fields.len(),
            record@ == start + fields_bytes(fields@.take(k as int)),
        decreases fields.len() - k,
    {
        let ghost before = record@;
        record.push(0x2c);
        record.push(0x22);
        let id_text = decimal(fields[k].id as u32);
        append(&mut record, &id_text);
        record.push(0x22);
        record.push(0x3a);
        append(&mut record, &fields[k].value);
        proof {
            let upto = fields@.take(k + 1);
            assert(upto.drop_last() =~= fields@.take(k as int));
            assert(upto.last() == fields@[k as int]);
            assert(record@ =~= before + field_bytes(fields@[k as int].id, fields@[k as int].value@));
            assert(record@ =~= start + fields_bytes(upto));
        }
        k += 1;
    }
    assert(fields@.take(k as int) =~= fields@);
    record.push(0x7d);
    record.push(0x2c);
    record.push(0x0a);
    assert(record@ =~= record_bytes(time@, fields@));
    record
}

} // verus!
