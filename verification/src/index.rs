//! The index file of a package name: one record per line, in the order in
//! which the versions were published.

use vstd::prelude::*;
use crate::package::{single_line, NEWLINE};

verus! {

/// The line that is written for one record: the record, then a line break.
pub open spec fn entry_line(record: Seq<u8>) -> Seq<u8> {
    record.push(NEWLINE)
}

/// The bytes of an index file that holds exactly the given records.
pub open spec fn index_bytes(records: Seq<Seq<u8>>) -> Seq<u8>
    decreases records.len(),
{
    if records.len() == 0 {
        Seq::empty()
    } else {
        index_bytes(records.drop_last()) + entry_line(records.last())
    }
}

/// The records in `content`, where `line` holds the bytes of the line that
/// has begun before `content`. Each line break ends a record. Bytes after the
/// last line break form a record too.
pub open spec fn records_after(line: Seq<u8>, content: Seq<u8>) -> Seq<Seq<u8>>
    decreases content.len(),
{
    if content.len() == 0 {
        if line.len() == 0 {
            Seq::empty()
        } else {
            seq![line]
        }
    } else if content[0] == NEWLINE {
        seq![line] + records_after(Seq::empty(), content.drop_first())
    } else {
        records_after(line.push(content[0]), content.drop_first())
    }
}

/// The records that an index file holds, in the order of the file.
pub open spec fn records_of(content: Seq<u8>) -> Seq<Seq<u8>> {
    records_after(Seq::empty(), content)
}

/// The contents of a list of byte strings.
pub open spec fn byte_views(lines: Seq<Vec<u8>>) -> Seq<Seq<u8>> {
    Seq::new(lines.len(), |i: int| lines[i]@)
}

/// Builds the line that is appended to the index for one record.
pub fn make_entry(record: &Vec<u8>) -> (line: Vec<u8>)
    ensures
        line@ == entry_line(record@),
{
    let mut line = record.clone();
    line.push(NEWLINE);
    line
}

/// Cuts the bytes of an index file into its records.
pub fn split_records(content: &Vec<u8>) -> (records: Vec<Vec<u8>>)
    ensures
        byte_views(records@) == records_of(content@),
{
    let mut records: Vec<Vec<u8>> = Vec::new();
    let mut line: Vec<u8> = Vec::new();
    let mut i: usize = 0;
    proof {
        assert(content@.skip(0) =~= content@);
        assert(byte_views(records@) + records_of(content@) =~= records_of(content@));
    }
    while i < content.len()
        invariant
            i <= content.len(),
            records_of(content@) == byte_views(records@) + records_after(
                line@,
                content@.skip(i as int),
            ),
        decreases content.len() - i,
    {
        let ghost rest = content@.skip(i as int);
        let ghost before = byte_views(records@);
        let ghost pending = line@;
        assert(rest.drop_first() =~= content@.skip(i + 1));
        assert(rest[0] == content@[i as int]);
        let byte = content[i];
        if byte == NEWLINE {
            records.push(line);
            line = Vec::new();
            assert(byte_views(records@) =~= before + seq![pending]);
        } else {
            line.push(byte);
        }
        i = i + 1;
    }
    assert(content@.skip(content@.len() as int).len() == 0);
    if line.len() > 0 {
        let ghost before = byte_views(records@);
        let ghost pending = line@;
        records.push(line);
        assert(byte_views(records@) =~= before + seq![pending]);
    } else {
        assert(byte_views(records@) + Seq::<Seq<u8>>::empty() =~= byte_views(records@));
    }
    records
}

/// The bytes of records written one after the other are the bytes of the
/// first ones followed by those of the rest.
pub proof fn lemma_index_bytes_concat(first: Seq<Seq<u8>>, rest: Seq<Seq<u8>>)
    ensures
        index_bytes(first + rest) == index_bytes(first) + index_bytes(rest),
    decreases rest.len(),
{
    if rest.len() == 0 {
        assert(first + rest =~= first);
        assert(index_bytes(first) + index_bytes(rest) =~= index_bytes(first));
    } else {
        lemma_index_bytes_concat(first, rest.drop_last());
        assert((first + rest).drop_last() =~= first + rest.drop_last());
        assert((first + rest).last() == rest.last());
        assert(index_bytes(first + rest) =~= index_bytes(first) + index_bytes(rest));
    }
}

/// A line without a line break, followed by a line break, is read back as
/// one record: what had begun before it, and the line.
pub proof fn lemma_records_after_line(begun: Seq<u8>, line: Seq<u8>, rest: Seq<u8>)
    requires
        single_line(line),
    ensures
        records_after(begun, entry_line(line) + rest) == seq![begun + line] + records_of(rest),
    decreases line.len(),
{
    let content = entry_line(line) + rest;
    if line.len() == 0 {
        assert(content[0] == NEWLINE);
        assert(content.drop_first() =~= rest);
        assert(begun + line =~= begun);
    } else {
        assert(content[0] == line[0]);
        assert(line[0] != NEWLINE);
        assert(content.drop_first() =~= entry_line(line.drop_first()) + rest);
        lemma_records_after_line(begun.push(line[0]), line.drop_first(), rest);
        assert(begun.push(line[0]) + line.drop_first() =~= begun + line);
    }
}

/// Reading an index file gives back the records that were written to it, in
/// the order in which they were written.
pub proof fn lemma_records_of_index_bytes(records: Seq<Seq<u8>>)
    requires
        forall|i: int| 0 <= i < records.len() ==> single_line(#[trigger] records[i]),
    ensures
        records_of(index_bytes(records)) == records,
    decreases records.len(),
{
    if records.len() == 0 {
    } else {
        let first = records.first();
        let rest = records.drop_first();
        assert(records =~= seq![first] + rest);
        lemma_index_bytes_concat(seq![first], rest);
        assert(seq![first].drop_last() =~= Seq::<Seq<u8>>::empty());
        assert(index_bytes(seq![first].drop_last()) =~= Seq::<u8>::empty());
        assert(seq![first].last() == first);
        assert(index_bytes(seq![first]) =~= entry_line(first));
        assert forall|i: int| 0 <= i < rest.len() implies single_line(#[trigger] rest[i]) by {
            assert(rest[i] == records[i + 1]);
        }
        lemma_records_of_index_bytes(rest);
        lemma_records_after_line(Seq::empty(), first, index_bytes(rest));
        assert(Seq::<u8>::empty() + first =~= first);
    }
}

/// No record that is read from an index file holds a line break, provided
/// that what had begun before holds none.
pub proof fn lemma_records_after_single_line(begun: Seq<u8>, content: Seq<u8>)
    requires
        single_line(begun),
    ensures
        forall|i: int|
            0 <= i < records_after(begun, content).len() ==> single_line(
                #[trigger] records_after(begun, content)[i],
            ),
    decreases content.len(),
{
    let records = records_after(begun, content);
    if content.len() == 0 {
        assert forall|i: int| 0 <= i < records.len() implies single_line(#[trigger] records[i]) by {
            assert(records[i] == begun);
        }
    } else if content[0] == NEWLINE {
        let rest = records_after(Seq::empty(), content.drop_first());
        lemma_records_after_single_line(Seq::empty(), content.drop_first());
        assert forall|i: int| 0 <= i < records.len() implies single_line(#[trigger] records[i]) by {
            if i > 0 {
                assert(records[i] == rest[i - 1]);
            }
        }
    } else {
        let next = records_after(begun.push(content[0]), content.drop_first());
        assert(single_line(begun.push(content[0])));
        lemma_records_after_single_line(begun.push(content[0]), content.drop_first());
        assert(records == next);
        assert forall|i: int| 0 <= i < records.len() implies single_line(#[trigger] records[i]) by {
            assert(single_line(next[i]));
        }
    }
}

/// No record that is read from an index file holds a line break.
pub proof fn lemma_records_single_line(content: Seq<u8>)
    ensures
        forall|i: int|
            0 <= i < records_of(content).len() ==> single_line(#[trigger] records_of(content)[i]),
{
    lemma_records_after_single_line(Seq::empty(), content);
}

} // verus!
