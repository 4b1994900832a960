//! The device registry as it was read: what became of reading one attribute
//! file, which nested entries of a device are its partitions, and the device
//! type that an event listing names.

use crate::text::{
    has_prefix, lines, next_line, range_equals, range_has_prefix, to_chars, to_text, trim,
    trimmed, without_prefixes,
};
use vstd::prelude::*;

verus! {

/// What became of reading one attribute file.
#[derive(Clone, Debug, PartialEq, Eq)]
pub enum ReadOutcome<E> {
    /// The file was read; this is what it holds.
    Content(String),
    /// There is no such file.
    Missing,
    /// The file could not be read, for any other reason.
    Failed(E),
}

/// The text that an attribute has after a read: what the file holds without
/// the whitespace around it, nothing if there is no such file, and the
/// failure if the read failed otherwise.
pub open spec fn attribute_text<E>(outcome: ReadOutcome<E>) -> Result<Seq<char>, E> {
    match outcome {
        ReadOutcome::Content(s) => Ok(trimmed(s@)),
        ReadOutcome::Missing => Ok(Seq::empty()),
        ReadOutcome::Failed(e) => Err(e),
    }
}

/// Whether `entry` names a partition of the device `device`: it begins with
/// the device's name and is not that name itself.
pub open spec fn is_partition_name(device: Seq<char>, entry: Seq<char>) -> bool {
    has_prefix(entry, device) && entry != device
}

/// The test that picks the partitions of `device` among entry names.
pub open spec fn partition_of(device: Seq<char>) -> spec_fn(Seq<char>) -> bool {
    |entry: Seq<char>| is_partition_name(device, entry)
}

/// The key that opens the line of an event listing that names the device
/// type.
pub open spec fn devtype_key() -> Seq<char> {
    "DEVTYPE="@
}

/// The first of `ls` that begins with `prefix`.
pub open spec fn first_with_prefix(ls: Seq<Seq<char>>, prefix: Seq<char>) -> Option<Seq<char>>
    decreases ls.len(),
{
    if ls.len() == 0 {
        None
    } else if has_prefix(ls.first(), prefix) {
        Some(ls.first())
    } else {
        first_with_prefix(ls.drop_first(), prefix)
    }
}

/// The device type that an event listing names: the first line that begins
/// with the key, without the key, which is taken off as often as it stands
/// at the start; nothing if no line begins with the key.
pub open spec fn disk_type(content: Seq<char>) -> Seq<char> {
    match first_with_prefix(lines(content), devtype_key()) {
        Some(line) => without_prefixes(line, devtype_key()),
        None => Seq::empty(),
    }
}

/// Settles what an attribute reads as. A file that is not there reads as
/// empty text, a file that is there as its content without the whitespace
/// around it; any other failure is handed on.
pub fn read_file_to_string<E>(outcome: ReadOutcome<E>) -> (r: Result<String, E>)
    ensures
        match r {
            Ok(text) => attribute_text(outcome) == Ok::<Seq<char>, E>(text@),
            Err(e) => attribute_text(outcome) == Err::<Seq<char>, E>(e),
        },
{
    match outcome {
        ReadOutcome::Content(s) => Ok(trim(s.as_str())),
        ReadOutcome::Missing => Ok(String::new()),
        ReadOutcome::Failed(e) => Err(e),
    }
}

/// Whether `entry` names a partition of the device `device`.
pub fn names_partition(device: &str, entry: &str) -> (b: bool)
    ensures
        b == is_partition_name(device@, entry@),
{
    let d = to_chars(device);
    let e = to_chars(entry);
    assert(e@.subrange(0, e@.len() as int) == e@);
    range_has_prefix(&e, 0, e.len(), &d) && !range_equals(&e, 0, e.len(), &d)
}

/// The partitions of a device among the entries nested under it: those
/// whose name begins with the device's name and is not that name, in the
/// order of `entries`.
pub fn get_partitions(device_name: &str, entries: &Vec<String>) -> (partitions: Vec<String>)
    ensures
        partitions.deep_view() == entries.deep_view().filter(partition_of(device_name@)),
{
    let mut partitions: Vec<String> = Vec::new();
    let mut i: usize = 0;
    assert(entries.deep_view().take(0) == Seq::<Seq<char>>::empty());
    while i < entries.len()
        invariant
            i <= entries.len(),
            partitions.deep_view() == entries.deep_view().take(i as int).filter(
                partition_of(device_name@),
            ),
        decreases entries.len() - i,
    {
        let ghost before = partitions.deep_view();
        let ghost seen = entries.deep_view().take(i as int);
        proof {
            assert(entries.deep_view().take(i + 1) == seen.push(entries[i as int]@));
            seen.lemma_filter_push(entries[i as int]@, partition_of(device_name@));
        }
        if names_partition(device_name, entries[i].as_str()) {
            partitions.push(entries[i].clone());
            assert(partitions.deep_view() == before.push(entries[i as int]@));
        }
        i += 1;
    }
    assert(entries.deep_view().take(i as int) == entries.deep_view());
    partitions
}

/// The device type that an event listing names: what follows `DEVTYPE=` on
/// the first line that begins with it, and nothing if no line does. Should
/// the key stand there more than once in a row, all of them are taken off.
pub fn get_disk_type(uevent_content: &str) -> (dev_type: String)
    ensures
        dev_type@ == disk_type(uevent_content@),
{
    let v = to_chars(uevent_content);
    let key = to_chars("DEVTYPE=");
    proof {
        reveal_strlit("DEVTYPE=");
    }
    let mut pos: usize = 0;
    assert(v@.skip(0) == v@);
    while pos < v.len()
        invariant
            pos <= v.len(),
            v@ == uevent_content@,
            key@ == devtype_key(),
            key@.len() == 8,
            first_with_prefix(lines(v@), key@) == first_with_prefix(
                lines(v@.skip(pos as int)),
                key@,
            ),
        decreases v.len() - pos,
    {
        let (line_to, next) = next_line(&v, pos);
        let ghost line = v@.subrange(pos as int, line_to as int);
        let ghost rest = lines(v@.skip(next as int));
        assert((seq![line] + rest).drop_first() == rest);
        assert((seq![line] + rest).first() == line);
        if range_has_prefix(&v, pos, line_to, &key) {
            let mut from: usize = pos;
            while range_has_prefix(&v, from, line_to, &key)
                invariant
                    pos <= from <= line_to <= v.len(),
                    key@.len() == 8,
                    without_prefixes(line, key@) == without_prefixes(
                        v@.subrange(from as int, line_to as int),
                        key@,
                    ),
                    line == v@.subrange(pos as int, line_to as int),
                decreases line_to - from,
            {
                assert(v@.subrange(from as int, line_to as int).skip(8) == v@.subrange(
                    from + 8,
                    line_to as int,
                ));
                from += key.len();
            }
            return to_text(&v, from, line_to);
        }
        pos = next;
    }
    assert(lines(v@.skip(pos as int)) == Seq::<Seq<char>>::empty());
    String::new()
}

} // verus!
