//! The report: one row for each record, in the order of the device
//! identifiers, under an optional header row.

use crate::device::{size_in_bytes, BlockDevice, BlockDeviceView, DeviceKind};
use crate::order::{
    is_stable_order, lemma_stable_order_exists, positions, sort_positions, stable_order, texts_of,
};
use crate::size::{
    convert_bytes_to_human_readable, decimal, human_readable, lemma_decimal_round_trip,
    parsed_u64, sectors_to_bytes, to_decimal, SECTOR_BYTES,
};
use crate::text::{joined, padded, to_chars};
use vstd::prelude::*;

verus! {

/// How the report is shown.
#[derive(Clone, Copy, Debug, PartialEq, Eq, Structural)]
pub struct DisplayOptions {
    /// Show sizes as plain byte counts instead of human-readable sizes.
    pub bytes: bool,
    /// Leave out the header row.
    pub noheading: bool,
}

/// What stands before the name of a partition in its row.
pub open spec fn partition_mark() -> Seq<char> {
    "\u{251c}\u{2500}"@
}

/// What stands between two mount points of one record: a line break and the
/// indentation that brings the next mount point under the first.
pub open spec fn mount_separator() -> Seq<char> {
    "\n\t\t\t\t\t      "@
}

/// One row of the table: seven cells, each padded to the width of its
/// column, with one space between each two.
pub open spec fn table_row(
    name: Seq<char>,
    dev_id: Seq<char>,
    rm: Seq<char>,
    size: Seq<char>,
    ro: Seq<char>,
    dev_type: Seq<char>,
    mounts: Seq<char>,
) -> Seq<char> {
    padded(name, 12).push(' ') + padded(dev_id, 8).push(' ') + padded(rm, 2).push(' ') + padded(
        size,
        12,
    ).push(' ') + padded(ro, 2).push(' ') + padded(dev_type, 4).push(' ') + padded(mounts, 15)
}

/// The header row.
pub open spec fn header_row() -> Seq<char> {
    table_row("NAME"@, "MAJ:MIN"@, "RM"@, "SIZE"@, "RO"@, "TYPE"@, "MOUNTPOINTS"@)
}

/// The name cell of a record: the name, for a partition behind the mark
/// that nests it under its disk.
pub open spec fn shown_name(record: BlockDeviceView) -> Seq<char> {
    match record.kind {
        DeviceKind::Partition => partition_mark() + record.name,
        DeviceKind::Disk => record.name,
    }
}

/// The size cell of a record: its size in bytes, as a plain number or in
/// human-readable form.
pub open spec fn shown_size(record: BlockDeviceView, raw_bytes: bool) -> Seq<char> {
    if raw_bytes {
        decimal(size_in_bytes(record) as nat)
    } else {
        human_readable(size_in_bytes(record) as nat)
    }
}

/// The mount point cell of a record: its mount points, one under the other;
/// empty for a record without mount points, and for one of which none are
/// known.
pub open spec fn shown_mounts(record: BlockDeviceView) -> Seq<char> {
    match record.mountpoints {
        Some(points) => joined(points, mount_separator()),
        None => Seq::empty(),
    }
}

/// The row of a record.
pub open spec fn record_row(record: BlockDeviceView, raw_bytes: bool) -> Seq<char> {
    table_row(
        shown_name(record),
        record.dev_id,
        record.rm,
        shown_size(record, raw_bytes),
        record.ro,
        record.dev_type,
        shown_mounts(record),
    )
}

/// The device identifiers of the records, in the order of the records.
pub open spec fn dev_ids(records: Seq<BlockDeviceView>) -> Seq<Seq<char>> {
    Seq::new(records.len(), |i: int| records[i].dev_id)
}

/// The positions of the records in the order in which they are shown: by
/// device identifier compared as text, records with the same identifier in
/// the order in which they stand.
pub open spec fn display_order(records: Seq<BlockDeviceView>) -> Seq<int> {
    stable_order(dev_ids(records))
}

/// The rows of the records, in the order in which they are shown.
pub open spec fn record_rows(records: Seq<BlockDeviceView>, raw_bytes: bool) -> Seq<Seq<char>> {
    let order = display_order(records);
    Seq::new(order.len(), |k: int| record_row(records[order[k]], raw_bytes))
}

/// The rows of the report: the header row unless it is left out, then the
/// rows of the records.
pub open spec fn report(records: Seq<BlockDeviceView>, options: DisplayOptions) -> Seq<Seq<char>> {
    if options.noheading {
        record_rows(records, options.bytes)
    } else {
        seq![header_row()] + record_rows(records, options.bytes)
    }
}

/// Every record has its row in the report, once. The rows follow the device
/// identifiers as text, and rows of records with the same identifier follow
/// the order of the records.
pub proof fn lemma_report_rows(records: Seq<BlockDeviceView>, options: DisplayOptions)
    ensures
        is_stable_order(display_order(records), dev_ids(records)),
        record_rows(records, options.bytes).len() == records.len(),
        report(records, options).len() == records.len() + if options.noheading {
            0int
        } else {
            1int
        },
{
    lemma_stable_order_exists(dev_ids(records));
}

/// A size shown as a plain byte count reads back as the very byte count of
/// the record: nothing is lost on the way.
pub proof fn lemma_raw_size_reads_back(record: BlockDeviceView)
    ensures
        parsed_u64(shown_size(record, true)) == Some(size_in_bytes(record)),
{
    lemma_decimal_round_trip(size_in_bytes(record));
}

/// Of a record whose size attribute writes a sector count, the size shown as
/// a plain byte count reads back as the byte count of that many sectors.
pub proof fn lemma_raw_size_of_sector_count(record: BlockDeviceView, sectors: u64)
    requires
        record.size == decimal(sectors as nat),
    ensures
        size_in_bytes(record) == sectors_to_bytes(sectors),
        parsed_u64(shown_size(record, true)) == Some(sectors_to_bytes(sectors)),
        sectors * SECTOR_BYTES <= u64::MAX ==> parsed_u64(shown_size(record, true)) == Some(
            (sectors * SECTOR_BYTES) as u64,
        ),
{
    lemma_decimal_round_trip(sectors);
    lemma_raw_size_reads_back(record);
}

/// Appends `cell` to `out`, and after it as many spaces as it lacks to
/// `width` characters.
fn push_padded(out: &mut String, cell: &str, width: usize)
    ensures
        final(out)@ == old(out)@ + padded(cell@, width as nat),
{
    let ghost start = out@;
    out.append(cell);
    let len = cell.unicode_len();
    let mut n: usize = len;
    assert(Seq::new(0, |i: int| ' ') == Seq::<char>::empty());
    assert(start + cell@ + Seq::<char>::empty() == start + cell@);
    while n < width
        invariant
            len == cell@.len(),
            len <= n,
            n <= width || n == len,
            out@ == start + cell@ + Seq::new((n - len) as nat, |i: int| ' '),
        decreases width - n,
    {
        out.push(' ');
        n += 1;
        assert(Seq::new((n - len) as nat, |i: int| ' ') == Seq::new(
            (n - 1 - len) as nat,
            |i: int| ' ',
        ).push(' '));
    }
    assert(start + cell@ + Seq::new((n - len) as nat, |i: int| ' ') == start + padded(
        cell@,
        width as nat,
    ));
}

/// Lays out one row of the table.
fn render_row(
    name: &str,
    dev_id: &str,
    rm: &str,
    size: &str,
    ro: &str,
    dev_type: &str,
    mounts: &str,
) -> (row: String)
    ensures
        row@ == table_row(name@, dev_id@, rm@, size@, ro@, dev_type@, mounts@),
{
    let mut row = String::new();
    push_padded(&mut row, name, 12);
    row.push(' ');
    push_padded(&mut row, dev_id, 8);
    row.push(' ');
    push_padded(&mut row, rm, 2);
    row.push(' ');
    push_padded(&mut row, size, 12);
    row.push(' ');
    push_padded(&mut row, ro, 2);
    row.push(' ');
    push_padded(&mut row, dev_type, 4);
    row.push(' ');
    push_padded(&mut row, mounts, 15);
    assert(row@ =~= table_row(name@, dev_id@, rm@, size@, ro@, dev_type@, mounts@));
    row
}

/// The strings of `parts` in a row, with `separator` between each two.
fn join(parts: &Vec<String>, separator: &str) -> (text: String)
    ensures
        text@ == joined(parts.deep_view(), separator@),
{
    let mut text = String::new();
    let mut i: usize = 0;
    let ghost all = parts.deep_view();
    assert(all.take(0) == Seq::<Seq<char>>::empty());
    while i < parts.len()
        invariant
            i <= parts.len(),
            all == parts.deep_view(),
            text@ == joined(all.take(i as int), separator@),
        decreases parts.len() - i,
    {
        let ghost before = text@;
        if i > 0 {
            text.append(separator);
        }
        text.append(parts[i].as_str());
        proof {
            let next = all.take(i + 1);
            assert(next.last() == parts[i as int]@);
            assert(next.drop_last() == all.take(i as int));
            if i == 0 {
                assert(before + parts[i as int]@ == parts[i as int]@);
            }
        }
        i += 1;
    }
    assert(all.take(i as int) == all);
    text
}

/// The header row of the report.
pub fn render_header() -> (row: String)
    ensures
        row@ == header_row(),
{
    render_row("NAME", "MAJ:MIN", "RM", "SIZE", "RO", "TYPE", "MOUNTPOINTS")
}

/// The row of one record. A size is shown as a plain byte count if
/// `raw_bytes` is set, else in human-readable form.
pub fn render_record(device: &BlockDevice, raw_bytes: bool) -> (row: String)
    ensures
        row@ == record_row(device@, raw_bytes),
{
    let mut name = String::new();
    match device.kind {
        DeviceKind::Partition => {
            name.append("\u{251c}\u{2500}");
        },
        DeviceKind::Disk => {},
    }
    name.append(device.name.as_str());
    assert(name@ == shown_name(device@));

    let bytes = device.size_bytes();
    let size = if raw_bytes {
        to_decimal(bytes)
    } else {
        convert_bytes_to_human_readable(bytes)
    };
    let mounts = match &device.mountpoints {
        Some(points) => join(points, "\n\t\t\t\t\t      "),
        None => String::new(),
    };
    render_row(
        name.as_str(),
        device.dev_id.as_str(),
        device.rm.as_str(),
        size.as_str(),
        device.ro.as_str(),
        device.dev_type.as_str(),
        mounts.as_str(),
    )
}

/// The positions of the records in the order in which they are shown: by
/// device identifier compared as text, character by character, and records
/// with the same identifier in the order in which they stand in `devices`.
pub fn sort_order(devices: &Vec<BlockDevice>) -> (order: Vec<usize>)
    ensures
        is_stable_order(positions(order@), dev_ids(devices.deep_view())),
        positions(order@) == display_order(devices.deep_view()),
{
    let mut keys: Vec<Vec<char>> = Vec::new();
    let mut i: usize = 0;
    while i < devices.len()
        invariant
            i <= devices.len(),
            keys.len() == i,
            forall|k: int| 0 <= k < i ==> (#[trigger] keys[k])@ == devices[k].dev_id@,
        decreases devices.len() - i,
    {
        keys.push(to_chars(devices[i].dev_id.as_str()));
        i += 1;
    }
    assert(texts_of(keys@) == dev_ids(devices.deep_view()));
    sort_positions(&keys)
}

/// The rows of the report on the given records: the header row, unless the
/// options leave it out, then one row for each record, in the order of the
/// device identifiers compared as text.
pub fn render_block_details(devices: &Vec<BlockDevice>, options: &DisplayOptions) -> (rows: Vec<
    String,
>)
    ensures
        rows.deep_view() == report(devices.deep_view(), *options),
{
    let ghost records = devices.deep_view();
    let order = sort_order(devices);
    let ghost shown = display_order(records);
    let mut rows: Vec<String> = Vec::new();
    if !options.noheading {
        rows.push(render_header());
    }
    let ghost head = rows.deep_view();
    let mut k: usize = 0;
    assert(head + Seq::new(0, |j: int| record_row(records[shown[j]], options.bytes)) == head);
    while k < order.len()
        invariant
            k <= order.len(),
            records == devices.deep_view(),
            shown == positions(order@),
            is_stable_order(shown, dev_ids(records)),
            rows.deep_view() == head + Seq::new(
                k as nat,
                |j: int| record_row(records[shown[j]], options.bytes),
            ),
        decreases order.len() - k,
    {
        let ghost before = rows.deep_view();
        assert(shown[k as int] == order[k as int]);
        rows.push(render_record(&devices[order[k]], options.bytes));
        k += 1;
        assert(rows.deep_view() == before.push(
            record_row(records[shown[k - 1]], options.bytes),
        ));
        assert(rows.deep_view() == head + Seq::new(
            k as nat,
            |j: int| record_row(records[shown[j]], options.bytes),
        ));
    }
    assert(rows.deep_view() == report(records, *options));
    rows
}

} // verus!
