//! Device records: what the registry shows of a device and of the entries
//! nested under it, and the flat list of disk and partition records that is
//! assembled from it.

use crate::mounts::{get_mount_point, mount_points};
use crate::registry::{disk_type, get_disk_type, is_partition_name, names_partition};
use crate::size::{convert_size_to_bytes, parse_u64, parsed_u64, sector_count, sectors_to_bytes};
use crate::text::{trim, trimmed};
use vstd::prelude::*;

verus! {

/// Whether a record stands for a whole device or for a partition of one.
#[derive(Clone, Copy, Debug, PartialEq, Eq, Structural)]
pub enum DeviceKind {
    Disk,
    Partition,
}

/// What the registry shows of one node, a device or an entry nested under a
/// device: its name and the text of its attributes, empty where the node has
/// no such attribute.
#[derive(Clone, Debug, PartialEq, Eq)]
pub struct RegistryNode {
    pub name: String,
    /// The device identifier, `major:minor`.
    pub dev: String,
    /// The removable flag.
    pub removable: String,
    /// The size in sectors.
    pub size: String,
    /// The read-only flag.
    pub ro: String,
    /// The event listing.
    pub uevent: String,
}

/// A top-level device as the registry shows it, with the entries nested
/// under it in the order in which the registry lists them.
#[derive(Clone, Debug, PartialEq, Eq)]
pub struct DeviceSource {
    pub node: RegistryNode,
    pub entries: Vec<RegistryNode>,
}

/// The record of one disk or partition.
#[derive(Clone, Debug, PartialEq, Eq)]
pub struct BlockDevice {
    pub name: String,
    /// The device identifier, `major:minor`.
    pub dev_id: String,
    /// The removable flag, as the registry gives it.
    pub rm: String,
    /// The size in sectors, as the registry gives it.
    pub size: String,
    /// The read-only flag, as the registry gives it.
    pub ro: String,
    /// The device type that is shown for the record.
    pub dev_type: String,
    pub kind: DeviceKind,
    /// The mount points of the device in the order of the mount table; `None`
    /// if the mount table could not be read.
    pub mountpoints: Option<Vec<String>>,
    /// The names of the device's partitions; empty for a partition.
    pub partitions: Vec<String>,
}

/// The model of a `RegistryNode`.
pub ghost struct RegistryNodeView {
    pub name: Seq<char>,
    pub dev: Seq<char>,
    pub removable: Seq<char>,
    pub size: Seq<char>,
    pub ro: Seq<char>,
    pub uevent: Seq<char>,
}

/// The model of a `DeviceSource`.
pub ghost struct DeviceSourceView {
    pub node: RegistryNodeView,
    pub entries: Seq<RegistryNodeView>,
}

/// The model of a `BlockDevice`.
pub ghost struct BlockDeviceView {
    pub name: Seq<char>,
    pub dev_id: Seq<char>,
    pub rm: Seq<char>,
    pub size: Seq<char>,
    pub ro: Seq<char>,
    pub dev_type: Seq<char>,
    pub kind: DeviceKind,
    pub mountpoints: Option<Seq<Seq<char>>>,
    pub partitions: Seq<Seq<char>>,
}

impl View for RegistryNode {
    type V = RegistryNodeView;

    open spec fn view(&self) -> RegistryNodeView {
        RegistryNodeView {
            name: self.name@,
            dev: self.dev@,
            removable: self.removable@,
            size: self.size@,
            ro: self.ro@,
            uevent: self.uevent@,
        }
    }
}

impl DeepView for RegistryNode {
    type V = RegistryNodeView;

    open spec fn deep_view(&self) -> RegistryNodeView {
        self@
    }
}

impl View for DeviceSource {
    type V = DeviceSourceView;

    open spec fn view(&self) -> DeviceSourceView {
        DeviceSourceView { node: self.node@, entries: self.entries.deep_view() }
    }
}

impl DeepView for DeviceSource {
    type V = DeviceSourceView;

    open spec fn deep_view(&self) -> DeviceSourceView {
        self@
    }
}

impl View for BlockDevice {
    type V = BlockDeviceView;

    open spec fn view(&self) -> BlockDeviceView {
        BlockDeviceView {
            name: self.name@,
            dev_id: self.dev_id@,
            rm: self.rm@,
            size: self.size@,
            ro: self.ro@,
            dev_type: self.dev_type@,
            kind: self.kind,
            mountpoints: self.mountpoints.deep_view(),
            partitions: self.partitions.deep_view(),
        }
    }
}

impl DeepView for BlockDevice {
    type V = BlockDeviceView;

    open spec fn deep_view(&self) -> BlockDeviceView {
        self@
    }
}

/// Whether the text of a flag attribute says that the flag is set: it
/// writes a number other than zero.
pub open spec fn flag_set(text: Seq<char>) -> bool {
    match parsed_u64(trimmed(text)) {
        Some(n) => n != 0,
        None => false,
    }
}

/// The size of a record in bytes: its sector count times 512.
pub open spec fn size_in_bytes(record: BlockDeviceView) -> u64 {
    sectors_to_bytes(sector_count(record.size))
}

impl BlockDevice {
    /// Whether the device is removable. A partition is as removable as its
    /// disk.
    pub fn removable(&self) -> (b: bool)
        ensures
            b == flag_set(self@.rm),
    {
        match parse_u64(trim(self.rm.as_str()).as_str()) {
            Some(n) => n != 0,
            None => false,
        }
    }

    /// Whether the device is read-only.
    pub fn read_only(&self) -> (b: bool)
        ensures
            b == flag_set(self@.ro),
    {
        match parse_u64(trim(self.ro.as_str()).as_str()) {
            Some(n) => n != 0,
            None => false,
        }
    }

    /// The size of the device in bytes.
    pub fn size_bytes(&self) -> (bytes: u64)
        ensures
            bytes == size_in_bytes(self@),
    {
        convert_size_to_bytes(self.size.as_str())
    }
}

/// The device type that is shown for every partition.
pub open spec fn partition_type() -> Seq<char> {
    "part"@
}

/// The mount points of the device `name`: those that the mount table
/// records for it, and `None` where there is no table to ask.
pub open spec fn mounts_of(name: Seq<char>, table: Option<Seq<char>>) -> Option<Seq<Seq<char>>> {
    match table {
        Some(content) => Some(mount_points(name, content)),
        None => None,
    }
}

/// The test that picks the partitions of the device `device` among nested
/// entries.
pub open spec fn partition_entry_of(device: Seq<char>) -> spec_fn(RegistryNodeView) -> bool {
    |entry: RegistryNodeView| is_partition_name(device, entry.name)
}

/// The entries of a device that are its partitions, in the registry's order.
pub open spec fn partition_entries(source: DeviceSourceView) -> Seq<RegistryNodeView> {
    source.entries.filter(partition_entry_of(source.node.name))
}

/// The name of a registry node.
pub open spec fn node_name() -> spec_fn(RegistryNodeView) -> Seq<char> {
    |entry: RegistryNodeView| entry.name
}

/// The record of a top-level device. Its type is the one that the event
/// listing names, and its partitions are those among its entries.
pub open spec fn disk_record(
    source: DeviceSourceView,
    table: Option<Seq<char>>,
) -> BlockDeviceView {
    BlockDeviceView {
        name: source.node.name,
        dev_id: source.node.dev,
        rm: source.node.removable,
        size: source.node.size,
        ro: source.node.ro,
        dev_type: disk_type(source.node.uevent),
        kind: DeviceKind::Disk,
        mountpoints: mounts_of(source.node.name, table),
        partitions: partition_entries(source).map_values(node_name()),
    }
}

/// The record of a partition. Identifier, size and read-only flag are the
/// entry's own; the removable flag is that of the device the partition
/// belongs to, whatever the entry shows; the mount points are looked up under
/// the partition's own name.
pub open spec fn partition_record(
    parent: RegistryNodeView,
    entry: RegistryNodeView,
    table: Option<Seq<char>>,
) -> BlockDeviceView {
    BlockDeviceView {
        name: entry.name,
        dev_id: entry.dev,
        rm: parent.removable,
        size: entry.size,
        ro: entry.ro,
        dev_type: partition_type(),
        kind: DeviceKind::Partition,
        mountpoints: mounts_of(entry.name, table),
        partitions: Seq::empty(),
    }
}

/// The step from an entry of the device `parent` to its partition record.
pub open spec fn partition_record_of(parent: RegistryNodeView, table: Option<Seq<char>>) -> spec_fn(
    RegistryNodeView,
) -> BlockDeviceView {
    |entry: RegistryNodeView| partition_record(parent, entry, table)
}

/// The records of one device: its own, and right after it those of its
/// partitions in the registry's order.
pub open spec fn device_records(source: DeviceSourceView, table: Option<Seq<char>>) -> Seq<
    BlockDeviceView,
> {
    seq![disk_record(source, table)] + partition_entries(source).map_values(
        partition_record_of(source.node, table),
    )
}

/// The records of all devices, device after device in the given order.
pub open spec fn assembled(sources: Seq<DeviceSourceView>, table: Option<Seq<char>>) -> Seq<
    BlockDeviceView,
>
    decreases sources.len(),
{
    if sources.len() == 0 {
        Seq::empty()
    } else {
        assembled(sources.drop_last(), table) + device_records(sources.last(), table)
    }
}

/// Whether a record is as the assembler makes records: a partition is typed
/// as one and lists no partitions of its own.
pub open spec fn is_well_formed(record: BlockDeviceView) -> bool {
    record.kind == DeviceKind::Partition ==> record.partitions.len() == 0 && record.dev_type
        == partition_type()
}

/// The names of the records, in the order of the records.
pub open spec fn record_names(records: Seq<BlockDeviceView>) -> Seq<Seq<char>> {
    Seq::new(records.len(), |i: int| records[i].name)
}

/// Every name that the registry shows of a device gives exactly one record:
/// the records of a device are its own and then one for each of its
/// partitions, named as the device's record lists them.
pub proof fn lemma_one_record_for_each_name(source: DeviceSourceView, table: Option<Seq<char>>)
    ensures
        device_records(source, table).len() == 1 + partition_entries(source).len(),
        device_records(source, table)[0] == disk_record(source, table),
        record_names(device_records(source, table)) == seq![source.node.name] + disk_record(
            source,
            table,
        ).partitions,
{
    let records = device_records(source, table);
    let names = seq![source.node.name] + disk_record(source, table).partitions;
    assert(record_names(records) =~= names);
}

/// The record of a partition is of the partition kind, lists no partitions
/// of its own, bears a name that begins with its disk's, and is as removable
/// as its disk, whatever the registry shows of the partition itself.
pub proof fn lemma_partition_record(source: DeviceSourceView, table: Option<Seq<char>>, k: int)
    requires
        1 <= k < device_records(source, table).len(),
    ensures
        device_records(source, table)[k].kind == DeviceKind::Partition,
        device_records(source, table)[k].partitions.len() == 0,
        device_records(source, table)[k].rm == source.node.removable,
        device_records(source, table)[k].rm == device_records(source, table)[0].rm,
        device_records(source, table)[k].name == device_records(source, table)[0].partitions[k - 1],
        is_partition_name(source.node.name, device_records(source, table)[k].name),
{
    let pick = partition_entry_of(source.node.name);
    source.entries.lemma_filter_pred(pick, k - 1);
}

/// A device of which the registry shows no attribute at all still has its
/// record: one that bears the device's name, with every attribute text
/// empty, no flag set and a size of zero.
pub proof fn lemma_record_without_attributes(source: DeviceSourceView, table: Option<Seq<char>>)
    requires
        source.node.dev.len() == 0,
        source.node.removable.len() == 0,
        source.node.size.len() == 0,
        source.node.ro.len() == 0,
        source.node.uevent.len() == 0,
    ensures
        device_records(source, table)[0].name == source.node.name,
        device_records(source, table)[0].dev_id.len() == 0,
        device_records(source, table)[0].rm.len() == 0,
        device_records(source, table)[0].size.len() == 0,
        device_records(source, table)[0].ro.len() == 0,
        device_records(source, table)[0].dev_type.len() == 0,
        !flag_set(device_records(source, table)[0].rm),
        !flag_set(device_records(source, table)[0].ro),
        size_in_bytes(device_records(source, table)[0]) == 0,
{
    let empty = Seq::<char>::empty();
    assert(source.node.uevent =~= empty);
    assert(source.node.removable =~= empty);
    assert(source.node.ro =~= empty);
    assert(source.node.size =~= empty);
    assert(trimmed(empty) =~= empty);
}

/// The records of several devices are those of the first devices followed
/// by those of the rest: a device's partitions stand between its own record
/// and the next device's.
pub proof fn lemma_assembled_in_turn(
    first: Seq<DeviceSourceView>,
    rest: Seq<DeviceSourceView>,
    table: Option<Seq<char>>,
)
    ensures
        assembled(first + rest, table) == assembled(first, table) + assembled(rest, table),
    decreases rest.len(),
{
    if rest.len() == 0 {
        assert(first + rest == first);
        assert(assembled(first, table) + Seq::<BlockDeviceView>::empty() == assembled(
            first,
            table,
        ));
    } else {
        lemma_assembled_in_turn(first, rest.drop_last(), table);
        assert((first + rest).drop_last() == first + rest.drop_last());
        assert((first + rest).last() == rest.last());
        assert(assembled(first, table) + assembled(rest.drop_last(), table) + device_records(
            rest.last(),
            table,
        ) == assembled(first, table) + (assembled(rest.drop_last(), table) + device_records(
            rest.last(),
            table,
        )));
    }
}

/// Every assembled record is well formed.
pub proof fn lemma_assembled_well_formed(
    sources: Seq<DeviceSourceView>,
    table: Option<Seq<char>>,
    i: int,
)
    requires
        0 <= i < assembled(sources, table).len(),
    ensures
        is_well_formed(assembled(sources, table)[i]),
    decreases sources.len(),
{
    let before = assembled(sources.drop_last(), table);
    if i < before.len() {
        lemma_assembled_well_formed(sources.drop_last(), table, i);
    } else if i > before.len() {
        lemma_partition_record(sources.last(), table, i - before.len());
    }
}

/// In the assembled list every partition follows its disk: before the
/// record of a partition stands the record of a disk, with nothing but
/// partitions between them, that lists the partition by name at that very
/// distance and has the same removable flag.
pub proof fn lemma_partition_follows_its_disk(
    sources: Seq<DeviceSourceView>,
    table: Option<Seq<char>>,
    i: int,
) -> (disk: int)
    requires
        0 <= i < assembled(sources, table).len(),
        assembled(sources, table)[i].kind == DeviceKind::Partition,
    ensures
        0 <= disk < i,
        assembled(sources, table)[disk].kind == DeviceKind::Disk,
        forall|between: int|
            disk < between <= i ==> (#[trigger] assembled(sources, table)[between]).kind
                == DeviceKind::Partition,
        i - disk - 1 < assembled(sources, table)[disk].partitions.len(),
        assembled(sources, table)[disk].partitions[i - disk - 1] == assembled(
            sources,
            table,
        )[i].name,
        assembled(sources, table)[i].rm == assembled(sources, table)[disk].rm,
        assembled(sources, table)[i].partitions.len() == 0,
    decreases sources.len(),
{
    let before = assembled(sources.drop_last(), table);
    let last = device_records(sources.last(), table);
    if i < before.len() {
        lemma_partition_follows_its_disk(sources.drop_last(), table, i)
    } else {
        let k = i - before.len();
        lemma_one_record_for_each_name(sources.last(), table);
        assert(k >= 1);
        assert forall|between: int| before.len() < between <= i implies (#[trigger] assembled(
            sources,
            table,
        )[between]).kind == DeviceKind::Partition by {
            lemma_partition_record(sources.last(), table, between - before.len());
        }
        lemma_partition_record(sources.last(), table, k);
        before.len() as int
    }
}

/// The mount points of a device, where there is a mount table to ask.
fn lookup_mounts(name: &String, mounts: &Option<String>) -> (r: Option<Vec<String>>)
    ensures
        r.deep_view() == mounts_of(name@, mounts.deep_view()),
{
    match mounts {
        Some(content) => Some(get_mount_point(name.as_str(), content.as_str())),
        None => None,
    }
}

/// The names of the partitions among the entries of a device.
fn partition_names(source: &DeviceSource) -> (names: Vec<String>)
    ensures
        names.deep_view() == partition_entries(source@).map_values(node_name()),
{
    let mut names: Vec<String> = Vec::new();
    let mut j: usize = 0;
    let ghost pick = partition_entry_of(source.node.name@);
    assert(source@.entries.take(0) == Seq::<RegistryNodeView>::empty());
    while j < source.entries.len()
        invariant
            j <= source.entries.len(),
            pick == partition_entry_of(source.node.name@),
            names.deep_view() == source@.entries.take(j as int).filter(pick).map_values(
                node_name(),
            ),
        decreases source.entries.len() - j,
    {
        let entry = &source.entries[j];
        let ghost before = names.deep_view();
        let ghost seen = source@.entries.take(j as int);
        proof {
            assert(source@.entries.take(j + 1) == seen.push(entry@));
            seen.lemma_filter_push(entry@, pick);
            seen.filter(pick).lemma_push_map_commute(node_name(), entry@);
        }
        if names_partition(source.node.name.as_str(), entry.name.as_str()) {
            names.push(entry.name.clone());
            assert(names.deep_view() == before.push(entry.name@));
        }
        j += 1;
    }
    assert(source@.entries.take(j as int) == source@.entries);
    names
}

/// Builds the record of a top-level device.
fn build_disk_record(source: &DeviceSource, mounts: &Option<String>) -> (record: BlockDevice)
    ensures
        record@ == disk_record(source@, mounts.deep_view()),
{
    BlockDevice {
        name: source.node.name.clone(),
        dev_id: source.node.dev.clone(),
        rm: source.node.removable.clone(),
        size: source.node.size.clone(),
        ro: source.node.ro.clone(),
        dev_type: get_disk_type(source.node.uevent.as_str()),
        kind: DeviceKind::Disk,
        mountpoints: lookup_mounts(&source.node.name, mounts),
        partitions: partition_names(source),
    }
}

/// Builds the record of a partition of the device `parent`.
fn build_partition_record(
    parent: &RegistryNode,
    entry: &RegistryNode,
    mounts: &Option<String>,
) -> (record: BlockDevice)
    ensures
        record@ == partition_record(parent@, entry@, mounts.deep_view()),
{
    let partitions: Vec<String> = Vec::new();
    assert(partitions.deep_view() == Seq::<Seq<char>>::empty());
    BlockDevice {
        name: entry.name.clone(),
        dev_id: entry.dev.clone(),
        rm: parent.removable.clone(),
        size: entry.size.clone(),
        ro: entry.ro.clone(),
        dev_type: String::from_str("part"),
        kind: DeviceKind::Partition,
        mountpoints: lookup_mounts(&entry.name, mounts),
        partitions,
    }
}

/// Assembles the records of the given devices and appends them to
/// `block_devices`: for each device its own record, and right after it one
/// record for each of its partitions, before the next device follows.
/// `mounts` is the content of the mount table, or `None` if it could not be
/// read; the records then have no mount points to show.
pub fn get_block_details(
    devices: &Vec<DeviceSource>,
    mounts: &Option<String>,
    block_devices: &mut Vec<BlockDevice>,
)
    ensures
        final(block_devices).deep_view() == old(block_devices).deep_view() + assembled(
            devices.deep_view(),
            mounts.deep_view(),
        ),
{
    let ghost table = mounts.deep_view();
    let ghost start = block_devices.deep_view();
    let mut i: usize = 0;
    assert(devices.deep_view().take(0) == Seq::<DeviceSourceView>::empty());
    assert(start + Seq::<BlockDeviceView>::empty() == start);
    while i < devices.len()
        invariant
            i <= devices.len(),
            table == mounts.deep_view(),
            block_devices.deep_view() == start + assembled(
                devices.deep_view().take(i as int),
                table,
            ),
        decreases devices.len() - i,
    {
        let source = &devices[i];
        let ghost done = block_devices.deep_view();
        let ghost pick = partition_entry_of(source.node.name@);
        let ghost step = partition_record_of(source.node@, table);
        let disk = build_disk_record(source, mounts);
        block_devices.push(disk);
        assert(block_devices.deep_view() == done + seq![disk_record(source@, table)]);

        let mut j: usize = 0;
        assert(source@.entries.take(0) == Seq::<RegistryNodeView>::empty());
        while j < source.entries.len()
            invariant
                j <= source.entries.len(),
                table == mounts.deep_view(),
                pick == partition_entry_of(source.node.name@),
                step == partition_record_of(source.node@, table),
                block_devices.deep_view() == done + seq![disk_record(source@, table)]
                    + source@.entries.take(j as int).filter(pick).map_values(step),
            decreases source.entries.len() - j,
        {
            let entry = &source.entries[j];
            let ghost before = block_devices.deep_view();
            let ghost seen = source@.entries.take(j as int);
            proof {
                assert(source@.entries.take(j + 1) == seen.push(entry@));
                seen.lemma_filter_push(entry@, pick);
                seen.filter(pick).lemma_push_map_commute(step, entry@);
            }
            if names_partition(source.node.name.as_str(), entry.name.as_str()) {
                let partition = build_partition_record(&source.node, entry, mounts);
                block_devices.push(partition);
                assert(block_devices.deep_view() == before.push(
                    partition_record(source.node@, entry@, table),
                ));
            }
            j += 1;
        }
        proof {
            assert(source@.entries.take(j as int) == source@.entries);
            assert(block_devices.deep_view() == done + device_records(source@, table));
            let next = devices.deep_view().take(i + 1);
            assert(next.drop_last() == devices.deep_view().take(i as int));
            assert(next.last() == source@);
        }
        i += 1;
    }
    assert(devices.deep_view().take(i as int) == devices.deep_view());
}

} // verus!
