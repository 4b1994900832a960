//! The mount table: which mount points it records for a device.

use crate::text::{
    after_first_field, first_field, lines, next_line, range_equals, second_field, skip_token,
    skip_whitespace, to_chars, to_text, trimmed_start,
};
use vstd::prelude::*;

verus! {

/// The path of the device node of the device `name`.
pub open spec fn device_node(name: Seq<char>) -> Seq<char> {
    "/dev/"@ + name
}

/// Whether a line of the mount table records a mount of the device `name`:
/// it has at least two fields, and the first is the device's node.
pub open spec fn line_mounts(name: Seq<char>, line: Seq<char>) -> bool {
    second_field(line).len() > 0 && first_field(line) == device_node(name)
}

/// The test that picks the lines that record a mount of the device `name`.
pub open spec fn mounts_device(name: Seq<char>) -> spec_fn(Seq<char>) -> bool {
    |line: Seq<char>| line_mounts(name, line)
}

/// The mount point that a line of the mount table records: its second
/// field.
pub open spec fn mount_target() -> spec_fn(Seq<char>) -> Seq<char> {
    |line: Seq<char>| second_field(line)
}

/// The mount points that the table records for the device `name`, in the
/// order of the table's lines.
pub open spec fn mount_points(name: Seq<char>, table: Seq<char>) -> Seq<Seq<char>> {
    lines(table).filter(mounts_device(name)).map_values(mount_target())
}

/// The mount points that the mount table records for a device: the second
/// field of each line whose first field is the device's node, in the order
/// of the lines. A device that no line names has none.
pub fn get_mount_point(device_name: &str, mounts_content: &str) -> (points: Vec<String>)
    ensures
        points.deep_view() == mount_points(device_name@, mounts_content@),
{
    let v = to_chars(mounts_content);
    let name = to_chars(device_name);
    let mut node = to_chars("/dev/");
    let mut j: usize = 0;
    while j < name.len()
        invariant
            j <= name.len(),
            node@ == "/dev/"@ + name@.take(j as int),
        decreases name.len() - j,
    {
        node.push(name[j]);
        j += 1;
        assert(name@.take(j as int) == name@.take(j - 1).push(name@[j - 1]));
    }
    assert(name@.take(j as int) == name@);

    let mut points: Vec<String> = Vec::new();
    let ghost seen: Seq<Seq<char>> = Seq::empty();
    let mut pos: usize = 0;
    assert(v@.skip(0) == v@);
    assert(seen + lines(v@) == lines(v@));
    while pos < v.len()
        invariant
            pos <= v.len(),
            v@ == mounts_content@,
            node@ == device_node(device_name@),
            lines(v@) == seen + lines(v@.skip(pos as int)),
            points.deep_view() == seen.filter(mounts_device(device_name@)).map_values(
                mount_target(),
            ),
        decreases v.len() - pos,
    {
        let (line_to, next) = next_line(&v, pos);
        let ghost line = v@.subrange(pos as int, line_to as int);
        let ghost before = points.deep_view();
        let ghost picked = seen.filter(mounts_device(device_name@));

        let a = skip_whitespace(&v, pos, line_to);
        let b = skip_token(&v, a, line_to);
        let c = skip_whitespace(&v, b, line_to);
        let d = skip_token(&v, c, line_to);
        proof {
            assert(trimmed_start(line) == v@.subrange(a as int, line_to as int));
            assert(first_field(line) == v@.subrange(a as int, b as int));
            assert(after_first_field(line) == v@.subrange(b as int, line_to as int));
            assert(trimmed_start(after_first_field(line)) == v@.subrange(
                c as int,
                line_to as int,
            ));
            assert(second_field(line) == v@.subrange(c as int, d as int));
            assert(seen + (seq![line] + lines(v@.skip(next as int))) == seen.push(line) + lines(
                v@.skip(next as int),
            ));
            seen.lemma_filter_push(line, mounts_device(device_name@));
        }
        if d > c && range_equals(&v, a, b, &node) {
            points.push(to_text(&v, c, d));
            assert(points.deep_view() == before.push(second_field(line)));
            assert(picked.push(line).map_values(mount_target()) == picked.map_values(
                mount_target(),
            ).push(second_field(line)));
        }
        proof {
            seen = seen.push(line);
        }
        pos = next;
    }
    assert(lines(v@.skip(pos as int)) == Seq::<Seq<char>>::empty());
    assert(seen + Seq::<Seq<char>>::empty() == seen);
    points
}

} // verus!
