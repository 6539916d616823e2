//! What holds of a mounted lane.
use vstd::prelude::*;

use crate::vfs;
use crate::virtual_exec::capture;
use crate::virtual_exec::nodes;
use crate::virtual_exec::nodes::Status;
use crate::virtual_exec::state::Names;
use crate::winfsp_mount;
use crate::winfsp_mount::MountView;
use crate::write_laws;

verus! {

/// A write into a mounted file puts its bytes at the offset, keeps all others, and fills what lies
/// between the end of the file and the offset with zeros. It does nothing only where it must not
/// make the file longer and begins behind its end.
pub proof fn law_mounted_write_takes_its_range(
    bytes: Seq<u8>,
    buffer: Seq<u8>,
    offset: nat,
    constrained: bool,
)
    ensures
        winfsp_mount::written_bytes(bytes, buffer, offset, constrained) is None <==> constrained
            && offset > bytes.len(),
        winfsp_mount::written_bytes(bytes, buffer, offset, constrained) matches Some(after) ==> {
            &&& after.len() == if offset + buffer.len() > bytes.len() {
                offset + buffer.len()
            } else {
                bytes.len()
            }
            &&& forall|i: int|
                0 <= i < after.len() ==> #[trigger] after[i] == if offset <= i < offset
                    + buffer.len() {
                    buffer[i - offset]
                } else if i < bytes.len() {
                    bytes[i]
                } else {
                    0u8
                }
        },
{
}

/// Reading a mounted file gives the bytes from the one offset to the other, as far as there are any.
pub proof fn law_mounted_part_is_read_where_it_stands(bytes: Seq<u8>, from: int, to: int)
    requires
        0 <= from <= to,
    ensures
        ({
            let part = winfsp_mount::bytes_between(bytes, from, to);
            &&& part.len() == if from >= bytes.len() {
                0
            } else if to <= bytes.len() {
                to - from
            } else {
                bytes.len() - from
            }
            &&& forall|i: int| 0 <= i < part.len() ==> #[trigger] part[i] == bytes[from + i]
        }),
{
}

/// What was put at a path of a mount is read there, and what is read at other paths stays.
pub proof fn law_mount_reads_what_was_put(
    mount: MountView,
    path: Seq<char>,
    content: Option<Seq<u8>>,
    other: Seq<char>,
)
    requires
        mount.lane != "base"@,
        winfsp_mount::put_at(mount, path, content) is Ok,
        write_laws::can_be_told(
            vfs::base_at(mount.fs.files, vfs::repo_path(path)->Ok_0),
            content,
        ),
        vfs::repo_path(other) != vfs::repo_path(path),
    ensures
        ({
            let after = winfsp_mount::put_at(mount, path, content)->Ok_0;
            &&& winfsp_mount::bytes_at(after, path) == match content {
                Some(bytes) => Ok::<Seq<u8>, Status>(bytes),
                None => Err(Status::NameNotFound),
            }
            &&& winfsp_mount::bytes_at(after, other) == winfsp_mount::bytes_at(mount, other)
            &&& after.lane == mount.lane
            &&& after.fs.files == mount.fs.files
        }),
{
    let label = vfs::repo_path(path)->Ok_0;
    write_laws::law_written_content_is_read_back(
        mount.fs.repo,
        label,
        mount.lane,
        vfs::base_at(mount.fs.files, label),
        content,
    );
    capture::lemma_replacing_is_local(mount.fs, mount.lane, path, content, mount.lane, other);
}

/// A renamed file of a mount is read under its new name with the bytes it had, and no longer under
/// the old one.
pub proof fn law_mounted_rename_moves_the_file(
    mount: MountView,
    disk: Map<Seq<char>, Names>,
    from: Seq<char>,
    name: Seq<char>,
    replace: bool,
)
    requires
        mount.lane != "base"@,
        winfsp_mount::renamed(mount, disk, from, name, replace).1 is None,
        vfs::repo_path(from) != vfs::repo_path(nodes::view_label(name)),
        write_laws::can_be_told(
            vfs::base_at(mount.fs.files, vfs::repo_path(nodes::view_label(name))->Ok_0),
            Some(winfsp_mount::bytes_at(mount, from)->Ok_0),
        ),
        write_laws::can_be_told(
            vfs::base_at(mount.fs.files, vfs::repo_path(from)->Ok_0),
            None,
        ),
    ensures
        ({
            let to = nodes::view_label(name);
            let after = winfsp_mount::renamed(mount, disk, from, name, replace).0;
            &&& winfsp_mount::bytes_at(mount, from) is Ok
            &&& winfsp_mount::bytes_at(after, to) == winfsp_mount::bytes_at(mount, from)
            &&& winfsp_mount::bytes_at(after, from) == Err::<Seq<u8>, Status>(Status::NameNotFound)
            &&& !replace ==> !(winfsp_mount::kind_at(mount, disk, to) is Ok)
        }),
{
    let to = nodes::view_label(name);
    let bytes = winfsp_mount::bytes_at(mount, from)->Ok_0;
    law_mount_reads_what_was_put(mount, to, Some(bytes), from);
    let moved = winfsp_mount::put_at(mount, to, Some(bytes))->Ok_0;
    law_mount_reads_what_was_put(moved, from, None, to);
}

} // verus!
