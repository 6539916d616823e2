//! Names, nodes and status codes of the mounted view.
use vstd::prelude::*;

use crate::numbers;
use crate::numbers::hex_of;
use crate::storage::failures::FailureKind;
use crate::text;
use crate::text::{
    cat, contains_char, eq_ignore_ascii_case, replace_char, rsplit_once, split, text_eq,
};
use crate::types;
use crate::types::{is_git_metadata_path, is_lane_state_path, LaneError, LaneErrorView};
use crate::vfs;
use crate::vfs::{child_path, LaneFsError, LaneFsErrorView};

verus! {

/// Why an operation on the mounted view failed.
#[derive(Clone, Copy, Debug, PartialEq, Eq, Structural)]
pub enum Status {
    AccessDenied,
    InvalidParameter,
    NameCollision,
    NameNotFound,
    PathNotFound,
    NoSuchFile,
    DirectoryNotEmpty,
    FileIsADirectory,
    NotADirectory,
    BufferOverflow,
    InternalError,
}

/// The number by which the system knows a status.
pub open spec fn status_number(status: Status) -> u32 {
    match status {
        Status::AccessDenied => 0xC000_0022u32,
        Status::InvalidParameter => 0xC000_000Du32,
        Status::NameCollision => 0xC000_0035u32,
        Status::NameNotFound => 0xC000_0034u32,
        Status::PathNotFound => 0xC000_003Au32,
        Status::NoSuchFile => 0xC000_000Fu32,
        Status::DirectoryNotEmpty => 0xC000_0101u32,
        Status::FileIsADirectory => 0xC000_00BAu32,
        Status::NotADirectory => 0xC000_0103u32,
        Status::BufferOverflow => 0x8000_0005u32,
        Status::InternalError => 0xC000_00E5u32,
    }
}

impl Status {
    /// The number by which the system knows the status.
    pub fn number(self) -> (r: u32)
        ensures
            r == status_number(self),
    {
        match self {
            Status::AccessDenied => 0xC000_0022u32,
            Status::InvalidParameter => 0xC000_000Du32,
            Status::NameCollision => 0xC000_0035u32,
            Status::NameNotFound => 0xC000_0034u32,
            Status::PathNotFound => 0xC000_003Au32,
            Status::NoSuchFile => 0xC000_000Fu32,
            Status::DirectoryNotEmpty => 0xC000_0101u32,
            Status::FileIsADirectory => 0xC000_00BAu32,
            Status::NotADirectory => 0xC000_0103u32,
            Status::BufferOverflow => 0x8000_0005u32,
            Status::InternalError => 0xC000_00E5u32,
        }
    }
}

/// The message about an operation that failed with a status.
pub open spec fn status_message(operation: Seq<char>, status: Status) -> Seq<char> {
    text::flat(
        seq![
            "virtual lane filesystem failed while trying to "@,
            operation,
            " with NTSTATUS 0x"@,
            numbers::hex_number(status_number(status) as nat),
        ],
    )
}

/// The message about an operation that failed with a status.
pub fn from_status(operation: &str, status: Status) -> (r: String)
    ensures
        r@ == status_message(operation@, status),
{
    let number = hex_of(status.number());
    let parts: Vec<&str> = vec![
        "virtual lane filesystem failed while trying to ",
        operation,
        " with NTSTATUS 0x",
        number.as_str(),
    ];
    assert(text::strs(parts@) =~= seq![
        "virtual lane filesystem failed while trying to "@,
        operation@,
        " with NTSTATUS 0x"@,
        number@,
    ]);
    cat(parts)
}

/// The status for an error of a lane.
pub open spec fn lane_status(error: LaneErrorView) -> Status {
    match error {
        LaneErrorView::LaneMissing(_) => Status::NameNotFound,
        LaneErrorView::BaseChanged(_) => Status::AccessDenied,
        _ => Status::InvalidParameter,
    }
}

/// The status for an error of a lane's file tree.
pub open spec fn fs_status(error: LaneFsErrorView) -> Status {
    match error {
        LaneFsErrorView::BadPath(_) => Status::AccessDenied,
        LaneFsErrorView::Io(_) => Status::AccessDenied,
        LaneFsErrorView::Lane(error) => lane_status(error),
    }
}

/// The status for an error of a lane's file tree.
pub fn status_from_lane_fs_error(error: &LaneFsError) -> (r: Status)
    ensures
        r == fs_status(error@),
{
    match error {
        LaneFsError::BadPath(_) => Status::AccessDenied,
        LaneFsError::Io(_) => Status::AccessDenied,
        LaneFsError::Lane(error) => match error {
            LaneError::LaneMissing(_) => Status::NameNotFound,
            LaneError::BaseChanged { .. } => Status::AccessDenied,
            _ => Status::InvalidParameter,
        },
    }
}

/// The status for a failure to read or write a file.
pub fn status_from_io_error(kind: FailureKind) -> (r: Status)
    ensures
        r == match kind {
            FailureKind::NotFound => Status::PathNotFound,
            FailureKind::AlreadyExists => Status::NameCollision,
            _ => Status::AccessDenied,
        },
{
    match kind {
        FailureKind::NotFound => Status::PathNotFound,
        FailureKind::AlreadyExists => Status::NameCollision,
        _ => Status::AccessDenied,
    }
}

/// A file or a directory of the mounted view.
#[derive(Debug, PartialEq, Eq)]
pub enum VirtualNode {
    File(String, u64),
    Directory(String),
}

/// A [`VirtualNode`] as a mathematical value.
pub enum NodeView {
    File(Seq<char>, nat),
    Directory(Seq<char>),
}

impl View for VirtualNode {
    type V = NodeView;

    open spec fn view(&self) -> NodeView {
        match self {
            VirtualNode::File(path, len) => NodeView::File(path@, *len as nat),
            VirtualNode::Directory(path) => NodeView::Directory(path@),
        }
    }
}

/// What is told to the system about a node: whether it is a directory, its size, and the number by
/// which it is known.
#[derive(Clone, Copy, Debug, PartialEq, Eq, Structural)]
pub struct NodeInfo {
    pub directory: bool,
    pub size: u64,
    pub index: u64,
}

/// The offset of the digest that gives nodes their numbers.
pub const INDEX_OFFSET: u64 = 0xcbf2_9ce4_8422_2325;

/// The factor of the digest that gives nodes their numbers.
pub const INDEX_PRIME: u64 = 0x0000_0100_0000_01b3;

/// The digest of bytes that gives nodes their numbers.
pub open spec fn index_of(bytes: Seq<u8>) -> u64
    decreases bytes.len(),
{
    if bytes.len() == 0 {
        INDEX_OFFSET
    } else {
        vstd::wrapping::u64_specs::wrapping_mul(
            index_of(bytes.drop_last()) ^ (bytes.last() as u64),
            INDEX_PRIME,
        )
    }
}

/// The number by which the node at a path is known.
pub fn index_number(path: &str) -> (r: u64)
    ensures
        r == index_of(vstd::utf8::encode_utf8(path@)),
{
    let bytes = path.as_bytes();
    let mut hash: u64 = INDEX_OFFSET;
    let mut i: usize = 0;
    assert(bytes@.subrange(0, 0) =~= Seq::empty());
    while i < bytes.len()
        invariant
            i <= bytes@.len(),
            hash == index_of(bytes@.subrange(0, i as int)),
        decreases bytes@.len() - i,
    {
        proof {
            assert(bytes@.subrange(0, i + 1).drop_last() =~= bytes@.subrange(0, i as int));
        }
        hash = (hash ^ (bytes[i] as u64)).wrapping_mul(INDEX_PRIME);
        i = i + 1;
    }
    assert(bytes@.subrange(0, i as int) =~= bytes@);
    hash
}

/// The path of a node.
pub open spec fn node_path(node: NodeView) -> Seq<char> {
    match node {
        NodeView::File(path, _) => path,
        NodeView::Directory(path) => path,
    }
}

impl VirtualNode {
    /// Whether the node is a directory.
    pub fn is_dir(&self) -> (r: bool)
        ensures
            r == (self@ is Directory),
    {
        match self {
            VirtualNode::File(_, _) => false,
            VirtualNode::Directory(_) => true,
        }
    }

    /// What is told to the system about the node.
    pub fn file_info(&self) -> (r: NodeInfo)
        ensures
            r.directory == (self@ is Directory),
            r.size as nat == match self@ {
                NodeView::File(_, len) => len,
                NodeView::Directory(_) => 0,
            },
            r.index == index_of(vstd::utf8::encode_utf8(node_path(self@))),
    {
        match self {
            VirtualNode::File(path, len) => NodeInfo {
                directory: false,
                size: *len,
                index: index_number(path.as_str()),
            },
            VirtualNode::Directory(path) => NodeInfo {
                directory: true,
                size: 0,
                index: index_number(path.as_str()),
            },
        }
    }
}

/// A text without the slashes at its beginning.
pub open spec fn without_leading_slashes(s: Seq<char>) -> Seq<char>
    decreases s.len(),
{
    if s.len() > 0 && (s[0] == '/' || s[0] == '\\') {
        without_leading_slashes(s.drop_first())
    } else {
        s
    }
}

/// A text without the slashes at its beginning.
pub fn trim_leading_slashes(s: &str) -> (r: String)
    ensures
        r@ == without_leading_slashes(s@),
{
    let chars = text::chars_of(s);
    let mut i: usize = 0;
    assert(chars@.subrange(0, chars@.len() as int) =~= chars@);
    while i < chars.len() && (chars[i] == '/' || chars[i] == '\\')
        invariant
            i <= chars@.len(),
            chars@ == s@,
            without_leading_slashes(s@) == without_leading_slashes(
                chars@.subrange(i as int, chars@.len() as int),
            ),
        decreases chars@.len() - i,
    {
        proof {
            let rest = chars@.subrange(i as int, chars@.len() as int);
            assert(rest.drop_first() =~= chars@.subrange(i + 1, chars@.len() as int));
        }
        i = i + 1;
    }
    proof {
        let rest = chars@.subrange(i as int, chars@.len() as int);
        if i < chars@.len() {
            assert(rest[0] == chars@[i as int]);
        }
    }
    text::text_between(&chars, i, chars.len())
}

/// A name as a path of the view: without slashes at its beginning, and with forward slashes.
pub open spec fn view_label(name: Seq<char>) -> Seq<char> {
    text::with_char_replaced(without_leading_slashes(name), '\\', '/')
}

/// A name as a path of the view.
pub fn label_of_name(name: &str) -> (r: String)
    ensures
        r@ == view_label(name@),
{
    replace_char(trim_leading_slashes(name).as_str(), '\\', '/')
}

/// Whether some part of a path leads upwards or holds a NUL.
pub open spec fn has_unsafe_part(label: Seq<char>) -> bool {
    exists|i: int|
        0 <= i < text::split_text(label, '/').len() && unsafe_part(
            #[trigger] text::split_text(label, '/')[i],
        )
}

/// Whether a part of a path leads upwards or holds a NUL.
pub open spec fn unsafe_part(part: Seq<char>) -> bool {
    part == ".."@ || part.contains('\0')
}

/// The path of the view that a name stands for, unless it must not be reached.
pub open spec fn named_path(name: Seq<char>) -> Result<Seq<char>, Status> {
    let label = view_label(name);
    if types::rooted_at(label, ".lane"@) || has_unsafe_part(label) {
        Err(Status::AccessDenied)
    } else {
        Ok(label)
    }
}

/// The view of a path or a status.
pub open spec fn path_result(r: Result<String, Status>) -> Result<Seq<char>, Status> {
    match r {
        Ok(path) => Ok(path@),
        Err(status) => Err(status),
    }
}

/// The path of the view that a name stands for, unless it must not be reached: lane state, and
/// whatever leads out of the view.
pub fn path_from_name(name: &str) -> (r: Result<String, Status>)
    ensures
        path_result(r) == named_path(name@),
{
    let label = label_of_name(name);
    if is_lane_state_path(label.as_str()) {
        return Err(Status::AccessDenied);
    }
    let parts = split(label.as_str(), '/');
    let ghost all = text::split_text(label@, '/');
    let mut i: usize = 0;
    while i < parts.len()
        invariant
            i <= parts@.len(),
            all == text::texts(parts@),
            all == text::split_text(label@, '/'),
            label@ == view_label(name@),
            !types::rooted_at(label@, ".lane"@),
            forall|k: int| 0 <= k < i ==> !unsafe_part(#[trigger] all[k]),
        decreases parts@.len() - i,
    {
        assert(all[i as int] == parts@[i as int]@);
        if text_eq(parts[i].as_str(), "..") || contains_char(parts[i].as_str(), '\0') {
            assert(unsafe_part(all[i as int]));
            return Err(Status::AccessDenied);
        }
        i = i + 1;
    }
    Ok(label)
}

/// Refuses a path that must not be changed: git metadata.
pub fn ensure_mutable_path(path: &str) -> (r: Result<(), Status>)
    ensures
        r == if types::rooted_at(path@, ".git"@) {
            Err(Status::AccessDenied)
        } else {
            Ok::<(), Status>(())
        },
{
    if is_git_metadata_path(path) {
        Err(Status::AccessDenied)
    } else {
        Ok(())
    }
}

/// The path of a name in a directory of the view.
pub open spec fn view_child(parent: Seq<char>, name: Seq<char>) -> Seq<char> {
    vfs::child_of(parent, view_label(name))
}

/// The path of a name in a directory of the view.
pub fn child_path_of(parent: &str, name: &str) -> (r: String)
    ensures
        r@ == view_child(parent@, name@),
{
    child_path(parent, label_of_name(name).as_str())
}

/// The path that a renamed node gets. A bare name stays in the directory of the node, and a
/// directory that differs in case alone is that directory.
pub open spec fn rename_target(from: Seq<char>, target: Seq<char>) -> Seq<char> {
    match text::split_last(from, '/') {
        None => target,
        Some((parent, _)) => match text::split_last(target, '/') {
            Some((target_parent, name)) => if text::same_ignoring_ascii_case(
                target_parent,
                parent,
            ) {
                view_child(parent, name)
            } else {
                target
            },
            None => view_child(parent, target),
        },
    }
}

/// The path that a renamed node gets.
pub fn rename_target_path(from: &str, target: &str) -> (r: String)
    ensures
        r@ == rename_target(from@, target@),
{
    match rsplit_once(from, '/') {
        None => target.to_owned(),
        Some((parent, _)) => match rsplit_once(target, '/') {
            Some((target_parent, name)) => {
                if eq_ignore_ascii_case(target_parent.as_str(), parent.as_str()) {
                    child_path_of(parent.as_str(), name.as_str())
                } else {
                    target.to_owned()
                }
            },
            None => child_path_of(parent.as_str(), target),
        },
    }
}

} // verus!
