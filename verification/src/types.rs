//! Names, paths, summaries and errors of the lane model.
use vstd::prelude::*;

use crate::text;
use crate::text::{
    chars_of, contains_char, copy_texts, eq_ignore_ascii_case, join, replace_char, split, text_between,
    text_eq, trim,
};
use crate::text_map::TextMap;

verus! {

/// The number of bytes in a base fingerprint.
pub const BASE_FINGERPRINT_LEN: usize = 32;

/// The number of bytes of worker output that a preview keeps.
pub const EXEC_OUTPUT_PREVIEW_LIMIT: usize = 4096;

/// The SHA-256 digest of a base file.
pub type BaseFingerprint = [u8; 32];

/// The ways in which a lane operation fails.
#[derive(Clone, Debug, PartialEq, Eq)]
pub enum LaneError {
    InvalidPath(String),
    InvalidLane(String),
    ReservedLane(String),
    LaneMissing(String),
    BaseChanged { path: String },
    BaseMissing { path: String },
    OperationOutOfBounds { path: String },
    OperationConflict { path: String },
    EmptyOperationSelection,
    InvalidOperationSelection { path: String, reason: String },
    OperationMissing { path: String, op_id: String },
}

/// A [`LaneError`] with its texts as character sequences.
pub enum LaneErrorView {
    InvalidPath(Seq<char>),
    InvalidLane(Seq<char>),
    ReservedLane(Seq<char>),
    LaneMissing(Seq<char>),
    BaseChanged(Seq<char>),
    BaseMissing(Seq<char>),
    OperationOutOfBounds(Seq<char>),
    OperationConflict(Seq<char>),
    EmptyOperationSelection,
    InvalidOperationSelection(Seq<char>, Seq<char>),
    OperationMissing(Seq<char>, Seq<char>),
}

impl View for LaneError {
    type V = LaneErrorView;

    open spec fn view(&self) -> LaneErrorView {
        match self {
            LaneError::InvalidPath(reason) => LaneErrorView::InvalidPath(reason@),
            LaneError::InvalidLane(lane) => LaneErrorView::InvalidLane(lane@),
            LaneError::ReservedLane(lane) => LaneErrorView::ReservedLane(lane@),
            LaneError::LaneMissing(lane) => LaneErrorView::LaneMissing(lane@),
            LaneError::BaseChanged { path } => LaneErrorView::BaseChanged(path@),
            LaneError::BaseMissing { path } => LaneErrorView::BaseMissing(path@),
            LaneError::OperationOutOfBounds { path } => LaneErrorView::OperationOutOfBounds(path@),
            LaneError::OperationConflict { path } => LaneErrorView::OperationConflict(path@),
            LaneError::EmptyOperationSelection => LaneErrorView::EmptyOperationSelection,
            LaneError::InvalidOperationSelection { path, reason } => {
                LaneErrorView::InvalidOperationSelection(path@, reason@)
            },
            LaneError::OperationMissing { path, op_id } => LaneErrorView::OperationMissing(
                path@,
                op_id@,
            ),
        }
    }
}

/// `std::fmt::Debug` on a text: the text in double quotes with special characters escaped. The
/// escapes follow tables of the standard library.
pub uninterp spec fn debug_text(s: Seq<char>) -> Seq<char>;

/// Formats `s` with `{:?}`; the result is named, and nothing more is claimed of it.
#[verifier::external_body]
pub(crate) fn debug_quoted(s: &str) -> (r: String)
    ensures
        r@ == debug_text(s@),
{
    format!("{:?}", s)
}

/// The sentence that describes an error.
pub open spec fn lane_error_message(error: LaneErrorView) -> Seq<char> {
    match error {
        LaneErrorView::InvalidPath(reason) => "invalid repo path: "@ + reason,
        LaneErrorView::InvalidLane(lane) => "invalid lane name "@ + debug_text(lane),
        LaneErrorView::ReservedLane(lane) => "reserved lane name "@ + debug_text(lane),
        LaneErrorView::LaneMissing(lane) => "lane "@ + debug_text(lane) + " does not exist"@,
        LaneErrorView::BaseChanged(path) => "base file changed outside lane for "@ + path,
        LaneErrorView::BaseMissing(path) => "base file is missing for "@ + path,
        LaneErrorView::OperationOutOfBounds(path) => {
            "operation is outside the current base file for "@ + path
        },
        LaneErrorView::OperationConflict(path) => {
            "operation conflicts with another selected operation for "@ + path
        },
        LaneErrorView::EmptyOperationSelection => "operation selection cannot be empty"@,
        LaneErrorView::InvalidOperationSelection(path, reason) => {
            "invalid operation selection for "@ + path + ": "@ + reason
        },
        LaneErrorView::OperationMissing(path, op_id) => {
            "operation "@ + debug_text(op_id) + " does not exist for "@ + path
        },
    }
}

/// The error written as a Rust value.
pub open spec fn lane_error_debug(error: LaneErrorView) -> Seq<char> {
    match error {
        LaneErrorView::InvalidPath(reason) => "InvalidPath("@ + debug_text(reason) + ")"@,
        LaneErrorView::InvalidLane(lane) => "InvalidLane("@ + debug_text(lane) + ")"@,
        LaneErrorView::ReservedLane(lane) => "ReservedLane("@ + debug_text(lane) + ")"@,
        LaneErrorView::LaneMissing(lane) => "LaneMissing("@ + debug_text(lane) + ")"@,
        LaneErrorView::BaseChanged(path) => "BaseChanged { path: "@ + debug_text(path) + " }"@,
        LaneErrorView::BaseMissing(path) => "BaseMissing { path: "@ + debug_text(path) + " }"@,
        LaneErrorView::OperationOutOfBounds(path) => {
            "OperationOutOfBounds { path: "@ + debug_text(path) + " }"@
        },
        LaneErrorView::OperationConflict(path) => {
            "OperationConflict { path: "@ + debug_text(path) + " }"@
        },
        LaneErrorView::EmptyOperationSelection => "EmptyOperationSelection"@,
        LaneErrorView::InvalidOperationSelection(path, reason) => {
            "InvalidOperationSelection { path: "@ + debug_text(path) + ", reason: "@ + debug_text(
                reason,
            ) + " }"@
        },
        LaneErrorView::OperationMissing(path, op_id) => {
            "OperationMissing { path: "@ + debug_text(path) + ", op_id: "@ + debug_text(op_id)
                + " }"@
        },
    }
}

fn between(before: &str, quoted: &str, after: &str) -> (r: String)
    ensures
        r@ == before@ + debug_text(quoted@) + after@,
{
    before.to_owned().concat(debug_quoted(quoted).as_str()).concat(after)
}

impl LaneError {
    /// The error written as a Rust value.
    pub fn debug_label(&self) -> (r: String)
        ensures
            r@ == lane_error_debug(self@),
    {
        match self {
            LaneError::InvalidPath(reason) => between("InvalidPath(", reason.as_str(), ")"),
            LaneError::InvalidLane(lane) => between("InvalidLane(", lane.as_str(), ")"),
            LaneError::ReservedLane(lane) => between("ReservedLane(", lane.as_str(), ")"),
            LaneError::LaneMissing(lane) => between("LaneMissing(", lane.as_str(), ")"),
            LaneError::BaseChanged { path } => between("BaseChanged { path: ", path.as_str(), " }"),
            LaneError::BaseMissing { path } => between("BaseMissing { path: ", path.as_str(), " }"),
            LaneError::OperationOutOfBounds { path } => between(
                "OperationOutOfBounds { path: ",
                path.as_str(),
                " }",
            ),
            LaneError::OperationConflict { path } => between(
                "OperationConflict { path: ",
                path.as_str(),
                " }",
            ),
            LaneError::EmptyOperationSelection => "EmptyOperationSelection".to_owned(),
            LaneError::InvalidOperationSelection { path, reason } => {
                "InvalidOperationSelection { path: ".to_owned().concat(
                    debug_quoted(path.as_str()).as_str(),
                ).concat(", reason: ").concat(debug_quoted(reason.as_str()).as_str()).concat(" }")
            },
            LaneError::OperationMissing { path, op_id } => {
                "OperationMissing { path: ".to_owned().concat(
                    debug_quoted(path.as_str()).as_str(),
                ).concat(", op_id: ").concat(debug_quoted(op_id.as_str()).as_str()).concat(" }")
            },
        }
    }
}

impl LaneError {
    /// The sentence that describes the error.
    pub fn message(&self) -> (r: String)
        ensures
            r@ == lane_error_message(self@),
    {
        match self {
            LaneError::InvalidPath(reason) => "invalid repo path: ".to_owned().concat(
                reason.as_str(),
            ),
            LaneError::InvalidLane(lane) => "invalid lane name ".to_owned().concat(
                debug_quoted(lane.as_str()).as_str(),
            ),
            LaneError::ReservedLane(lane) => "reserved lane name ".to_owned().concat(
                debug_quoted(lane.as_str()).as_str(),
            ),
            LaneError::LaneMissing(lane) => "lane ".to_owned().concat(
                debug_quoted(lane.as_str()).as_str(),
            ).concat(" does not exist"),
            LaneError::BaseChanged { path } => "base file changed outside lane for ".to_owned().concat(
                path.as_str(),
            ),
            LaneError::BaseMissing { path } => "base file is missing for ".to_owned().concat(
                path.as_str(),
            ),
            LaneError::OperationOutOfBounds { path } => {
                "operation is outside the current base file for ".to_owned().concat(path.as_str())
            },
            LaneError::OperationConflict { path } => {
                "operation conflicts with another selected operation for ".to_owned().concat(
                    path.as_str(),
                )
            },
            LaneError::EmptyOperationSelection => "operation selection cannot be empty".to_owned(),
            LaneError::InvalidOperationSelection { path, reason } => {
                "invalid operation selection for ".to_owned().concat(path.as_str()).concat(
                    ": ",
                ).concat(reason.as_str())
            },
            LaneError::OperationMissing { path, op_id } => "operation ".to_owned().concat(
                debug_quoted(op_id.as_str()).as_str(),
            ).concat(" does not exist for ").concat(path.as_str()),
        }
    }
}

/// The ways in which stored state is refused.
#[derive(Clone, Debug, PartialEq, Eq)]
pub enum DecodeError {
    InvalidOrderKey,
    OperationConflict,
    OperationOutOfBounds,
    OverlayLaneMissing(String),
    ExecStateLaneMissing(String),
    ReservedLane(String),
}

/// A [`DecodeError`] with its texts as character sequences.
pub enum DecodeErrorView {
    InvalidOrderKey,
    OperationConflict,
    OperationOutOfBounds,
    OverlayLaneMissing(Seq<char>),
    ExecStateLaneMissing(Seq<char>),
    ReservedLane(Seq<char>),
}

impl View for DecodeError {
    type V = DecodeErrorView;

    open spec fn view(&self) -> DecodeErrorView {
        match self {
            DecodeError::InvalidOrderKey => DecodeErrorView::InvalidOrderKey,
            DecodeError::OperationConflict => DecodeErrorView::OperationConflict,
            DecodeError::OperationOutOfBounds => DecodeErrorView::OperationOutOfBounds,
            DecodeError::OverlayLaneMissing(lane) => DecodeErrorView::OverlayLaneMissing(lane@),
            DecodeError::ExecStateLaneMissing(lane) => DecodeErrorView::ExecStateLaneMissing(lane@),
            DecodeError::ReservedLane(lane) => DecodeErrorView::ReservedLane(lane@),
        }
    }
}

/// The sentence that describes refused stored state.
pub open spec fn decode_error_message(error: DecodeErrorView) -> Seq<char> {
    match error {
        DecodeErrorView::InvalidOrderKey => "invalid operation order key"@,
        DecodeErrorView::OperationConflict => "stored operations conflict"@,
        DecodeErrorView::OperationOutOfBounds => "stored operation is outside the base file"@,
        DecodeErrorView::OverlayLaneMissing(lane) => {
            "stored overlay references missing lane "@ + debug_text(lane)
        },
        DecodeErrorView::ExecStateLaneMissing(lane) => {
            "stored exec state references missing lane "@ + debug_text(lane)
        },
        DecodeErrorView::ReservedLane(lane) => {
            "stored manifest contains reserved lane name "@ + debug_text(lane)
        },
    }
}

impl DecodeError {
    /// The sentence that describes the refusal.
    pub fn message(&self) -> (r: String)
        ensures
            r@ == decode_error_message(self@),
    {
        match self {
            DecodeError::InvalidOrderKey => "invalid operation order key".to_owned(),
            DecodeError::OperationConflict => "stored operations conflict".to_owned(),
            DecodeError::OperationOutOfBounds => {
                "stored operation is outside the base file".to_owned()
            },
            DecodeError::OverlayLaneMissing(lane) => {
                "stored overlay references missing lane ".to_owned().concat(
                    debug_quoted(lane.as_str()).as_str(),
                )
            },
            DecodeError::ExecStateLaneMissing(lane) => {
                "stored exec state references missing lane ".to_owned().concat(
                    debug_quoted(lane.as_str()).as_str(),
                )
            },
            DecodeError::ReservedLane(lane) => {
                "stored manifest contains reserved lane name ".to_owned().concat(
                    debug_quoted(lane.as_str()).as_str(),
                )
            },
        }
    }
}

/// A path inside the repo: components joined by `/`, none of them empty, `.` or `..`.
#[derive(Clone, Debug, PartialEq, Eq, PartialOrd, Ord, Hash)]
pub struct FilePath {
    label: String,
}

impl View for FilePath {
    type V = Seq<char>;

    closed spec fn view(&self) -> Seq<char> {
        self.label@
    }
}

/// Whether the first two characters are a drive letter and a colon.
pub open spec fn drive_prefixed(path: Seq<char>) -> bool {
    path.len() >= 2 && ('a' <= path[0] <= 'z' || 'A' <= path[0] <= 'Z') && path[1] == ':'
}

/// Whether a path names a place outside any repo.
pub open spec fn absolute_path(path: Seq<char>) -> bool {
    (path.len() > 0 && (path[0] == '/' || path[0] == '\\')) || drive_prefixed(path)
}

/// Whether the first component is `component`, whatever the case of ASCII letters.
pub open spec fn rooted_at(path: Seq<char>, component: Seq<char>) -> bool {
    text::same_ignoring_ascii_case(text::split_text(path, '/')[0], component)
}

/// The components of a path with either kind of slash.
pub open spec fn raw_parts(raw: Seq<char>) -> Seq<Seq<char>> {
    text::split_text(text::with_char_replaced(raw, '\\', '/'), '/')
}

/// A component that may lead out of the repo.
pub open spec fn escaping_part(part: Seq<char>) -> bool {
    part == ".."@ || part.contains('\0')
}

/// A component that names something.
pub open spec fn naming_part(part: Seq<char>) -> bool {
    part.len() > 0 && part != "."@
}

/// The components of a path that name something, joined by `/`.
pub open spec fn joined_label(raw: Seq<char>) -> Seq<char> {
    text::join_texts(raw_parts(raw).filter(|part: Seq<char>| naming_part(part)), "/"@)
}

/// The normal form of a path, or why it has none.
pub open spec fn normalized_label(raw: Seq<char>) -> Result<Seq<char>, Seq<char>> {
    if text::trim_text(raw).len() == 0 || raw == "."@ {
        Ok(Seq::empty())
    } else if absolute_path(raw) {
        Err("path must be repo-relative"@)
    } else if exists|i: int| 0 <= i < raw_parts(raw).len() && escaping_part(#[trigger] raw_parts(raw)[i]) {
        Err("path must stay inside the repo"@)
    } else if rooted_at(joined_label(raw), ".lane"@) {
        Err("cannot project lane state files"@)
    } else if rooted_at(joined_label(raw), ".git"@) {
        Err("cannot project git metadata files"@)
    } else {
        Ok(joined_label(raw))
    }
}

/// The components that name something.
pub fn kept_parts(parts: &Vec<String>) -> (r: Vec<String>)
    ensures
        text::texts(r@) == text::texts(parts@).filter(|part: Seq<char>| naming_part(part)),
{
    let ghost all = text::texts(parts@);
    let ghost keep = |part: Seq<char>| naming_part(part);
    let mut kept: Vec<String> = Vec::new();
    let mut i: usize = 0;
    assert(all.subrange(0, 0) =~= Seq::<Seq<char>>::empty());
    assert(text::texts(kept@) =~= all.subrange(0, 0).filter(keep)) by {
        reveal(Seq::filter);
    }
    while i < parts.len()
        invariant
            i <= parts@.len(),
            text::texts(parts@) == all,
            keep == (|part: Seq<char>| naming_part(part)),
            text::texts(kept@) == all.subrange(0, i as int).filter(keep),
        decreases parts@.len() - i,
    {
        let part = parts[i].as_str();
        proof {
            assert(part@ == all[i as int]);
            let seen = all.subrange(0, i + 1);
            assert(seen.drop_last() =~= all.subrange(0, i as int));
            reveal(Seq::filter);
        }
        if !part.is_empty() && !text_eq(part, ".") {
            let ghost before = text::texts(kept@);
            kept.push(part.to_owned());
            assert(text::texts(kept@) =~= before.push(part@));
        }
        i = i + 1;
    }
    assert(all.subrange(0, i as int) =~= all);
    kept
}

/// The path that a text names, or why it names none.
pub open spec fn parsed_path(raw: Seq<char>) -> Result<Seq<char>, LaneErrorView> {
    match normalized_label(raw) {
        Err(reason) => Err(LaneErrorView::InvalidPath(reason)),
        Ok(label) => if label.len() == 0 {
            Err(LaneErrorView::InvalidPath("missing path"@))
        } else {
            Ok(label)
        },
    }
}

/// The view of a result that carries a text or a message.
pub open spec fn text_result(r: Result<String, String>) -> Result<Seq<char>, Seq<char>> {
    match r {
        Ok(label) => Ok(label@),
        Err(reason) => Err(reason@),
    }
}

/// Whether the first two characters are a drive letter and a colon.
pub(crate) fn has_windows_drive_prefix(path: &Vec<char>) -> (r: bool)
    ensures
        r == drive_prefixed(path@),
{
    path.len() >= 2 && (('a' <= path[0] && path[0] <= 'z') || ('A' <= path[0] && path[0] <= 'Z'))
        && path[1] == ':'
}

fn is_absolute_repo_path(path: &str) -> (r: bool)
    ensures
        r == absolute_path(path@),
{
    let chars = chars_of(path);
    (chars.len() > 0 && (chars[0] == '/' || chars[0] == '\\')) || has_windows_drive_prefix(&chars)
}

fn has_repo_root_component(path: &str, component: &str) -> (r: bool)
    ensures
        r == rooted_at(path@, component@),
{
    let parts = split(path, '/');
    assert(text::texts(parts@)[0] == parts@[0]@);
    eq_ignore_ascii_case(parts[0].as_str(), component)
}

/// Whether a path lies in the directory that holds lane state.
pub fn is_lane_state_path(path: &str) -> (r: bool)
    ensures
        r == rooted_at(path@, ".lane"@),
{
    has_repo_root_component(path, ".lane")
}

/// Whether a path lies in the directory that holds git metadata.
pub fn is_git_metadata_path(path: &str) -> (r: bool)
    ensures
        r == rooted_at(path@, ".git"@),
{
    has_repo_root_component(path, ".git")
}

impl FilePath {
    /// Reads a path that names something inside the repo.
    pub fn parse(raw: &str) -> (r: Result<Self, LaneError>)
        ensures
            match r {
                Ok(path) => parsed_path(raw@) == Ok::<Seq<char>, LaneErrorView>(path@),
                Err(error) => parsed_path(raw@) == Err::<Seq<char>, LaneErrorView>(error@),
            },
    {
        match Self::normalize_label(raw) {
            Err(reason) => Err(LaneError::InvalidPath(reason)),
            Ok(label) => {
                if label.as_str().is_empty() {
                    Err(LaneError::InvalidPath("missing path".to_owned()))
                } else {
                    Ok(FilePath { label })
                }
            },
        }
    }

    /// Reads a path that may be the repo root.
    pub fn parse_label(raw: &str) -> (r: Result<Self, String>)
        ensures
            match r {
                Ok(path) => normalized_label(raw@) == Ok::<Seq<char>, Seq<char>>(path@),
                Err(reason) => normalized_label(raw@) == Err::<Seq<char>, Seq<char>>(reason@),
            },
    {
        match Self::normalize_label(raw) {
            Err(reason) => Err(reason),
            Ok(label) => Ok(FilePath { label }),
        }
    }

    /// Takes a label that is already in normal form.
    pub fn from_normalized(raw: String) -> (r: Self)
        requires
            normalized_label(raw@) == Ok::<Seq<char>, Seq<char>>(raw@),
        ensures
            r@ == raw@,
    {
        FilePath { label: raw }
    }

    /// Brings a path into normal form.
    pub fn normalize_label(raw: &str) -> (r: Result<String, String>)
        ensures
            text_result(r) == normalized_label(raw@),
    {
        if trim(raw).as_str().is_empty() || text_eq(raw, ".") {
            let label = String::new();
            assert(label@ =~= Seq::<char>::empty());
            return Ok(label);
        }
        if is_absolute_repo_path(raw) {
            return Err("path must be repo-relative".to_owned());
        }
        let normalized = replace_char(raw, '\\', '/');
        let parts = split(normalized.as_str(), '/');
        let ghost all = raw_parts(raw@);
        let mut i: usize = 0;
        assert(text::texts(parts@) == all);
        while i < parts.len()
            invariant
                i <= parts@.len(),
                text::texts(parts@) == all,
                all == raw_parts(raw@),
                forall|j: int| 0 <= j < i ==> !escaping_part(#[trigger] all[j]),
                !(text::trim_text(raw@).len() == 0 || raw@ == "."@),
                !absolute_path(raw@),
            decreases parts@.len() - i,
        {
            let part = parts[i].as_str();
            assert(part@ == all[i as int]);
            if text_eq(part, "..") || contains_char(part, '\0') {
                assert(escaping_part(all[i as int]));
                return Err("path must stay inside the repo".to_owned());
            }
            i = i + 1;
        }
        let kept = kept_parts(&parts);
        let label = join(&kept, "/");
        assert(label@ == joined_label(raw@));
        if is_lane_state_path(label.as_str()) {
            return Err("cannot project lane state files".to_owned());
        }
        if is_git_metadata_path(label.as_str()) {
            return Err("cannot project git metadata files".to_owned());
        }
        Ok(label)
    }

    /// The path as text.
    pub fn as_str(&self) -> (r: &str)
        ensures
            r@ == self@,
    {
        self.label.as_str()
    }

    /// The path as an owned text.
    pub fn into_string(self) -> (r: String)
        ensures
            r@ == self@,
    {
        self.label
    }

    /// A copy of the path.
    pub fn copy(&self) -> (r: Self)
        ensures
            r@ == self@,
    {
        FilePath { label: self.label.clone() }
    }
}

/// A copy of a list of paths.
pub fn copy_paths(paths: &Vec<FilePath>) -> (r: Vec<FilePath>)
    ensures
        path_labels(r@) == path_labels(paths@),
{
    let mut r: Vec<FilePath> = Vec::new();
    let mut i: usize = 0;
    while i < paths.len()
        invariant
            i <= paths@.len(),
            r@.len() == i,
            forall|k: int| 0 <= k < i ==> (#[trigger] r@[k])@ == paths@[k]@,
        decreases paths@.len() - i,
    {
        r.push(paths[i].copy());
        i = i + 1;
    }
    assert(path_labels(r@) =~= path_labels(paths@));
    r
}

/// The name of a lane: not empty, without white space at either end, and not `base`.
#[derive(Clone, Debug, PartialEq, Eq, PartialOrd, Ord, Hash)]
pub struct LaneId {
    name: String,
}

impl View for LaneId {
    type V = Seq<char>;

    closed spec fn view(&self) -> Seq<char> {
        self.name@
    }
}

/// The lane that a text names, or why it names none.
pub open spec fn parsed_lane(raw: Seq<char>) -> Result<Seq<char>, LaneErrorView> {
    if text::trim_text(raw).len() == 0 || text::trim_text(raw) != raw {
        Err(LaneErrorView::InvalidLane(raw))
    } else if raw == "base"@ {
        Err(LaneErrorView::ReservedLane(raw))
    } else {
        Ok(raw)
    }
}

/// Whether a text names a lane that a user can create.
pub open spec fn user_lane(lane: Seq<char>) -> bool {
    parsed_lane(lane) is Ok
}

impl LaneId {
    /// Reads a lane name.
    pub fn parse(raw: &str) -> (r: Result<Self, LaneError>)
        ensures
            match r {
                Ok(lane) => parsed_lane(raw@) == Ok::<Seq<char>, LaneErrorView>(lane@),
                Err(error) => parsed_lane(raw@) == Err::<Seq<char>, LaneErrorView>(error@),
            },
    {
        let trimmed = trim(raw);
        if trimmed.as_str().is_empty() || !text_eq(trimmed.as_str(), raw) {
            Err(LaneError::InvalidLane(raw.to_owned()))
        } else if text_eq(raw, "base") {
            Err(LaneError::ReservedLane(raw.to_owned()))
        } else {
            Ok(LaneId { name: trimmed })
        }
    }

    /// The name as text.
    pub fn as_str(&self) -> (r: &str)
        ensures
            r@ == self@,
    {
        self.name.as_str()
    }

    /// The name as an owned text.
    pub fn into_string(self) -> (r: String)
        ensures
            r@ == self@,
    {
        self.name
    }
}

/// Accepts the names that a user can give to a lane.
pub fn ensure_user_lane(lane: &str) -> (r: Result<(), LaneError>)
    ensures
        match r {
            Ok(()) => user_lane(lane@),
            Err(error) => parsed_lane(lane@) == Err::<Seq<char>, LaneErrorView>(error@),
        },
{
    match LaneId::parse(lane) {
        Ok(_) => Ok(()),
        Err(error) => Err(error),
    }
}

/// The beginning of a worker's output.
#[derive(Clone, Debug, PartialEq, Eq)]
pub struct LaneTextPreview {
    pub text: String,
    pub truncated: bool,
}

/// A [`LaneTextPreview`] with its text as a character sequence.
pub struct TextPreviewView {
    pub text: Seq<char>,
    pub truncated: bool,
}

impl View for LaneTextPreview {
    type V = TextPreviewView;

    open spec fn view(&self) -> TextPreviewView {
        TextPreviewView { text: self.text@, truncated: self.truncated }
    }
}

/// The number of bytes that a character takes in UTF-8.
pub open spec fn char_utf8_len(c: char) -> nat {
    if (c as u32) < 0x80 {
        1
    } else if (c as u32) < 0x800 {
        2
    } else if (c as u32) < 0x10000 {
        3
    } else {
        4
    }
}

/// The number of bytes that a text takes in UTF-8.
pub open spec fn utf8_len(s: Seq<char>) -> nat
    decreases s.len(),
{
    if s.len() == 0 {
        0
    } else {
        utf8_len(s.drop_last()) + char_utf8_len(s.last())
    }
}

/// The longest beginning of `s` that takes at most `limit` bytes in UTF-8.
pub open spec fn utf8_prefix(s: Seq<char>, limit: nat) -> Seq<char>
    decreases s.len(),
{
    if utf8_len(s) <= limit {
        s
    } else {
        utf8_prefix(s.drop_last(), limit)
    }
}

/// The preview of a text: all of it, or the longest beginning that fits.
pub open spec fn text_preview(s: Seq<char>) -> TextPreviewView {
    TextPreviewView {
        text: utf8_prefix(s, EXEC_OUTPUT_PREVIEW_LIMIT as nat),
        truncated: utf8_len(s) > EXEC_OUTPUT_PREVIEW_LIMIT,
    }
}

fn utf8_width(c: char) -> (r: usize)
    ensures
        r == char_utf8_len(c),
        1 <= r <= 4,
{
    let code: u32 = c as u32;
    if code < 0x80 {
        1
    } else if code < 0x800 {
        2
    } else if code < 0x10000 {
        3
    } else {
        4
    }
}

/// Once a beginning is too long, the preview ends before it.
proof fn lemma_utf8_prefix(s: Seq<char>, n: int, limit: nat)
    requires
        0 <= n < s.len(),
        utf8_len(s.subrange(0, n)) <= limit < utf8_len(s.subrange(0, n + 1)),
    ensures
        utf8_prefix(s, limit) == s.subrange(0, n),
        utf8_len(s) > limit,
    decreases s.len(),
{
    if s.len() == n + 1 {
        assert(s.subrange(0, n + 1) =~= s);
        assert(s.drop_last() =~= s.subrange(0, n));
        reveal_with_fuel(utf8_prefix, 2);
    } else {
        let shorter = s.drop_last();
        assert(shorter.subrange(0, n) =~= s.subrange(0, n));
        assert(shorter.subrange(0, n + 1) =~= s.subrange(0, n + 1));
        lemma_utf8_prefix(shorter, n, limit);
    }
}

/// The longest beginning of a text that takes at most `limit` bytes in UTF-8, the number of bytes
/// that it takes, and whether the text is longer.
pub fn utf8_beginning(text: &str, limit: usize) -> (r: (String, usize, bool))
    requires
        limit <= usize::MAX - 4,
    ensures
        r.0@ == utf8_prefix(text@, limit as nat),
        r.1 == utf8_len(r.0@),
        r.2 == (utf8_len(text@) > limit),
{
    let chars = chars_of(text);
    let mut used: usize = 0;
    let mut i: usize = 0;
    assert(chars@.subrange(0, 0) =~= Seq::<char>::empty());
    while i < chars.len()
        invariant
            i <= chars@.len(),
            limit <= usize::MAX - 4,
            chars@ == text@,
            used == utf8_len(chars@.subrange(0, i as int)),
            used <= limit,
        decreases chars@.len() - i,
    {
        let next: usize = used + utf8_width(chars[i]);
        assert(chars@.subrange(0, i + 1).drop_last() =~= chars@.subrange(0, i as int));
        if next > limit {
            proof {
                lemma_utf8_prefix(text@, i as int, limit as nat);
            }
            return (text_between(&chars, 0, i), used, true);
        }
        used = next;
        i = i + 1;
    }
    assert(chars@.subrange(0, i as int) =~= text@);
    (text.to_owned(), used, false)
}

impl LaneTextPreview {
    /// Keeps the beginning of a text.
    pub fn from_text(text: &str) -> (r: Self)
        ensures
            r@ == text_preview(text@),
    {
        let (text, _, truncated) = utf8_beginning(text, EXEC_OUTPUT_PREVIEW_LIMIT);
        LaneTextPreview { text, truncated }
    }
}

/// How the last command in a lane ended.
#[derive(Clone, Debug, PartialEq, Eq)]
pub struct LaneRunState {
    pub exit_code: Option<i32>,
    pub worker_error: Option<String>,
    pub stdout: LaneTextPreview,
    pub stderr: LaneTextPreview,
    pub changed_paths: Vec<FilePath>,
}

/// A [`LaneRunState`] with its texts as character sequences.
pub struct RunStateView {
    pub exit_code: Option<i32>,
    pub worker_error: Option<Seq<char>>,
    pub stdout: TextPreviewView,
    pub stderr: TextPreviewView,
    pub changed_paths: Seq<Seq<char>>,
}

/// The labels of a list of paths.
pub open spec fn path_labels(paths: Seq<FilePath>) -> Seq<Seq<char>> {
    paths.map_values(|p: FilePath| p@)
}

impl View for LaneRunState {
    type V = RunStateView;

    open spec fn view(&self) -> RunStateView {
        RunStateView {
            exit_code: self.exit_code,
            worker_error: text::opt_text(self.worker_error),
            stdout: self.stdout@,
            stderr: self.stderr@,
            changed_paths: path_labels(self.changed_paths@),
        }
    }
}

impl LaneTextPreview {
    /// A copy of the preview.
    pub fn copy(&self) -> (r: Self)
        ensures
            r@ == self@,
    {
        LaneTextPreview { text: self.text.clone(), truncated: self.truncated }
    }
}

/// A copy of an optional text.
pub fn copy_opt_text(text: &Option<String>) -> (r: Option<String>)
    ensures
        text::opt_text(r) == text::opt_text(*text),
{
    match text {
        Some(text) => Some(text.clone()),
        None => None,
    }
}

impl LaneRunState {
    /// A copy of the state.
    pub fn copy(&self) -> (r: Self)
        ensures
            r@ == self@,
    {
        LaneRunState {
            exit_code: self.exit_code,
            worker_error: copy_opt_text(&self.worker_error),
            stdout: self.stdout.copy(),
            stderr: self.stderr.copy(),
            changed_paths: copy_paths(&self.changed_paths),
        }
    }

    /// The state that a finished command leaves: its outputs are kept as previews.
    pub fn new(
        exit_code: Option<i32>,
        worker_error: Option<String>,
        stdout: &str,
        stderr: &str,
        changed_paths: Vec<FilePath>,
    ) -> (r: Self)
        ensures
            r@ == (RunStateView {
                exit_code,
                worker_error: text::opt_text(worker_error),
                stdout: text_preview(stdout@),
                stderr: text_preview(stderr@),
                changed_paths: path_labels(changed_paths@),
            }),
    {
        LaneRunState {
            exit_code,
            worker_error,
            stdout: LaneTextPreview::from_text(stdout),
            stderr: LaneTextPreview::from_text(stderr),
            changed_paths,
        }
    }
}

/// What an operation does to the base file.
#[derive(Clone, Copy, Debug, PartialEq, Eq, Structural)]
pub enum LaneOpKind {
    Create,
    Insert,
    Delete,
    Replace,
}

/// An operation of a lane as it is listed.
#[derive(Clone, Debug, PartialEq, Eq)]
pub struct LaneOpSummary {
    pub op_id: String,
    pub lane: String,
    pub path: String,
    pub kind: LaneOpKind,
    pub base_start: u64,
    pub base_end: u64,
    pub inserted_len: u64,
    pub order_key: String,
    pub conflicts_with: Vec<String>,
}

/// A [`LaneOpSummary`] with its texts as character sequences.
pub struct OpSummaryView {
    pub op_id: Seq<char>,
    pub lane: Seq<char>,
    pub path: Seq<char>,
    pub kind: LaneOpKind,
    pub base_start: int,
    pub base_end: int,
    pub inserted_len: int,
    pub order_key: Seq<char>,
    pub conflicts_with: Seq<Seq<char>>,
}

impl View for LaneOpSummary {
    type V = OpSummaryView;

    open spec fn view(&self) -> OpSummaryView {
        OpSummaryView {
            op_id: self.op_id@,
            lane: self.lane@,
            path: self.path@,
            kind: self.kind,
            base_start: self.base_start as int,
            base_end: self.base_end as int,
            inserted_len: self.inserted_len as int,
            order_key: self.order_key@,
            conflicts_with: text::texts(self.conflicts_with@),
        }
    }
}

/// The views of a list of summaries.
pub open spec fn summary_views(list: Seq<LaneOpSummary>) -> Seq<OpSummaryView> {
    list.map_values(|s: LaneOpSummary| s@)
}

impl LaneOpSummary {
    /// A copy of the summary.
    pub fn copy(&self) -> (r: Self)
        ensures
            r@ == self@,
    {
        LaneOpSummary {
            op_id: self.op_id.clone(),
            lane: self.lane.clone(),
            path: self.path.clone(),
            kind: self.kind,
            base_start: self.base_start,
            base_end: self.base_end,
            inserted_len: self.inserted_len,
            order_key: self.order_key.clone(),
            conflicts_with: copy_texts(&self.conflicts_with),
        }
    }
}

/// An operation with the base bytes it replaces and the bytes it inserts.
#[derive(Clone, Debug, PartialEq, Eq)]
pub struct LaneOpDetail {
    pub summary: LaneOpSummary,
    pub base: Vec<u8>,
    pub inserted: Vec<u8>,
}

/// A [`LaneOpDetail`] as a mathematical value.
pub struct OpDetailView {
    pub summary: OpSummaryView,
    pub base: Seq<u8>,
    pub inserted: Seq<u8>,
}

impl View for LaneOpDetail {
    type V = OpDetailView;

    open spec fn view(&self) -> OpDetailView {
        OpDetailView { summary: self.summary@, base: self.base@, inserted: self.inserted@ }
    }
}

/// A stored operation.
#[derive(Clone, Debug, PartialEq, Eq)]
pub struct FileOpStorageSnapshot {
    pub id: u64,
    pub base_start: u64,
    pub base_len: u64,
    pub order_key: String,
    pub inserted: Vec<u8>,
}

/// What a lane stores for one path.
#[derive(Clone, Debug, PartialEq, Eq)]
pub enum LaneEntryStorageSnapshot {
    Present(Vec<FileOpStorageSnapshot>),
    Deleted,
}

/// The base file that the stored overlays of a path rest on.
#[derive(Clone, Debug, PartialEq, Eq)]
pub enum BaseStorageSnapshot {
    Present(BaseFingerprint),
    Missing,
}

/// The stored overlays of one path.
#[derive(Clone, Debug, PartialEq, Eq)]
pub struct LaneFileStorageSnapshot {
    pub base: BaseStorageSnapshot,
    pub lanes: TextMap<LaneEntryStorageSnapshot>,
}

/// The stored state of a repo.
#[derive(Clone, Debug, PartialEq, Eq)]
pub struct LaneRepoStorageSnapshot {
    pub lanes: TextMap<()>,
    pub last_exec: TextMap<LaneRunState>,
    pub files: TextMap<LaneFileStorageSnapshot>,
}

} // verus!
