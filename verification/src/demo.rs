//! The demo server: one file of the project and what lanes make of it.
use vstd::prelude::*;
use vstd::string::*;

use crate::bytes::{append_range, bytes_eq};
use crate::laws;
use crate::os_path;
use crate::os_path::{is_absolute, is_anchored, parts_of_path, path_of_parts, strip_directory};
use crate::projection;
use crate::projection::SourceProjection;
use crate::repo;
use crate::repo::{LaneRepo, Repo};
use crate::text;
use crate::text::{cat, replace_char, text_eq, trim};
use crate::text_map;
use crate::types;
use crate::types::{is_lane_state_path, kept_parts, LaneError, LaneErrorView};
use crate::utf8_text;
use crate::utf8_text::lossy_text;
use crate::virtual_exec::nodes;
use crate::virtual_exec::nodes::label_of_name;
use crate::whole_lane;

verus! {

/// The file that the demo shows.
pub const DEMO_PATH: &'static str = "demo/example.ts";

/// Where the demo keeps the state of its lanes.
pub const STORAGE_PATH: &'static str = ".lane/repo.lane";

/// Where a demo of a single file keeps it.
pub const BACKING_PATH: &'static str = "demo/example.lane";

/// What the demo file holds at first.
pub const SAMPLE_TEXT: &'static str =
    "export const mode = 'base';\n\nexport function describeLane() {\n  return `current mode: ${mode}`;\n}\n";

/// The bytes of the demo file at first.
pub open spec fn sample_bytes() -> Seq<u8> {
    vstd::utf8::encode_utf8(SAMPLE_TEXT@)
}

/// The bytes of the demo file at first.
pub fn sample_base() -> (r: &'static [u8])
    ensures
        r@ == sample_bytes(),
{
    SAMPLE_TEXT.as_bytes()
}

// Paths.

/// A path below a directory.
pub open spec fn path_below(root: Seq<char>, path: Seq<char>) -> Seq<char> {
    if root.len() == 0 || text::ends_with(root, "/"@) {
        root + path
    } else {
        root + "/"@ + path
    }
}

/// A path below a directory.
pub fn join_path(root: &str, path: &str) -> (r: String)
    ensures
        r@ == path_below(root@, path@),
{
    if root.is_empty() || text::text_ends_with(root, "/") {
        root.to_owned().concat(path)
    } else {
        root.to_owned().concat("/").concat(path)
    }
}

/// Where the file of a single-file demo is kept.
pub fn storage_path(root: &str) -> (r: String)
    ensures
        r@ == path_below(root@, BACKING_PATH@),
{
    join_path(root, BACKING_PATH)
}

/// A stored path as it is shown: relative to the project, with slashes.
pub open spec fn shown_path(root: Seq<char>, path: Seq<char>, windows: bool) -> Seq<char> {
    match os_path::after_directory(path, root, windows) {
        Some(rest) => nodes::view_label(rest),
        None => nodes::view_label(path),
    }
}

/// A stored path as it is shown: relative to the project, with slashes.
pub fn storage_label(root: &str, path: &str, windows: bool) -> (r: String)
    ensures
        r@ == shown_path(root@, path@, windows),
{
    match strip_directory(path, root, windows) {
        Some(rest) => label_of_name(rest.as_str()),
        None => label_of_name(path),
    }
}

// Errors.

/// How a request fails.
#[derive(Clone, Copy, Debug, PartialEq, Eq, Structural)]
pub enum ApiStatus {
    BadRequest,
    Conflict,
    ServerError,
}

impl ApiStatus {
    /// The number of the status.
    pub fn code(&self) -> (r: u16)
        ensures
            r == match self {
                ApiStatus::BadRequest => 400u16,
                ApiStatus::Conflict => 409u16,
                ApiStatus::ServerError => 500u16,
            },
    {
        match self {
            ApiStatus::BadRequest => 400,
            ApiStatus::Conflict => 409,
            ApiStatus::ServerError => 500,
        }
    }
}

/// Why a request failed.
#[derive(Clone, Debug, PartialEq, Eq)]
pub struct ApiError {
    pub status: ApiStatus,
    pub message: String,
}

/// An [`ApiError`] as a mathematical value.
pub struct ApiErrorView {
    pub status: ApiStatus,
    pub message: Seq<char>,
}

impl View for ApiError {
    type V = ApiErrorView;

    open spec fn view(&self) -> ApiErrorView {
        ApiErrorView { status: self.status, message: self.message@ }
    }
}

/// A request that asks for what there is not.
pub open spec fn bad_request(message: Seq<char>) -> ApiErrorView {
    ApiErrorView { status: ApiStatus::BadRequest, message }
}

/// A request that the server cannot carry out.
pub open spec fn server_error(message: Seq<char>) -> ApiErrorView {
    ApiErrorView { status: ApiStatus::ServerError, message }
}

impl ApiError {
    /// A request that asks for what there is not.
    pub fn bad_request(message: String) -> (r: Self)
        ensures
            r@ == bad_request(message@),
    {
        ApiError { status: ApiStatus::BadRequest, message }
    }

    /// A request that the state of the project stands against.
    pub fn conflict(message: String) -> (r: Self)
        ensures
            r@ == (ApiErrorView { status: ApiStatus::Conflict, message: message@ }),
    {
        ApiError { status: ApiStatus::Conflict, message }
    }

    /// A request that the server cannot carry out.
    pub fn server_error(message: String) -> (r: Self)
        ensures
            r@ == server_error(message@),
    {
        ApiError { status: ApiStatus::ServerError, message }
    }
}

/// The status for an error of a lane.
pub open spec fn lane_status(error: LaneErrorView) -> ApiStatus {
    match error {
        LaneErrorView::InvalidPath(_) => ApiStatus::BadRequest,
        LaneErrorView::InvalidLane(_) => ApiStatus::BadRequest,
        LaneErrorView::ReservedLane(_) => ApiStatus::BadRequest,
        LaneErrorView::LaneMissing(_) => ApiStatus::BadRequest,
        LaneErrorView::OperationOutOfBounds(_) => ApiStatus::BadRequest,
        LaneErrorView::BaseChanged(_) => ApiStatus::Conflict,
        _ => ApiStatus::ServerError,
    }
}

/// The answer to a request that a lane refuses.
pub open spec fn lane_fault(error: LaneErrorView) -> ApiErrorView {
    ApiErrorView { status: lane_status(error), message: types::lane_error_debug(error) }
}

/// The answer to a request that a lane refuses.
pub fn api_error_for_lane(error: &LaneError) -> (r: ApiError)
    ensures
        r@ == lane_fault(error@),
{
    let message = error.debug_label();
    match error {
        LaneError::InvalidPath(_) => ApiError::bad_request(message),
        LaneError::InvalidLane(_) => ApiError::bad_request(message),
        LaneError::ReservedLane(_) => ApiError::bad_request(message),
        LaneError::LaneMissing(_) => ApiError::bad_request(message),
        LaneError::OperationOutOfBounds { .. } => ApiError::bad_request(message),
        LaneError::BaseChanged { .. } => ApiError::conflict(message),
        _ => ApiError::server_error(message),
    }
}

/// Why a text is not taken as the name of a lane.
pub open spec fn lane_id_fault(lane: Seq<char>) -> Option<ApiErrorView> {
    if text::trim_text(lane).len() == 0 || lane == "base"@ {
        Some(bad_request(text::flat(seq!["reserved lane id: "@, lane])))
    } else {
        None
    }
}

/// The view of a check.
pub open spec fn api_fault(r: Result<(), ApiError>) -> Option<ApiErrorView> {
    match r {
        Ok(()) => None,
        Err(error) => Some(error@),
    }
}

/// Accepts what may name a lane.
pub fn ensure_lane_id(lane: &str) -> (r: Result<(), ApiError>)
    ensures
        api_fault(r) == lane_id_fault(lane@),
{
    if trim(lane).as_str().is_empty() || text_eq(lane, "base") {
        let parts: Vec<&str> = vec!["reserved lane id: ", lane];
        assert(text::strs(parts@) =~= seq!["reserved lane id: "@, lane@]);
        Err(ApiError::bad_request(cat(parts)))
    } else {
        Ok(())
    }
}

/// The components of a requested path that name something, one after the other.
pub open spec fn requested_label(raw: Seq<char>, windows: bool) -> Seq<char> {
    text::with_char_replaced(
        os_path::pushed_all(
            os_path::path_parts(raw, windows).filter(|part: Seq<char>| types::naming_part(part)),
            windows,
        ),
        '\\',
        '/',
    )
}

/// The path in the repo that a request names, or why it names none.
pub open spec fn requested_path(raw: Seq<char>, windows: bool) -> Result<Seq<char>, ApiErrorView> {
    if text::trim_text(raw).len() == 0 {
        Err(bad_request("missing path"@))
    } else if os_path::absolute(raw, windows) {
        Err(bad_request("path must be repo-relative"@))
    } else if os_path::anchored(raw, windows) || os_path::path_parts(raw, windows).contains(".."@) {
        Err(bad_request("path must stay inside the repo"@))
    } else if requested_label(raw, windows).len() == 0 {
        Err(bad_request("missing path"@))
    } else if types::rooted_at(requested_label(raw, windows), ".lane"@) {
        Err(bad_request("cannot project lane state files"@))
    } else {
        Ok(requested_label(raw, windows))
    }
}

/// The view of a result that carries a text or an answer.
pub open spec fn path_result(r: Result<String, ApiError>) -> Result<Seq<char>, ApiErrorView> {
    match r {
        Ok(path) => Ok(path@),
        Err(error) => Err(error@),
    }
}

/// The path in the repo that a request names.
pub fn normalize_repo_path(raw: &str, windows: bool) -> (r: Result<String, ApiError>)
    ensures
        path_result(r) == requested_path(raw@, windows),
{
    if trim(raw).as_str().is_empty() {
        return Err(ApiError::bad_request("missing path".to_owned()));
    }
    if is_absolute(raw, windows) {
        return Err(ApiError::bad_request("path must be repo-relative".to_owned()));
    }
    let parts = parts_of_path(raw, windows);
    if is_anchored(raw, windows) || text::contains_text(&parts, "..") {
        return Err(ApiError::bad_request("path must stay inside the repo".to_owned()));
    }
    let label = replace_char(path_of_parts(&kept_parts(&parts), windows).as_str(), '\\', '/');
    if label.as_str().is_empty() {
        return Err(ApiError::bad_request("missing path".to_owned()));
    }
    if is_lane_state_path(label.as_str()) {
        return Err(ApiError::bad_request("cannot project lane state files".to_owned()));
    }
    Ok(label)
}

// What a lane does to a file that is there.

/// Bytes with a stretch of them replaced.
pub open spec fn spliced(bytes: Seq<u8>, start: int, end: int, replacement: Seq<u8>) -> Seq<u8> {
    bytes.subrange(0, start) + replacement + bytes.subrange(end, bytes.len() as int)
}

/// Bytes with a stretch of them replaced.
pub fn splice(bytes: &[u8], start: usize, end: usize, replacement: &[u8]) -> (r: Vec<u8>)
    requires
        start <= end <= bytes@.len(),
    ensures
        r@ == spliced(bytes@, start as int, end as int, replacement@),
{
    let mut r: Vec<u8> = Vec::new();
    append_range(&mut r, bytes, 0, start);
    append_range(&mut r, replacement, 0, replacement.len());
    append_range(&mut r, bytes, end, bytes.len());
    assert(replacement@.subrange(0, replacement@.len() as int) =~= replacement@);
    assert(r@ =~= spliced(bytes@, start as int, end as int, replacement@));
    r
}

/// What a lane sees of a file that is there.
pub open spec fn file_seen(repo: Repo, path: Seq<char>, lane: Seq<char>, base: Seq<u8>) -> Result<
    Seq<u8>,
    LaneErrorView,
> {
    match repo::repo_read(repo, path, lane, Some(base)) {
        Err(error) => Err(error),
        Ok(Some(bytes)) => Ok(bytes),
        Ok(None) => Err(LaneErrorView::BaseMissing(path)),
    }
}

/// The view of a result that carries bytes.
pub open spec fn seen_result(r: Result<Vec<u8>, LaneError>) -> Result<Seq<u8>, LaneErrorView> {
    match r {
        Ok(bytes) => Ok(bytes@),
        Err(error) => Err(error@),
    }
}

/// What a lane sees of a file that is there.
pub fn read(repo: &LaneRepo, path: &str, lane: &str, base: &[u8]) -> (r: Result<Vec<u8>, LaneError>)
    requires
        repo.wf(),
    ensures
        seen_result(r) == file_seen(repo@, path@, lane@, base@),
{
    match repo.read_path(path, lane, Some(base)) {
        Err(error) => Err(error),
        Ok(Some(bytes)) => Ok(bytes),
        Ok(None) => Err(LaneError::BaseMissing { path: path.to_owned() }),
    }
}

/// The repo after a lane has replaced a stretch of what it sees, or why it cannot.
pub open spec fn range_written(
    repo: Repo,
    path: Seq<char>,
    lane: Seq<char>,
    base: Seq<u8>,
    start: int,
    end: int,
    replacement: Seq<u8>,
) -> Result<Repo, LaneErrorView> {
    match file_seen(repo, path, lane, base) {
        Err(error) => Err(error),
        Ok(bytes) => if start > end || end > bytes.len() {
            Err(LaneErrorView::OperationOutOfBounds(path))
        } else {
            repo::repo_replace(
                repo,
                path,
                lane,
                Some(base),
                Some(spliced(bytes, start, end, replacement)),
            )
        },
    }
}

/// The view of a change to a repo.
pub open spec fn change_result(r: Result<(), LaneError>, repo: Repo) -> Result<Repo, LaneErrorView> {
    match r {
        Ok(()) => Ok(repo),
        Err(error) => Err(error@),
    }
}

/// Replaces a stretch of what a lane sees.
pub fn write(
    repo: &mut LaneRepo,
    path: &str,
    lane: &str,
    base: &[u8],
    start: u64,
    end: u64,
    replacement: &[u8],
) -> (r: Result<(), LaneError>)
    requires
        old(repo).wf(),
    ensures
        final(repo).wf(),
        change_result(r, final(repo)@) == range_written(
            old(repo)@,
            path@,
            lane@,
            base@,
            start as int,
            end as int,
            replacement@,
        ),
        r is Err ==> final(repo)@ == old(repo)@,
        r is Ok ==> file_seen(final(repo)@, path@, lane@, base@) == Ok::<Seq<u8>, LaneErrorView>(
            spliced(
                file_seen(old(repo)@, path@, lane@, base@)->Ok_0,
                start as int,
                end as int,
                replacement@,
            ),
        ),
{
    let bytes = match read(repo, path, lane, base) {
        Err(error) => {
            return Err(error);
        },
        Ok(bytes) => bytes,
    };
    let len: usize = bytes.len();
    if start > end || end > len as u64 {
        return Err(LaneError::OperationOutOfBounds { path: path.to_owned() });
    }
    let content = splice(bytes.as_slice(), start as usize, end as usize, replacement);
    repo.replace_path(path, lane, Some(base), Some(content))
}

/// The outcome of promoting what a lane made of a file that is there.
pub open spec fn file_promoted(repo: Repo, path: Seq<char>, lane: Seq<char>, base: Seq<u8>) -> Result<
    (Seq<u8>, Repo),
    LaneErrorView,
> {
    match whole_lane::path_promoted(repo, path, lane, Some(base)) {
        Err(error) => Err(error),
        Ok((Some(bytes), after)) => Ok((bytes, after)),
        Ok((None, _)) => Err(LaneErrorView::BaseMissing(path)),
    }
}

// The lanes of the demo at first.

/// The repo that the demo starts from: two lanes, and where the file is the sample an edit in each.
pub open spec fn seeded(base: Seq<u8>) -> Repo {
    let lanes = Repo {
        lanes: Set::empty().insert("agent-a"@).insert("agent-b"@),
        runs: Map::empty(),
        files: Map::empty(),
    };
    if base == sample_bytes() {
        let fast = range_written(
            lanes,
            DEMO_PATH@,
            "agent-a"@,
            base,
            21,
            25,
            vstd::utf8::encode_utf8("fast"@),
        );
        range_written(
            fast->Ok_0,
            DEMO_PATH@,
            "agent-b"@,
            base,
            21,
            25,
            vstd::utf8::encode_utf8("safe"@),
        )->Ok_0
    } else {
        lanes
    }
}

proof fn lemma_seed_lanes()
    ensures
        types::user_lane("agent-a"@),
        types::user_lane("agent-b"@),
        "agent-a"@ != "agent-b"@,
        "agent-a"@ != "base"@,
        "agent-b"@ != "base"@,
{
    reveal_strlit("agent-a");
    reveal_strlit("agent-b");
    reveal_strlit("base");
    assert("agent-a"@[6] != "agent-b"@[6]);
}

proof fn lemma_sample_len()
    ensures
        sample_bytes().len() >= 25,
{
    reveal_strlit(
        "export const mode = 'base';\n\nexport function describeLane() {\n  return `current mode: ${mode}`;\n}\n",
    );
    assert(vstd::string::is_ascii(SAMPLE_TEXT));
    vstd::utf8::is_ascii_chars_encode_utf8(SAMPLE_TEXT@);
}

/// The repo that the demo starts from.
pub fn seed_repo(base: &[u8]) -> (r: LaneRepo)
    ensures
        r.wf(),
        r@ == seeded(base@),
        r@.lanes == Set::empty().insert("agent-a"@).insert("agent-b"@),
        base@ == sample_bytes() ==> {
            &&& file_seen(r@, DEMO_PATH@, "agent-a"@, base@) == Ok::<Seq<u8>, LaneErrorView>(
                spliced(base@, 21, 25, vstd::utf8::encode_utf8("fast"@)),
            )
            &&& file_seen(r@, DEMO_PATH@, "agent-b"@, base@) == Ok::<Seq<u8>, LaneErrorView>(
                spliced(base@, 21, 25, vstd::utf8::encode_utf8("safe"@)),
            )
        },
{
    let mut repo = LaneRepo::new();
    proof {
        lemma_seed_lanes();
    }
    let _ = repo.create_lane("agent-a");
    let _ = repo.create_lane("agent-b");
    let ghost lanes = repo@;
    assert(lanes.lanes =~= Set::empty().insert("agent-a"@).insert("agent-b"@));
    if bytes_eq(base, sample_base()) {
        proof {
            lemma_sample_len();
        }
        let fast = write(&mut repo, DEMO_PATH, "agent-a", base, 21, 25, "fast".as_bytes());
        let ghost first = repo@;
        proof {
            repo.lemma_wf();
        }
        assert(fast is Ok);
        assert(file_seen(first, DEMO_PATH@, "agent-b"@, base@) == Ok::<Seq<u8>, LaneErrorView>(base@));
        let safe = write(&mut repo, DEMO_PATH, "agent-b", base, 21, 25, "safe".as_bytes());
        assert(safe is Ok);
        proof {
            laws::law_lanes_are_isolated(
                first,
                DEMO_PATH@,
                "agent-b"@,
                Some(base@),
                Some(spliced(base@, 21, 25, vstd::utf8::encode_utf8("safe"@))),
                DEMO_PATH@,
                "agent-a"@,
                Some(base@),
            );
        }
    }
    repo
}

// The state of the server.

/// What the server holds.
#[derive(Debug, PartialEq, Eq)]
pub struct AppState {
    pub repo: LaneRepo,
    pub root_path: String,
    pub storage_path: String,
    pub storage_label: String,
    pub file_path: String,
}

/// A view of the file as it is shown.
#[derive(Clone, Debug, PartialEq, Eq)]
pub struct ViewResponse {
    pub id: String,
    pub content: String,
    pub byte_len: usize,
}

/// A [`ViewResponse`] as a mathematical value.
pub struct ShownView {
    pub id: Seq<char>,
    pub content: Seq<char>,
    pub byte_len: nat,
}

impl View for ViewResponse {
    type V = ShownView;

    open spec fn view(&self) -> ShownView {
        ShownView { id: self.id@, content: self.content@, byte_len: self.byte_len as nat }
    }
}

/// Bytes as they are shown.
pub open spec fn rendered_view(id: Seq<char>, bytes: Seq<u8>) -> ShownView {
    ShownView { id, content: utf8_text::lossy(bytes), byte_len: bytes.len() }
}

/// Bytes as they are shown.
pub fn render_view(id: &str, bytes: &[u8]) -> (r: ViewResponse)
    ensures
        r@ == rendered_view(id@, bytes@),
        vstd::utf8::valid_utf8(bytes@) ==> r.content@ == vstd::utf8::decode_utf8(bytes@),
{
    ViewResponse { id: id.to_owned(), content: lossy_text(bytes), byte_len: bytes.len() }
}

/// The view of a list of shown views.
pub open spec fn shown_views(list: Seq<ViewResponse>) -> Seq<ShownView> {
    Seq::new(list.len(), |i: int| list[i]@)
}

/// The file as the base and as each lane sees it.
#[derive(Clone, Debug, PartialEq, Eq)]
pub struct StateResponse {
    pub file_path: String,
    pub storage_path: String,
    pub base: ViewResponse,
    pub lanes: Vec<ViewResponse>,
}

/// A [`StateResponse`] as a mathematical value.
pub struct ShownState {
    pub file_path: Seq<char>,
    pub storage_path: Seq<char>,
    pub base: ShownView,
    pub lanes: Seq<ShownView>,
}

impl View for StateResponse {
    type V = ShownState;

    open spec fn view(&self) -> ShownState {
        ShownState {
            file_path: self.file_path@,
            storage_path: self.storage_path@,
            base: self.base@,
            lanes: shown_views(self.lanes@),
        }
    }
}

/// The file as some lanes see it.
pub open spec fn lanes_shown(repo: Repo, path: Seq<char>, base: Seq<u8>, lanes: Seq<Seq<char>>) -> Result<
    Seq<ShownView>,
    ApiErrorView,
>
    decreases lanes.len(),
{
    if lanes.len() == 0 {
        Ok(Seq::empty())
    } else {
        match lanes_shown(repo, path, base, lanes.drop_last()) {
            Err(error) => Err(error),
            Ok(views) => match file_seen(repo, path, lanes.last(), base) {
                Err(error) => Err(lane_fault(error)),
                Ok(bytes) => Ok(views.push(rendered_view(lanes.last(), bytes))),
            },
        }
    }
}

proof fn lemma_shown_error(
    repo: Repo,
    path: Seq<char>,
    base: Seq<u8>,
    lanes: Seq<Seq<char>>,
    n: int,
)
    requires
        0 <= n <= lanes.len(),
        lanes_shown(repo, path, base, lanes.subrange(0, n)) is Err,
    ensures
        lanes_shown(repo, path, base, lanes) == lanes_shown(repo, path, base, lanes.subrange(0, n)),
    decreases lanes.len() - n,
{
    if n == lanes.len() {
        assert(lanes.subrange(0, n) =~= lanes);
    } else {
        assert(lanes.subrange(0, n + 1).drop_last() =~= lanes.subrange(0, n));
        lemma_shown_error(repo, path, base, lanes, n + 1);
    }
}

/// The repo after a change that a lane asked for, or the answer to it.
pub open spec fn drafted(lane: Seq<char>, change: Result<Repo, LaneErrorView>) -> Result<
    Repo,
    ApiErrorView,
> {
    match lane_id_fault(lane) {
        Some(fault) => Err(fault),
        None => match change {
            Err(error) => Err(lane_fault(error)),
            Ok(repo) => Ok(repo),
        },
    }
}

/// The view of a draft.
pub open spec fn draft_result(r: Result<LaneRepo, ApiError>) -> Result<Repo, ApiErrorView> {
    match r {
        Ok(repo) => Ok(repo@),
        Err(error) => Err(error@),
    }
}

fn drafted_repo(draft: LaneRepo, outcome: Result<(), LaneError>) -> (r: Result<LaneRepo, ApiError>)
    requires
        draft.wf(),
    ensures
        r is Ok ==> r->Ok_0.wf(),
        draft_result(r) == match change_result(outcome, draft@) {
            Err(error) => Err::<Repo, ApiErrorView>(lane_fault(error)),
            Ok(repo) => Ok(repo),
        },
{
    match outcome {
        Err(error) => Err(api_error_for_lane(&error)),
        Ok(()) => Ok(draft),
    }
}

/// The repo with a lane.
pub open spec fn with_lane(repo: Repo, lane: Seq<char>) -> Result<Repo, LaneErrorView> {
    match types::parsed_lane(lane) {
        Err(error) => Err(error),
        Ok(_) => Ok(Repo { lanes: repo.lanes.insert(lane), ..repo }),
    }
}

/// What came of writing something down.
pub open spec fn persist_fault(what: Seq<char>, r: Result<(), String>) -> Option<ApiErrorView> {
    match r {
        Ok(()) => None,
        Err(error) => Some(server_error(text::flat(seq![what, error@]))),
    }
}

/// What came of writing the lanes down and then the file. Where only the file failed, the lanes
/// are written back, which may fail too.
pub open spec fn promotion_fault(
    repo_kept: Result<(), String>,
    file_kept: Result<(), String>,
    rolled_back: Result<(), String>,
) -> Option<ApiErrorView> {
    match repo_kept {
        Err(error) => Some(server_error(text::flat(seq!["persist lane repo: "@, error@]))),
        Ok(()) => match file_kept {
            Ok(()) => None,
            Err(error) => match rolled_back {
                Ok(()) => Some(server_error(text::flat(seq!["persist source file: "@, error@]))),
                Err(rollback) => Some(
                    server_error(
                        text::flat(
                            seq![
                                "persist source file: "@,
                                error@,
                                "; rollback lane repo: "@,
                                rollback@,
                            ],
                        ),
                    ),
                ),
            },
        },
    }
}

fn failed(what: &str, error: &str) -> (r: ApiError)
    ensures
        r@ == server_error(text::flat(seq![what@, error@])),
{
    let parts: Vec<&str> = vec![what, error];
    assert(text::strs(parts@) =~= seq![what@, error@]);
    ApiError::server_error(cat(parts))
}

impl AppState {
    /// A server for the project below a root, with lanes that were stored or seeded.
    pub fn new(root_path: &str, repo: LaneRepo) -> (r: Self)
        ensures
            r.repo == repo,
            r.root_path@ == root_path@,
            r.storage_path@ == path_below(root_path@, STORAGE_PATH@),
            r.storage_label@ == STORAGE_PATH@,
            r.file_path@ == DEMO_PATH@,
    {
        AppState {
            repo,
            root_path: root_path.to_owned(),
            storage_path: join_path(root_path, STORAGE_PATH),
            storage_label: STORAGE_PATH.to_owned(),
            file_path: DEMO_PATH.to_owned(),
        }
    }

    /// The file as the base and as each lane sees it, in order.
    pub fn snapshot(&self, base: &[u8]) -> (r: Result<StateResponse, ApiError>)
        requires
            self.repo.wf(),
        ensures
            (match r {
                Ok(state) => Ok(state@),
                Err(error) => Err(error@),
            }) == match lanes_shown(
                self.repo@,
                self.file_path@,
                base@,
                text_map::listing(self.repo@.lanes),
            ) {
                Err(error) => Err::<ShownState, ApiErrorView>(error),
                Ok(lanes) => Ok(
                    ShownState {
                        file_path: self.file_path@,
                        storage_path: self.storage_label@,
                        base: rendered_view("base"@, base@),
                        lanes,
                    },
                ),
            },
    {
        let ids = self.repo.lane_ids();
        let ghost all = text::strs(ids@);
        let mut lanes: Vec<ViewResponse> = Vec::new();
        let mut i: usize = 0;
        proof {
            assert(all.subrange(0, 0) =~= Seq::empty());
            assert(shown_views(lanes@) =~= Seq::empty());
        }
        while i < ids.len()
            invariant
                i <= ids@.len(),
                self.repo.wf(),
                all == text::strs(ids@),
                all == text_map::listing(self.repo@.lanes),
                lanes_shown(self.repo@, self.file_path@, base@, all.subrange(0, i as int)) == Ok::<
                    Seq<ShownView>,
                    ApiErrorView,
                >(shown_views(lanes@)),
            decreases ids@.len() - i,
        {
            let lane: &str = ids[i];
            proof {
                assert(all.subrange(0, i + 1).drop_last() =~= all.subrange(0, i as int));
                assert(all.subrange(0, i + 1).last() == lane@);
            }
            match read(&self.repo, self.file_path.as_str(), lane, base) {
                Err(error) => {
                    proof {
                        lemma_shown_error(self.repo@, self.file_path@, base@, all, i + 1);
                    }
                    return Err(api_error_for_lane(&error));
                },
                Ok(bytes) => {
                    let ghost before = shown_views(lanes@);
                    let view = render_view(lane, bytes.as_slice());
                    let ghost shown = view@;
                    lanes.push(view);
                    assert(shown_views(lanes@) =~= before.push(shown));
                },
            }
            i = i + 1;
        }
        assert(all.subrange(0, i as int) =~= all);
        Ok(
            StateResponse {
                file_path: self.file_path.clone(),
                storage_path: self.storage_label.clone(),
                base: render_view("base", base),
                lanes,
            },
        )
    }

    /// What the worktree would hold at a path for a lane.
    pub fn read_projection(
        &self,
        path: &str,
        lane: &str,
        source: &SourceProjection,
        windows: bool,
    ) -> (r: Result<Vec<u8>, ApiError>)
        requires
            self.repo.wf(),
        ensures
            (match r {
                Ok(bytes) => Ok(bytes@),
                Err(error) => Err(error@),
            }) == match requested_path(path@, windows) {
                Err(error) => Err::<Seq<u8>, ApiErrorView>(error),
                Ok(label) => match file_seen(self.repo@, label, lane@, source.content()) {
                    Err(error) => Err(lane_fault(error)),
                    Ok(bytes) => Ok(projection::materialized(source.mode(), bytes)),
                },
            },
    {
        match normalize_repo_path(path, windows) {
            Err(error) => Err(error),
            Ok(label) => match read(&self.repo, label.as_str(), lane, source.bytes()) {
                Err(error) => Err(api_error_for_lane(&error)),
                Ok(bytes) => Ok(source.materialize(bytes.as_slice())),
            },
        }
    }

    /// The lanes with one more.
    pub fn create_lane(&self, lane: &str) -> (r: Result<LaneRepo, ApiError>)
        requires
            self.repo.wf(),
        ensures
            r is Ok ==> r->Ok_0.wf(),
            draft_result(r) == drafted(lane@, with_lane(self.repo@, lane@)),
    {
        match ensure_lane_id(lane) {
            Err(error) => {
                return Err(error);
            },
            Ok(()) => {},
        }
        let mut draft = self.repo.copy();
        match draft.create_lane(lane) {
            Err(error) => Err(api_error_for_lane(&error)),
            Ok(_) => Ok(draft),
        }
    }

    /// The lanes after one has replaced a stretch of the file.
    pub fn write_range(
        &self,
        lane: &str,
        source: &SourceProjection,
        start: u64,
        end: u64,
        replacement: Vec<u8>,
    ) -> (r: Result<LaneRepo, ApiError>)
        requires
            self.repo.wf(),
        ensures
            r is Ok ==> r->Ok_0.wf(),
            draft_result(r) == drafted(
                lane@,
                range_written(
                    self.repo@,
                    self.file_path@,
                    lane@,
                    source.content(),
                    start as int,
                    end as int,
                    projection::projected(source.mode(), replacement@),
                ),
            ),
    {
        match ensure_lane_id(lane) {
            Err(error) => {
                return Err(error);
            },
            Ok(()) => {},
        }
        let bytes = source.project_edit(replacement);
        let mut draft = self.repo.copy();
        let outcome = write(
            &mut draft,
            self.file_path.as_str(),
            lane,
            source.bytes(),
            start,
            end,
            bytes.as_slice(),
        );
        drafted_repo(draft, outcome)
    }

    /// The lanes after one has been given the whole file.
    pub fn replace_lane(&self, lane: &str, source: &SourceProjection, content: Vec<u8>) -> (r: Result<
        LaneRepo,
        ApiError,
    >)
        requires
            self.repo.wf(),
        ensures
            r is Ok ==> r->Ok_0.wf(),
            draft_result(r) == drafted(
                lane@,
                repo::repo_replace(
                    self.repo@,
                    self.file_path@,
                    lane@,
                    Some(source.content()),
                    Some(projection::projected(source.mode(), content@)),
                ),
            ),
    {
        match ensure_lane_id(lane) {
            Err(error) => {
                return Err(error);
            },
            Ok(()) => {},
        }
        let bytes = source.project_edit(content);
        let mut draft = self.repo.copy();
        let outcome = draft.replace_path(
            self.file_path.as_str(),
            lane,
            Some(source.bytes()),
            Some(bytes),
        );
        drafted_repo(draft, outcome)
    }

    /// The lanes after one has taken a stretch out of the file.
    pub fn delete_range(&self, lane: &str, source: &SourceProjection, start: u64, end: u64) -> (r:
        Result<LaneRepo, ApiError>)
        requires
            self.repo.wf(),
        ensures
            r is Ok ==> r->Ok_0.wf(),
            draft_result(r) == drafted(
                lane@,
                range_written(
                    self.repo@,
                    self.file_path@,
                    lane@,
                    source.content(),
                    start as int,
                    end as int,
                    Seq::empty(),
                ),
            ),
    {
        match ensure_lane_id(lane) {
            Err(error) => {
                return Err(error);
            },
            Ok(()) => {},
        }
        let none: Vec<u8> = Vec::new();
        assert(none@ =~= Seq::empty());
        let mut draft = self.repo.copy();
        let outcome = write(
            &mut draft,
            self.file_path.as_str(),
            lane,
            source.bytes(),
            start,
            end,
            none.as_slice(),
        );
        drafted_repo(draft, outcome)
    }

    /// The lanes after the file of one has become the base, with what the worktree is to hold.
    pub fn promote_lane(&self, lane: &str, source: &SourceProjection) -> (r: Result<
        (LaneRepo, Vec<u8>),
        ApiError,
    >)
        requires
            self.repo.wf(),
        ensures
            r is Ok ==> r->Ok_0.0.wf(),
            (match r {
                Ok((repo, bytes)) => Ok((repo@, bytes@)),
                Err(error) => Err(error@),
            }) == match lane_id_fault(lane@) {
                Some(fault) => Err::<(Repo, Seq<u8>), ApiErrorView>(fault),
                None => match file_promoted(
                    self.repo@,
                    self.file_path@,
                    lane@,
                    source.content(),
                ) {
                    Err(error) => Err(lane_fault(error)),
                    Ok((bytes, after)) => Ok(
                        (after, projection::materialized(source.mode(), bytes)),
                    ),
                },
            },
    {
        match ensure_lane_id(lane) {
            Err(error) => {
                return Err(error);
            },
            Ok(()) => {},
        }
        let mut draft = self.repo.copy();
        match draft.promote_path(self.file_path.as_str(), lane, Some(source.bytes())) {
            Err(error) => Err(api_error_for_lane(&error)),
            Ok(None) => {
                let error = LaneError::BaseMissing { path: self.file_path.clone() };
                Err(api_error_for_lane(&error))
            },
            Ok(Some(bytes)) => Ok((draft, source.materialize(bytes.as_slice()))),
        }
    }

    /// The lanes without one.
    pub fn discard_lane(&self, lane: &str) -> (r: Result<LaneRepo, ApiError>)
        requires
            self.repo.wf(),
        ensures
            r is Ok ==> r->Ok_0.wf(),
            draft_result(r) == drafted(lane@, Ok(repo::repo_discard(self.repo@, lane@))),
    {
        match ensure_lane_id(lane) {
            Err(error) => {
                return Err(error);
            },
            Ok(()) => {},
        }
        let mut draft = self.repo.copy();
        let _ = draft.discard_lane(lane);
        Ok(draft)
    }

    /// Takes over a draft once it is written down. Where that failed nothing changes.
    pub fn commit(&mut self, draft: LaneRepo, kept: Result<(), String>) -> (r: Result<(), ApiError>)
        ensures
            api_fault(r) == persist_fault("persist lane repo: "@, kept),
            *final(self) == if kept is Ok {
                AppState { repo: draft, ..*old(self) }
            } else {
                *old(self)
            },
    {
        match kept {
            Err(error) => Err(failed("persist lane repo: ", error.as_str())),
            Ok(()) => {
                self.repo = draft;
                Ok(())
            },
        }
    }

    /// Takes over a draft once it and the file are written down. Where one of them failed nothing
    /// changes.
    pub fn commit_with_file(
        &mut self,
        draft: LaneRepo,
        repo_kept: Result<(), String>,
        file_kept: Result<(), String>,
        rolled_back: Result<(), String>,
    ) -> (r: Result<(), ApiError>)
        ensures
            api_fault(r) == promotion_fault(repo_kept, file_kept, rolled_back),
            *final(self) == if repo_kept is Ok && file_kept is Ok {
                AppState { repo: draft, ..*old(self) }
            } else {
                *old(self)
            },
    {
        match repo_kept {
            Err(error) => {
                return Err(failed("persist lane repo: ", error.as_str()));
            },
            Ok(()) => {},
        }
        match file_kept {
            Ok(()) => {
                self.repo = draft;
                Ok(())
            },
            Err(error) => match rolled_back {
                Ok(()) => Err(failed("persist source file: ", error.as_str())),
                Err(rollback) => {
                    let parts: Vec<&str> = vec![
                        "persist source file: ",
                        error.as_str(),
                        "; rollback lane repo: ",
                        rollback.as_str(),
                    ];
                    assert(text::strs(parts@) =~= seq![
                        "persist source file: "@,
                        error@,
                        "; rollback lane repo: "@,
                        rollback@,
                    ]);
                    Err(ApiError::server_error(cat(parts)))
                },
            },
        }
    }
}

} // verus!
