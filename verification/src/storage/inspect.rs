//! The report on stored lanes, and the removal of byte strings that nothing refers to.
use vstd::prelude::*;

use crate::lists::Copied;
use crate::sorting;
use crate::storage::doctor;
use crate::storage::doctor::{
    blob_inventory, collect_referenced_blobs, validate_referenced_blobs, BlobFile, BlobFileView,
    BlobInventory, BlobInventoryView, BlobRead, BlobReadView,
};
use crate::storage::rows::{StoredFileView, StoredOpView, StoredRepo, StoredRepoView};
use crate::text;
use crate::text::{append_texts, cat};
use crate::text_map;
use crate::text_map::TextMap;
use crate::types;
use crate::types::debug_quoted;

verus! {

// Evidence: how commands ended, and the records of runs.

/// A row of evidence with what is wrong with its JSON.
#[derive(Debug, PartialEq, Eq)]
pub struct EvidenceRow {
    pub name: String,
    pub fault: Option<String>,
}

/// An [`EvidenceRow`] as a mathematical value.
#[verifier::ext_equal]
pub struct EvidenceRowView {
    pub name: Seq<char>,
    pub fault: Option<Seq<char>>,
}

impl View for EvidenceRow {
    type V = EvidenceRowView;

    open spec fn view(&self) -> EvidenceRowView {
        EvidenceRowView { name: self.name@, fault: text::opt_text(self.fault) }
    }
}

/// A stored record of a run.
#[derive(Debug, PartialEq, Eq)]
pub struct RecordRow {
    pub name: String,
    pub json: String,
}

/// A [`RecordRow`] as a mathematical value.
#[verifier::ext_equal]
pub struct RecordRowView {
    pub name: Seq<char>,
    pub json: Seq<char>,
}

impl View for RecordRow {
    type V = RecordRowView;

    open spec fn view(&self) -> RecordRowView {
        RecordRowView { name: self.name@, json: self.json@ }
    }
}

/// `serde_json::from_str` on a text, read as any JSON value: the message of the error that it
/// gives, or `None` where it gives a value.
pub uninterp spec fn json_fault(text: Seq<char>) -> Option<Seq<char>>;

/// Calls `serde_json::from_str::<serde_json::Value>`; the message of the error that it gives is
/// named, and nothing more is claimed of it.
#[verifier::external_body]
fn json_error(text: &str) -> (r: Option<String>)
    ensures
        text::opt_text(r) == json_fault(text@),
{
    match serde_json::from_str::<serde_json::Value>(text) {
        Ok(_) => None,
        Err(error) => Some(error.to_string()),
    }
}

/// A record with what is wrong with its JSON.
pub open spec fn checked_record(row: RecordRowView) -> EvidenceRowView {
    EvidenceRowView { name: row.name, fault: json_fault(row.json) }
}

/// Checks the JSON of records.
pub fn check_records(rows: &Vec<RecordRow>) -> (r: Vec<EvidenceRow>)
    ensures
        sorting::views(r@) == sorting::views(rows@).map_values(
            |row: RecordRowView| checked_record(row),
        ),
{
    let mut out: Vec<EvidenceRow> = Vec::new();
    let mut i: usize = 0;
    while i < rows.len()
        invariant
            i <= rows@.len(),
            out@.len() == i,
            forall|k: int| 0 <= k < i ==> (#[trigger] out@[k])@ == checked_record(rows@[k]@),
        decreases rows@.len() - i,
    {
        let row = &rows[i];
        out.push(EvidenceRow { name: row.name.clone(), fault: json_error(row.json.as_str()) });
        i = i + 1;
    }
    assert(sorting::views(out@) =~= sorting::views(rows@).map_values(
        |row: RecordRowView| checked_record(row),
    ));
    out
}

/// The evidence rows, or why they cannot be read.
#[derive(Debug, PartialEq, Eq)]
pub enum Evidence {
    Unreadable(String),
    Rows(Vec<EvidenceRow>, Vec<EvidenceRow>),
}

/// An [`Evidence`] as a mathematical value.
pub enum EvidenceView {
    Unreadable(Seq<char>),
    Rows(Seq<EvidenceRowView>, Seq<EvidenceRowView>),
}

impl View for Evidence {
    type V = EvidenceView;

    open spec fn view(&self) -> EvidenceView {
        match self {
            Evidence::Unreadable(message) => EvidenceView::Unreadable(message@),
            Evidence::Rows(last_runs, records) => EvidenceView::Rows(
                sorting::views(last_runs@),
                sorting::views(records@),
            ),
        }
    }
}

/// The complaint about how the last command of a lane is said to have ended.
pub open spec fn last_run_complaint(lanes: Set<Seq<char>>, row: EvidenceRowView) -> Option<
    Seq<char>,
> {
    if !lanes.contains(row.name) {
        Some(
            text::flat(
                seq![
                    "last_run row for lane "@,
                    row.name,
                    " does not belong to a database lane"@,
                ],
            ),
        )
    } else {
        match row.fault {
            Some(fault) => Some(
                text::flat(seq!["last_run row for lane "@, row.name, " is invalid: "@, fault]),
            ),
            None => None,
        }
    }
}

/// The complaint about a record.
pub open spec fn record_complaint(row: EvidenceRowView) -> Option<Seq<char>> {
    match row.fault {
        Some(fault) => Some(
            text::flat(
                seq![
                    "run record row "@,
                    types::debug_text(row.name),
                    " is invalid: "@,
                    fault,
                ],
            ),
        ),
        None => None,
    }
}

/// A list with one more text, if there is one.
pub open spec fn with_text(list: Seq<Seq<char>>, more: Option<Seq<char>>) -> Seq<Seq<char>> {
    match more {
        Some(more) => list.push(more),
        None => list,
    }
}

/// The complaints about how the last commands of lanes are said to have ended.
pub open spec fn last_run_complaints(lanes: Set<Seq<char>>, list: Seq<EvidenceRowView>) -> Seq<
    Seq<char>,
>
    decreases list.len(),
{
    if list.len() == 0 {
        Seq::empty()
    } else {
        with_text(
            last_run_complaints(lanes, list.drop_last()),
            last_run_complaint(lanes, list.last()),
        )
    }
}

/// The complaints about records.
pub open spec fn record_complaints(list: Seq<EvidenceRowView>) -> Seq<Seq<char>>
    decreases list.len(),
{
    if list.len() == 0 {
        Seq::empty()
    } else {
        with_text(record_complaints(list.drop_last()), record_complaint(list.last()))
    }
}

/// The complaints about evidence.
pub open spec fn evidence_complaints(lanes: Set<Seq<char>>, evidence: EvidenceView) -> Seq<
    Seq<char>,
> {
    match evidence {
        EvidenceView::Unreadable(message) => seq![
            text::flat(seq!["evidence rows are unreadable: "@, message]),
        ],
        EvidenceView::Rows(last_runs, records) => last_run_complaints(lanes, last_runs)
            + record_complaints(records),
    }
}

fn put_opt(out: &mut Vec<String>, more: Option<String>)
    ensures
        text::texts(final(out)@) == with_text(text::texts(old(out)@), text::opt_text(more)),
{
    match more {
        Some(more) => {
            let ghost before = text::texts(out@);
            out.push(more);
            assert(text::texts(out@) =~= before.push(more@));
        },
        None => {},
    }
}

fn last_run_error(lanes: &TextMap<()>, row: &EvidenceRow) -> (r: Option<String>)
    requires
        lanes.wf(),
    ensures
        text::opt_text(r) == last_run_complaint(lanes@.dom(), row@),
{
    if !lanes.contains_key(row.name.as_str()) {
        let parts: Vec<&str> = vec![
            "last_run row for lane ",
            row.name.as_str(),
            " does not belong to a database lane",
        ];
        assert(text::strs(parts@) =~= seq![
            "last_run row for lane "@,
            row@.name,
            " does not belong to a database lane"@,
        ]);
        return Some(cat(parts));
    }
    match &row.fault {
        None => None,
        Some(fault) => {
            let parts: Vec<&str> = vec![
                "last_run row for lane ",
                row.name.as_str(),
                " is invalid: ",
                fault.as_str(),
            ];
            assert(text::strs(parts@) =~= seq![
                "last_run row for lane "@,
                row@.name,
                " is invalid: "@,
                fault@,
            ]);
            Some(cat(parts))
        },
    }
}

fn record_error(row: &EvidenceRow) -> (r: Option<String>)
    ensures
        text::opt_text(r) == record_complaint(row@),
{
    match &row.fault {
        None => None,
        Some(fault) => {
            let quoted = debug_quoted(row.name.as_str());
            let parts: Vec<&str> = vec![
                "run record row ",
                quoted.as_str(),
                " is invalid: ",
                fault.as_str(),
            ];
            assert(text::strs(parts@) =~= seq![
                "run record row "@,
                quoted@,
                " is invalid: "@,
                fault@,
            ]);
            Some(cat(parts))
        },
    }
}

/// Complains of evidence: a row belongs to a lane, and its JSON is as it should be.
pub fn validate_evidence(lanes: &TextMap<()>, evidence: &Evidence) -> (r: Vec<String>)
    requires
        lanes.wf(),
    ensures
        text::texts(r@) == evidence_complaints(lanes@.dom(), evidence@),
{
    let mut out: Vec<String> = Vec::new();
    match evidence {
        Evidence::Unreadable(message) => {
            let parts: Vec<&str> = vec!["evidence rows are unreadable: ", message.as_str()];
            assert(text::strs(parts@) =~= seq!["evidence rows are unreadable: "@, message@]);
            let line = cat(parts);
            out.push(line);
            assert(text::texts(out@) =~= seq![line@]);
        },
        Evidence::Rows(last_runs, records) => {
            let ghost first = sorting::views(last_runs@);
            let ghost second = sorting::views(records@);
            let ghost known = lanes@.dom();
            let mut i: usize = 0;
            assert(text::texts(out@) =~= last_run_complaints(known, first.subrange(0, 0)));
            while i < last_runs.len()
                invariant
                    i <= last_runs@.len(),
                    lanes.wf(),
                    known == lanes@.dom(),
                    first == sorting::views(last_runs@),
                    text::texts(out@) == last_run_complaints(known, first.subrange(0, i as int)),
                decreases last_runs@.len() - i,
            {
                proof {
                    assert(first.subrange(0, i + 1).drop_last() =~= first.subrange(0, i as int));
                    assert(first.subrange(0, i + 1).last() == last_runs@[i as int]@);
                }
                put_opt(&mut out, last_run_error(lanes, &last_runs[i]));
                i = i + 1;
            }
            assert(first.subrange(0, i as int) =~= first);
            let mut rest: Vec<String> = Vec::new();
            let mut j: usize = 0;
            assert(text::texts(rest@) =~= record_complaints(second.subrange(0, 0)));
            while j < records.len()
                invariant
                    j <= records@.len(),
                    second == sorting::views(records@),
                    text::texts(rest@) == record_complaints(second.subrange(0, j as int)),
                decreases records@.len() - j,
            {
                proof {
                    assert(second.subrange(0, j + 1).drop_last() =~= second.subrange(0, j as int));
                    assert(second.subrange(0, j + 1).last() == records@[j as int]@);
                }
                put_opt(&mut rest, record_error(&records[j]));
                j = j + 1;
            }
            assert(second.subrange(0, j as int) =~= second);
            append_texts(&mut out, &rest);
        },
    }
    out
}

// The report.

/// The state of stored lanes.
#[derive(Debug, PartialEq, Eq)]
pub struct StorageDoctorReport {
    pub store_present: bool,
    pub version: Option<u32>,
    pub lanes: usize,
    pub files: usize,
    pub ops: usize,
    pub blobs_referenced: usize,
    pub blobs_present: usize,
    pub blobs_unreferenced: usize,
    pub last_run_rows: usize,
    pub run_records: usize,
    pub warnings: Vec<String>,
    pub errors: Vec<String>,
}

/// A [`StorageDoctorReport`] as a mathematical value.
#[verifier::ext_equal]
pub struct DoctorReportView {
    pub store_present: bool,
    pub version: Option<nat>,
    pub lanes: nat,
    pub files: nat,
    pub ops: nat,
    pub blobs_referenced: nat,
    pub blobs_present: nat,
    pub blobs_unreferenced: nat,
    pub last_run_rows: nat,
    pub run_records: nat,
    pub warnings: Seq<Seq<char>>,
    pub errors: Seq<Seq<char>>,
}

/// An optional version as a mathematical value.
pub open spec fn opt_version(version: Option<u32>) -> Option<nat> {
    match version {
        Some(version) => Some(version as nat),
        None => None,
    }
}

impl View for StorageDoctorReport {
    type V = DoctorReportView;

    open spec fn view(&self) -> DoctorReportView {
        DoctorReportView {
            store_present: self.store_present,
            version: opt_version(self.version),
            lanes: self.lanes as nat,
            files: self.files as nat,
            ops: self.ops as nat,
            blobs_referenced: self.blobs_referenced as nat,
            blobs_present: self.blobs_present as nat,
            blobs_unreferenced: self.blobs_unreferenced as nat,
            last_run_rows: self.last_run_rows as nat,
            run_records: self.run_records as nat,
            warnings: text::texts(self.warnings@),
            errors: text::texts(self.errors@),
        }
    }
}

impl StorageDoctorReport {
    /// Whether nothing is wrong.
    pub fn is_healthy(&self) -> (r: bool)
        ensures
            r == (self@.errors.len() == 0),
    {
        self.errors.len() == 0
    }
}

/// The database of stored lanes: not there, not readable, or read.
#[derive(Debug, PartialEq, Eq)]
pub enum StoreState {
    Missing,
    Unreadable(bool, String),
    Loaded(StoredRepo),
}

/// A [`StoreState`] as a mathematical value.
pub enum StoreStateView {
    Missing,
    Unreadable(bool, Seq<char>),
    Loaded(StoredRepoView),
}

impl View for StoreState {
    type V = StoreStateView;

    open spec fn view(&self) -> StoreStateView {
        match self {
            StoreState::Missing => StoreStateView::Missing,
            StoreState::Unreadable(present, message) => StoreStateView::Unreadable(
                *present,
                message@,
            ),
            StoreState::Loaded(stored) => StoreStateView::Loaded(stored@),
        }
    }
}

/// The names that a state of the database refers to, each with the lengths that are expected.
pub open spec fn state_references(state: StoreStateView) -> Map<Seq<char>, Seq<u64>> {
    match state {
        StoreStateView::Loaded(stored) => doctor::referenced(doctor::store_ops(stored.files)),
        _ => Map::empty(),
    }
}

/// The names of byte strings that nothing refers to.
pub open spec fn stale_names(known: Set<Seq<char>>, names: Seq<Seq<char>>) -> Seq<Seq<char>> {
    names.filter(|name: Seq<char>| !known.contains(name))
}

/// The warning about a byte string that nothing refers to.
pub open spec fn stale_warning(name: Seq<char>) -> Seq<char> {
    text::flat(seq!["blob "@, name, " is not referenced by repo.json"@])
}

/// A report before the directory of byte strings is looked at.
pub open spec fn store_report(
    state: StoreStateView,
    reads: Map<Seq<char>, BlobReadView>,
    evidence: EvidenceView,
) -> DoctorReportView {
    let blank = DoctorReportView {
        store_present: false,
        version: None,
        lanes: 0,
        files: 0,
        ops: 0,
        blobs_referenced: 0,
        blobs_present: 0,
        blobs_unreferenced: 0,
        last_run_rows: 0,
        run_records: 0,
        warnings: Seq::empty(),
        errors: Seq::empty(),
    };
    match state {
        StoreStateView::Missing => blank,
        StoreStateView::Unreadable(present, message) => DoctorReportView {
            store_present: present,
            errors: seq![message],
            ..blank
        },
        StoreStateView::Loaded(stored) => {
            let lanes = text_map::listing(stored.lanes);
            let paths = text_map::listing(stored.files.dom());
            let known = state_references(state);
            let count = doctor::store_ops(stored.files).len();
            DoctorReportView {
                store_present: true,
                version: Some(stored.version),
                lanes: lanes.len(),
                files: paths.len(),
                ops: count,
                blobs_referenced: count,
                last_run_rows: match evidence {
                    EvidenceView::Rows(last_runs, _) => last_runs.len(),
                    EvidenceView::Unreadable(_) => 0,
                },
                run_records: match evidence {
                    EvidenceView::Rows(_, records) => records.len(),
                    EvidenceView::Unreadable(_) => 0,
                },
                errors: doctor::lane_complaints(lanes) + doctor::files_complaints(
                    stored.lanes,
                    stored.files,
                    paths,
                ) + doctor::blobs_complaints(known, reads, text_map::listing(known.dom()))
                    + evidence_complaints(stored.lanes, evidence),
                ..blank
            }
        },
    }
}

/// The report on stored lanes.
pub open spec fn report_of(
    state: StoreStateView,
    reads: Map<Seq<char>, BlobReadView>,
    evidence: EvidenceView,
    inventory: BlobInventoryView,
) -> DoctorReportView {
    let stale = stale_names(
        state_references(state).dom(),
        text_map::listing(inventory.files.dom()),
    );
    DoctorReportView {
        blobs_present: inventory.blobs_present,
        blobs_unreferenced: stale.len(),
        warnings: inventory.warnings + stale.map_values(|name: Seq<char>| stale_warning(name)),
        ..store_report(state, reads, evidence)
    }
}

/// What was found out about stored lanes.
#[derive(Debug, PartialEq, Eq)]
pub struct StorageDoctorInspection {
    pub report: StorageDoctorReport,
    pub referenced_blobs: TextMap<()>,
    pub blob_inventory: BlobInventory,
}

/// A [`StorageDoctorInspection`] as a mathematical value.
#[verifier::ext_equal]
pub struct InspectionView {
    pub report: DoctorReportView,
    pub referenced_blobs: Set<Seq<char>>,
    pub blob_inventory: BlobInventoryView,
}

impl View for StorageDoctorInspection {
    type V = InspectionView;

    open spec fn view(&self) -> InspectionView {
        InspectionView {
            report: self.report@,
            referenced_blobs: self.referenced_blobs@.dom(),
            blob_inventory: self.blob_inventory@,
        }
    }
}

impl StorageDoctorInspection {
    /// The names are in order.
    pub open spec fn wf(&self) -> bool {
        self.referenced_blobs.wf() && self.blob_inventory.wf()
    }
}

/// What there is to find out about stored lanes.
pub open spec fn inspected(
    state: StoreStateView,
    reads: Map<Seq<char>, BlobReadView>,
    evidence: EvidenceView,
    listing: Seq<BlobFileView>,
) -> InspectionView {
    let inventory = doctor::inventory_of(listing);
    InspectionView {
        report: report_of(state, reads, evidence, inventory),
        referenced_blobs: state_references(state).dom(),
        blob_inventory: inventory,
    }
}

fn stale_list(files: &TextMap<BlobFile>, known: &TextMap<()>) -> (r: Vec<usize>)
    requires
        files.wf(),
        known.wf(),
    ensures
        forall|k: int| 0 <= k < r@.len() ==> (#[trigger] r@[k]) < files.pairs().len(),
        r@.len() <= files.pairs().len(),
        r@.map_values(|at: usize| files.pairs()[at as int].0) == stale_names(
            known@.dom(),
            text_map::listing(files@.dom()),
        ),
{
    let ghost keys = files.keys();
    let ghost stale = |name: Seq<char>| !known@.dom().contains(name);
    let ghost name_of = |at: usize| files.pairs()[at as int].0;
    let mut out: Vec<usize> = Vec::new();
    let mut i: usize = 0;
    proof {
        files.lemma_wf();
        reveal(Seq::filter);
        assert(out@.map_values(name_of) =~= keys.subrange(0, 0).filter(stale));
    }
    while i < files.len()
        invariant
            i <= files.pairs().len(),
            files.wf(),
            known.wf(),
            keys == files.keys(),
            stale == (|name: Seq<char>| !known@.dom().contains(name)),
            name_of == (|at: usize| files.pairs()[at as int].0),
            out@.len() <= i,
            forall|k: int| 0 <= k < out@.len() ==> (#[trigger] out@[k]) < files.pairs().len(),
            out@.map_values(name_of) == keys.subrange(0, i as int).filter(stale),
        decreases files.pairs().len() - i,
    {
        let name = files.key_at(i);
        let ghost before = out@;
        proof {
            reveal(Seq::filter);
            assert(keys.subrange(0, i + 1).drop_last() =~= keys.subrange(0, i as int));
            assert(keys.subrange(0, i + 1).last() == name@);
        }
        if !known.contains_key(name) {
            out.push(i);
            assert(out@.map_values(name_of) =~= before.map_values(name_of).push(name@));
        }
        i = i + 1;
    }
    assert(keys.subrange(0, i as int) =~= keys);
    out
}

/// Records the directory of byte strings in a report: its oddities, and what nothing refers to.
pub fn record_blob_inventory(
    inventory: &BlobInventory,
    known: &TextMap<()>,
    report: &mut StorageDoctorReport,
)
    requires
        inventory.wf(),
        known.wf(),
    ensures
        final(report)@ == ({
            let stale = stale_names(known@.dom(), text_map::listing(inventory@.files.dom()));
            DoctorReportView {
                blobs_present: inventory@.blobs_present,
                blobs_unreferenced: stale.len(),
                warnings: old(report)@.warnings + inventory@.warnings + stale.map_values(
                    |name: Seq<char>| stale_warning(name),
                ),
                ..old(report)@
            }
        }),
{
    let stale = stale_list(&inventory.files, known);
    let ghost names = stale_names(known@.dom(), text_map::listing(inventory@.files.dom()));
    let ghost files = inventory.files;
    let mut warnings: Vec<String> = text::copy_texts(&report.warnings);
    append_texts(&mut warnings, &inventory.warnings);
    let ghost first = text::texts(warnings@);
    let mut i: usize = 0;
    proof {
        assert(inventory@.files.dom() =~= files@.dom());
        assert(stale@.map_values(|at: usize| files.pairs()[at as int].0) == names);
        assert(names.len() == stale@.len());
        assert(first =~= first + names.subrange(0, 0).map_values(
            |name: Seq<char>| stale_warning(name),
        ));
    }
    while i < stale.len()
        invariant
            i <= stale@.len(),
            files == inventory.files,
            names.len() == stale@.len(),
            stale@.map_values(|at: usize| files.pairs()[at as int].0) == names,
            forall|k: int| 0 <= k < stale@.len() ==> (#[trigger] stale@[k]) < files.pairs().len(),
            text::texts(warnings@) == first + names.subrange(0, i as int).map_values(
                |name: Seq<char>| stale_warning(name),
            ),
        decreases stale@.len() - i,
    {
        let at: usize = stale[i];
        let name = inventory.files.key_at(at);
        let ghost before = text::texts(warnings@);
        proof {
            assert(names[i as int] == name@);
        }
        let parts: Vec<&str> = vec!["blob ", name, " is not referenced by repo.json"];
        assert(text::strs(parts@) =~= seq!["blob "@, name@, " is not referenced by repo.json"@]);
        let warning = cat(parts);
        warnings.push(warning);
        proof {
            assert(text::texts(warnings@) =~= before.push(stale_warning(name@)));
            assert(text::texts(warnings@) =~= first + names.subrange(0, i + 1).map_values(
                |name: Seq<char>| stale_warning(name),
            ));
        }
        i = i + 1;
    }
    assert(names.subrange(0, i as int) =~= names);
    report.blobs_present = inventory.blobs_present;
    report.blobs_unreferenced = stale.len();
    report.warnings = warnings;
}

/// Inspects stored lanes: the database, the byte strings that it refers to, the evidence, and the
/// directory of byte strings.
pub fn inspect_storage(
    state: &StoreState,
    reads: &TextMap<BlobRead>,
    evidence: &Evidence,
    listing: &Vec<BlobFile>,
) -> (r: StorageDoctorInspection)
    requires
        state matches StoreState::Loaded(stored) ==> stored.wf(),
        reads.wf(),
        doctor::all_read(state_references(state@), doctor::read_map(reads@)),
    ensures
        r.wf(),
        r@ == inspected(
            state@,
            doctor::read_map(reads@),
            evidence@,
            sorting::views(listing@),
        ),
{
    let ghost shown = doctor::read_map(reads@);
    let mut report = StorageDoctorReport {
        store_present: false,
        version: None,
        lanes: 0,
        files: 0,
        ops: 0,
        blobs_referenced: 0,
        blobs_present: 0,
        blobs_unreferenced: 0,
        last_run_rows: 0,
        run_records: 0,
        warnings: Vec::new(),
        errors: Vec::new(),
    };
    let mut referenced_blobs: TextMap<()> = TextMap::new();
    proof {
        assert(text::texts(report.warnings@) =~= Seq::empty());
        assert(text::texts(report.errors@) =~= Seq::empty());
    }
    match state {
        StoreState::Missing => {
            assert(referenced_blobs@.dom() =~= state_references(state@).dom());
        },
        StoreState::Unreadable(present, message) => {
            report.store_present = *present;
            let mut errors: Vec<String> = Vec::new();
            errors.push(message.clone());
            assert(text::texts(errors@) =~= seq![message@]);
            report.errors = errors;
            assert(referenced_blobs@.dom() =~= state_references(state@).dom());
        },
        StoreState::Loaded(stored) => {
            let ghost known = state_references(state@);
            let list = doctor::collect_ops(&stored.files);
            let references = collect_referenced_blobs(stored);
            let mut errors: Vec<String> = Vec::new();
            proof {
                stored.lanes.lemma_wf();
                stored.files.lemma_wf();
                assert(stored@.files.dom() =~= stored.files@.dom());
                assert(references@.dom() =~= known.dom());
                assert(text::texts(errors@) =~= Seq::empty());
            }
            doctor::complain_of_lanes(&mut errors, &stored.lanes);
            doctor::complain_of_files(&mut errors, &stored.lanes, &stored.files);
            validate_referenced_blobs(&mut errors, &references, reads);
            let more = validate_evidence(&stored.lanes, evidence);
            append_texts(&mut errors, &more);
            report.store_present = true;
            report.version = Some(stored.version);
            report.lanes = stored.lanes.len();
            report.files = stored.files.len();
            report.ops = list.len();
            report.blobs_referenced = list.len();
            match evidence {
                Evidence::Rows(last_runs, records) => {
                    report.last_run_rows = last_runs.len();
                    report.run_records = records.len();
                },
                Evidence::Unreadable(_) => {},
            }
            report.errors = errors;
            referenced_blobs = names_of(&references);
            assert(report@.errors =~= store_report(state@, shown, evidence@).errors);
        },
    }
    assert(report@ =~= store_report(state@, shown, evidence@));
    let inventory = blob_inventory(listing);
    record_blob_inventory(&inventory, &referenced_blobs, &mut report);
    assert(report@.warnings =~= report_of(state@, shown, evidence@, inventory@).warnings);
    assert(report@ =~= report_of(state@, shown, evidence@, inventory@));
    StorageDoctorInspection { report, referenced_blobs, blob_inventory: inventory }
}

fn names_of(known: &TextMap<Vec<u64>>) -> (r: TextMap<()>)
    requires
        known.wf(),
    ensures
        r.wf(),
        r@.dom() == known@.dom(),
{
    let mut names: TextMap<()> = TextMap::new();
    let mut i: usize = 0;
    proof {
        known.lemma_wf();
    }
    while i < known.len()
        invariant
            i <= known.pairs().len(),
            known.wf(),
            names.wf(),
            forall|k: Seq<char>| #[trigger] names@.contains_key(k) ==> known@.contains_key(k),
            forall|m: int| 0 <= m < i ==> names@.contains_key((#[trigger] known.pairs()[m]).0),
        decreases known.pairs().len() - i,
    {
        proof {
            known.lemma_wf();
            assert(known@.contains_key(known.pairs()[i as int].0));
        }
        let _ = names.insert(known.key_at(i).to_owned(), ());
        i = i + 1;
    }
    proof {
        known.lemma_wf();
        assert forall|k: Seq<char>| #[trigger] known@.contains_key(k) implies names@.contains_key(k) by {
            let m = choose|m: int|
                0 <= m < known.pairs().len() && (#[trigger] known.pairs()[m]).0 == k;
            assert(names@.contains_key(known.pairs()[m].0));
        }
        assert(names@.dom() =~= known@.dom());
    }
    names
}

/// Inspects stored lanes and reports on them.
pub fn doctor_storage(
    state: &StoreState,
    reads: &TextMap<BlobRead>,
    evidence: &Evidence,
    listing: &Vec<BlobFile>,
) -> (r: StorageDoctorReport)
    requires
        state matches StoreState::Loaded(stored) ==> stored.wf(),
        reads.wf(),
        doctor::all_read(state_references(state@), doctor::read_map(reads@)),
    ensures
        r@ == inspected(
            state@,
            doctor::read_map(reads@),
            evidence@,
            sorting::views(listing@),
        ).report,
{
    inspect_storage(state, reads, evidence, listing).report
}

// Cleaning up.

/// What was removed.
#[derive(Clone, Copy, Debug, PartialEq, Eq)]
pub struct StorageCleanupReport {
    pub blobs_removed: usize,
    pub bytes_removed: u64,
    pub blobs_remaining: usize,
}

/// The files to remove, and the report once they are removed.
#[derive(Debug, PartialEq, Eq)]
pub struct StorageCleanup {
    pub stale: Vec<BlobFile>,
    pub report: StorageCleanupReport,
}

/// The files that nothing refers to.
pub open spec fn stale_files(files: Map<Seq<char>, BlobFileView>, known: Set<Seq<char>>) -> Seq<
    BlobFileView,
> {
    stale_names(known, text_map::listing(files.dom())).map_values(|name: Seq<char>| files[name])
}

/// The size of files together.
pub open spec fn total_bytes(files: Seq<BlobFileView>) -> nat
    decreases files.len(),
{
    if files.len() == 0 {
        0
    } else {
        total_bytes(files.drop_last()) + files.last().bytes
    }
}

/// Why stored lanes cannot be cleaned up.
pub open spec fn cleanup_fault(inspection: InspectionView) -> Option<Seq<char>> {
    if !inspection.report.store_present {
        Some("cannot clean lane storage without lane.sqlite"@)
    } else if inspection.report.errors.len() > 0 {
        Some("cannot clean unhealthy lane storage; run lane doctor first"@)
    } else if inspection.blob_inventory.warnings.len() > 0 {
        Some("cannot clean storage with invalid blob files; run lane doctor first"@)
    } else {
        None
    }
}

/// Whether a cleanup removes just the files that nothing refers to, and counts them.
pub open spec fn cleans(
    inventory: BlobInventoryView,
    known: Set<Seq<char>>,
    cleanup: StorageCleanup,
) -> bool {
    let stale = stale_files(inventory.files, known);
    &&& sorting::views(cleanup.stale@) == stale
    &&& cleanup.report.blobs_removed == stale.len()
    &&& cleanup.report.bytes_removed == total_bytes(stale)
    &&& cleanup.report.blobs_remaining == inventory.blobs_present - stale.len()
}

proof fn lemma_total_grows(files: Seq<BlobFileView>, n: int)
    requires
        0 <= n <= files.len(),
    ensures
        total_bytes(files.subrange(0, n)) <= total_bytes(files),
    decreases files.len(),
{
    if n == files.len() {
        assert(files.subrange(0, n) =~= files);
    } else {
        lemma_total_grows(files.drop_last(), n);
        assert(files.drop_last().subrange(0, n) =~= files.subrange(0, n));
    }
}

pub(crate) fn remove_stale(inventory: &BlobInventory, known: &TextMap<()>) -> (r: StorageCleanup)
    requires
        inventory.wf(),
        known.wf(),
        total_bytes(stale_files(inventory@.files, known@.dom())) <= u64::MAX,
    ensures
        cleans(inventory@, known@.dom(), r),
{
    let at = stale_list(&inventory.files, known);
    let ghost files = inventory.files;
    let ghost names = stale_names(known@.dom(), text_map::listing(inventory@.files.dom()));
    let ghost all = stale_files(inventory@.files, known@.dom());
    let mut stale: Vec<BlobFile> = Vec::new();
    let mut bytes: u64 = 0;
    let mut i: usize = 0;
    proof {
        assert(inventory@.files.dom() =~= files@.dom());
        assert(at@.map_values(|k: usize| files.pairs()[k as int].0) == names);
        assert(names.len() == at@.len());
        assert(all.subrange(0, 0) =~= Seq::empty());
        assert(sorting::views(stale@) =~= Seq::empty());
    }
    while i < at.len()
        invariant
            i <= at@.len(),
            inventory.wf(),
            files == inventory.files,
            names == stale_names(known@.dom(), text_map::listing(inventory@.files.dom())),
            names.len() == at@.len(),
            at@.map_values(|k: usize| files.pairs()[k as int].0) == names,
            forall|k: int| 0 <= k < at@.len() ==> (#[trigger] at@[k]) < files.pairs().len(),
            all == stale_files(inventory@.files, known@.dom()),
            total_bytes(all) <= u64::MAX,
            sorting::views(stale@) == all.subrange(0, i as int),
            bytes == total_bytes(all.subrange(0, i as int)),
        decreases at@.len() - i,
    {
        let k: usize = at[i];
        let file = inventory.files.value_at(k);
        let ghost before = sorting::views(stale@);
        proof {
            files.lemma_wf();
            let name = files.pairs()[k as int].0;
            assert(names[i as int] == name);
            assert(files@.contains_key(name));
            assert(inventory@.files[name] == file@);
            assert(all[i as int] == file@);
            assert(all.subrange(0, i + 1).drop_last() =~= all.subrange(0, i as int));
            assert(all.subrange(0, i + 1).last() == file@);
            lemma_total_grows(all, i + 1);
        }
        stale.push(file.copied());
        assert(sorting::views(stale@) =~= before.push(file@));
        bytes = bytes + file.bytes;
        i = i + 1;
    }
    assert(all.subrange(0, i as int) =~= all);
    let report = StorageCleanupReport {
        blobs_removed: stale.len(),
        bytes_removed: bytes,
        blobs_remaining: inventory.blobs_present - stale.len(),
    };
    StorageCleanup { stale, report }
}

/// The cleanup of stored lanes in which nothing is wrong: the files to remove are those that
/// nothing refers to.
pub fn cleanup_storage(inspection: &StorageDoctorInspection) -> (r: Result<StorageCleanup, String>)
    requires
        inspection.wf(),
        total_bytes(
            stale_files(inspection@.blob_inventory.files, inspection@.referenced_blobs),
        ) <= u64::MAX,
    ensures
        match r {
            Ok(cleanup) => cleanup_fault(inspection@) is None && cleans(
                inspection@.blob_inventory,
                inspection@.referenced_blobs,
                cleanup,
            ),
            Err(message) => cleanup_fault(inspection@) == Some(message@),
        },
{
    if !inspection.report.store_present {
        return Err("cannot clean lane storage without lane.sqlite".to_owned());
    }
    if !inspection.report.is_healthy() {
        return Err("cannot clean unhealthy lane storage; run lane doctor first".to_owned());
    }
    if inspection.blob_inventory.warnings.len() != 0 {
        return Err(
            "cannot clean storage with invalid blob files; run lane doctor first".to_owned(),
        );
    }
    Ok(remove_stale(&inspection.blob_inventory, &inspection.referenced_blobs))
}

// Laws.

/// A name is referred to, with a length, just if some operation refers to it with that length.
pub proof fn law_referenced(list: Seq<StoredOpView>, name: Seq<char>, len: u64)
    requires
        forall|i: int| 0 <= i < list.len() ==> (#[trigger] list[i]).inserted_len <= u64::MAX,
    ensures
        doctor::referenced(list).contains_key(name) <==> exists|i: int|
            0 <= i < list.len() && (#[trigger] list[i]).inserted_blob == name,
        doctor::known_lengths(doctor::referenced(list), name).contains(len) <==> exists|i: int|
            0 <= i < list.len() && (#[trigger] list[i]).inserted_blob == name
                && list[i].inserted_len == len,
    decreases list.len(),
{
    if list.len() > 0 {
        let rest = list.drop_last();
        let op = list.last();
        assert forall|i: int| 0 <= i < rest.len() implies (#[trigger] rest[i]).inserted_len
            <= u64::MAX by {
            assert(list[i].inserted_len <= u64::MAX);
        }
        law_referenced(rest, name, len);
        assert(list[list.len() - 1] == op);
        let before = doctor::referenced(rest);
        lemma_with_length_contains(
            doctor::known_lengths(before, op.inserted_blob),
            op.inserted_len as u64,
            len,
        );
        if exists|i: int| 0 <= i < list.len() && (#[trigger] list[i]).inserted_blob == name {
            let i = choose|i: int| 0 <= i < list.len() && (#[trigger] list[i]).inserted_blob == name;
            if i < rest.len() {
                assert(rest[i].inserted_blob == name);
            }
        }
        if exists|i: int| 0 <= i < rest.len() && (#[trigger] rest[i]).inserted_blob == name {
            let i = choose|i: int| 0 <= i < rest.len() && (#[trigger] rest[i]).inserted_blob == name;
            assert(list[i].inserted_blob == name);
        }
        if exists|i: int|
            0 <= i < list.len() && (#[trigger] list[i]).inserted_blob == name
                && list[i].inserted_len == len {
            let i = choose|i: int|
                0 <= i < list.len() && (#[trigger] list[i]).inserted_blob == name
                    && list[i].inserted_len == len;
            if i < rest.len() {
                assert(rest[i].inserted_blob == name);
            }
        }
        if exists|i: int|
            0 <= i < rest.len() && (#[trigger] rest[i]).inserted_blob == name
                && rest[i].inserted_len == len {
            let i = choose|i: int|
                0 <= i < rest.len() && (#[trigger] rest[i]).inserted_blob == name
                    && rest[i].inserted_len == len;
            assert(list[i].inserted_blob == name);
        }
    }
}

proof fn lemma_with_length_contains(lengths: Seq<u64>, n: u64, m: u64)
    ensures
        doctor::with_length(lengths, n).contains(m) <==> lengths.contains(m) || m == n,
    decreases lengths.len(),
{
    let grown = doctor::with_length(lengths, n);
    if lengths.len() == 0 || lengths.last() < n {
        assert(grown[lengths.len() as int] == n);
        if lengths.contains(m) {
            let i = choose|i: int| 0 <= i < lengths.len() && lengths[i] == m;
            assert(grown[i] == m);
        }
    } else if lengths.last() == n {
        assert(lengths[lengths.len() - 1] == n);
    } else {
        let rest = lengths.drop_last();
        let shorter = doctor::with_length(rest, n);
        lemma_with_length_contains(rest, n, m);
        assert(lengths[lengths.len() - 1] == lengths.last());
        assert(grown[shorter.len() as int] == lengths.last());
        if shorter.contains(m) {
            let i = choose|i: int| 0 <= i < shorter.len() && shorter[i] == m;
            assert(grown[i] == m);
        }
        if grown.contains(m) {
            let i = choose|i: int| 0 <= i < grown.len() && grown[i] == m;
            if i < shorter.len() {
                assert(shorter[i] == m);
            }
        }
        if lengths.contains(m) {
            let i = choose|i: int| 0 <= i < lengths.len() && lengths[i] == m;
            if i < rest.len() {
                assert(rest[i] == m);
            }
        }
        if rest.contains(m) {
            let i = choose|i: int| 0 <= i < rest.len() && rest[i] == m;
            assert(lengths[i] == m);
        }
    }
}

/// Cleaning up removes a byte string just if no operation refers to it.
pub proof fn law_cleanup_keeps_what_is_referred_to(
    stored: StoredRepoView,
    files: Map<Seq<char>, BlobFileView>,
    name: Seq<char>,
)
    requires
        files.dom().finite(),
        files.contains_key(name),
        forall|i: int|
            0 <= i < doctor::store_ops(stored.files).len() ==> (#[trigger] doctor::store_ops(
                stored.files,
            )[i]).inserted_len <= u64::MAX,
    ensures
        stale_names(
            state_references(StoreStateView::Loaded(stored)).dom(),
            text_map::listing(files.dom()),
        ).contains(name) <==> forall|i: int|
            0 <= i < doctor::store_ops(stored.files).len() ==> (#[trigger] doctor::store_ops(
                stored.files,
            )[i]).inserted_blob != name,
{
    let list = doctor::store_ops(stored.files);
    let known = state_references(StoreStateView::Loaded(stored)).dom();
    let names = text_map::listing(files.dom());
    let stale = |name: Seq<char>| !known.contains(name);
    text_map::lemma_listing_exists(files.dom());
    law_referenced(list, name, 0);
    assert(names.contains(name) <==> files.dom().contains(name));
    if names.filter(stale).contains(name) {
        let i = choose|i: int| 0 <= i < names.filter(stale).len() && names.filter(stale)[i] == name;
        names.lemma_filter_pred(stale, i);
    }
    if !known.contains(name) {
        let i = choose|i: int| 0 <= i < names.len() && names[i] == name;
        names.lemma_filter_contains(stale, i);
    }
}

proof fn lemma_file_ops_hold(
    file: StoredFileView,
    lanes: Seq<Seq<char>>,
    lane: Seq<char>,
    op: StoredOpView,
)
    requires
        lanes.contains(lane),
        doctor::entry_ops(file.lanes[lane]).contains(op),
    ensures
        doctor::file_ops(file, lanes).contains(op),
    decreases lanes.len(),
{
    let rest = lanes.drop_last();
    let at = choose|at: int| 0 <= at < lanes.len() && lanes[at] == lane;
    let before = doctor::file_ops(file, rest);
    let last = doctor::entry_ops(file.lanes[lanes.last()]);
    if at < rest.len() {
        assert(rest[at] == lane);
        lemma_file_ops_hold(file, rest, lane, op);
        let i = choose|i: int| 0 <= i < before.len() && before[i] == op;
        assert((before + last)[i] == op);
    } else {
        let i = choose|i: int| 0 <= i < last.len() && last[i] == op;
        assert((before + last)[before.len() + i] == op);
    }
}

proof fn lemma_files_ops_hold(
    files: Map<Seq<char>, StoredFileView>,
    paths: Seq<Seq<char>>,
    path: Seq<char>,
    lane: Seq<char>,
    op: StoredOpView,
)
    requires
        paths.contains(path),
        files[path].lanes.dom().finite(),
        files[path].lanes.contains_key(lane),
        doctor::entry_ops(files[path].lanes[lane]).contains(op),
    ensures
        doctor::files_ops(files, paths).contains(op),
    decreases paths.len(),
{
    let rest = paths.drop_last();
    let at = choose|at: int| 0 <= at < paths.len() && paths[at] == path;
    let before = doctor::files_ops(files, rest);
    let file = files[paths.last()];
    let last = doctor::file_ops(file, text_map::listing(file.lanes.dom()));
    if at < rest.len() {
        assert(rest[at] == path);
        lemma_files_ops_hold(files, rest, path, lane, op);
        let i = choose|i: int| 0 <= i < before.len() && before[i] == op;
        assert((before + last)[i] == op);
    } else {
        let lanes = text_map::listing(file.lanes.dom());
        text_map::lemma_listing_exists(file.lanes.dom());
        assert(lanes.contains(lane) <==> file.lanes.dom().contains(lane));
        lemma_file_ops_hold(file, lanes, lane, op);
        let i = choose|i: int| 0 <= i < last.len() && last[i] == op;
        assert((before + last)[before.len() + i] == op);
    }
}

/// The bytes of an operation that some lane stores survive a cleanup.
pub proof fn law_cleanup_keeps_stored_ops(
    stored: StoredRepoView,
    files: Map<Seq<char>, BlobFileView>,
    path: Seq<char>,
    lane: Seq<char>,
    op: StoredOpView,
)
    requires
        files.dom().finite(),
        stored.files.dom().finite(),
        stored.files.contains_key(path),
        stored.files[path].lanes.dom().finite(),
        stored.files[path].lanes.contains_key(lane),
        doctor::entry_ops(stored.files[path].lanes[lane]).contains(op),
    ensures
        !stale_names(
            state_references(StoreStateView::Loaded(stored)).dom(),
            text_map::listing(files.dom()),
        ).contains(op.inserted_blob),
{
    let list = doctor::store_ops(stored.files);
    let paths = text_map::listing(stored.files.dom());
    text_map::lemma_listing_exists(stored.files.dom());
    assert(paths.contains(path) <==> stored.files.dom().contains(path));
    lemma_files_ops_hold(stored.files, paths, path, lane, op);
    let at = choose|at: int| 0 <= at < list.len() && list[at] == op;
    lemma_op_is_referred_to(list, at);
    let known = state_references(StoreStateView::Loaded(stored)).dom();
    let names = text_map::listing(files.dom());
    let stale = |name: Seq<char>| !known.contains(name);
    if names.filter(stale).contains(op.inserted_blob) {
        let i = choose|i: int|
            0 <= i < names.filter(stale).len() && names.filter(stale)[i] == op.inserted_blob;
        names.lemma_filter_pred(stale, i);
    }
}

proof fn lemma_op_is_referred_to(list: Seq<StoredOpView>, at: int)
    requires
        0 <= at < list.len(),
    ensures
        doctor::referenced(list).contains_key(list[at].inserted_blob),
    decreases list.len(),
{
    if at < list.len() - 1 {
        lemma_op_is_referred_to(list.drop_last(), at);
    }
}

} // verus!
