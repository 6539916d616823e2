//! What is wrong with stored lanes, and which stored byte strings nothing refers to.
use vstd::prelude::*;

use crate::lists::Copied;
use crate::numbers;
use crate::numbers::decimal;
use crate::sorting;
use crate::storage::rows;
use crate::storage::rows::{
    StoredEntryView, StoredFile, StoredFileView, StoredLaneEntry, StoredOp, StoredOpView,
    StoredRepo,
};
use crate::storage::values;
use crate::storage::values::{blob_reference, validate_blob_reference};
use crate::text;
use crate::text::{cat, text_eq};
use crate::text_map;
use crate::text_map::TextMap;
use crate::types;
use crate::types::{debug_quoted, ensure_user_lane};

verus! {

/// A file in the directory of byte strings. Its name is missing where it is not UTF-8.
#[derive(Debug, PartialEq, Eq)]
pub struct BlobFile {
    pub name: Option<String>,
    pub path: String,
    pub bytes: u64,
}

/// A [`BlobFile`] as a mathematical value.
#[verifier::ext_equal]
pub struct BlobFileView {
    pub name: Option<Seq<char>>,
    pub path: Seq<char>,
    pub bytes: nat,
}

impl View for BlobFile {
    type V = BlobFileView;

    open spec fn view(&self) -> BlobFileView {
        BlobFileView {
            name: text::opt_text(self.name),
            path: self.path@,
            bytes: self.bytes as nat,
        }
    }
}

impl Copied for BlobFile {
    fn copied(&self) -> (r: Self) {
        BlobFile {
            name: types::copy_opt_text(&self.name),
            path: self.path.clone(),
            bytes: self.bytes,
        }
    }
}

/// The name by which operations refer to a file of the directory.
pub open spec fn file_reference(name: Seq<char>) -> Seq<char> {
    "sha256/"@ + name
}

/// What is odd about a file of the directory.
pub open spec fn file_warning(file: BlobFileView) -> Option<Seq<char>> {
    match file.name {
        None => Some(text::flat(seq!["blob file "@, file.path, " has a non-UTF-8 name"@])),
        Some(name) => match values::blob_fault(file_reference(name)) {
            Some(fault) => Some(
                text::flat(
                    seq!["blob file "@, file.path, " is not a valid sha256 blob name: "@, fault],
                ),
            ),
            None => None,
        },
    }
}

/// What is odd about the directory.
pub open spec fn inventory_warnings(listing: Seq<BlobFileView>) -> Seq<Seq<char>>
    decreases listing.len(),
{
    if listing.len() == 0 {
        Seq::empty()
    } else {
        let before = inventory_warnings(listing.drop_last());
        match file_warning(listing.last()) {
            Some(warning) => before.push(warning),
            None => before,
        }
    }
}

/// The byte strings in the directory, by the names by which operations refer to them.
pub open spec fn inventory_files(listing: Seq<BlobFileView>) -> Map<Seq<char>, BlobFileView>
    decreases listing.len(),
{
    if listing.len() == 0 {
        Map::empty()
    } else {
        let before = inventory_files(listing.drop_last());
        match file_warning(listing.last()) {
            Some(_) => before,
            None => before.insert(
                file_reference(listing.last().name->Some_0),
                listing.last(),
            ),
        }
    }
}

/// The directory of byte strings.
#[derive(Debug, PartialEq, Eq)]
pub struct BlobInventory {
    pub files: TextMap<BlobFile>,
    pub warnings: Vec<String>,
    pub blobs_present: usize,
}

/// A [`BlobInventory`] as a mathematical value.
#[verifier::ext_equal]
pub struct BlobInventoryView {
    pub files: Map<Seq<char>, BlobFileView>,
    pub warnings: Seq<Seq<char>>,
    pub blobs_present: nat,
}

/// Files of the directory as mathematical values.
pub open spec fn blob_file_map(files: Map<Seq<char>, BlobFile>) -> Map<Seq<char>, BlobFileView> {
    files.map_values(|file: BlobFile| file@)
}

impl View for BlobInventory {
    type V = BlobInventoryView;

    open spec fn view(&self) -> BlobInventoryView {
        BlobInventoryView {
            files: blob_file_map(self.files@),
            warnings: text::texts(self.warnings@),
            blobs_present: self.blobs_present as nat,
        }
    }
}

impl BlobInventory {
    /// The names are in order, and no more of them than files.
    pub open spec fn wf(&self) -> bool {
        self.files.wf() && self.files.pairs().len() <= self.blobs_present
    }
}

/// The inventory of a directory.
pub open spec fn inventory_of(listing: Seq<BlobFileView>) -> BlobInventoryView {
    BlobInventoryView {
        files: inventory_files(listing),
        warnings: inventory_warnings(listing),
        blobs_present: listing.len(),
    }
}

/// Takes the inventory of a directory.
pub fn blob_inventory(listing: &Vec<BlobFile>) -> (r: BlobInventory)
    ensures
        r.wf(),
        r@ == inventory_of(sorting::views(listing@)),
{
    let ghost all = sorting::views(listing@);
    let mut files: TextMap<BlobFile> = TextMap::new();
    let mut warnings: Vec<String> = Vec::new();
    let mut i: usize = 0;
    proof {
        assert(all.subrange(0, 0) =~= Seq::empty());
        assert(blob_file_map(files@) =~= Map::empty());
        assert(text::texts(warnings@) =~= Seq::empty());
    }
    while i < listing.len()
        invariant
            i <= listing@.len(),
            all == sorting::views(listing@),
            files.wf(),
            files.pairs().len() <= i,
            blob_file_map(files@) == inventory_files(all.subrange(0, i as int)),
            text::texts(warnings@) == inventory_warnings(all.subrange(0, i as int)),
        decreases listing@.len() - i,
    {
        let file = &listing[i];
        let ghost files0 = blob_file_map(files@);
        let ghost warnings0 = text::texts(warnings@);
        proof {
            assert(all.subrange(0, i + 1).drop_last() =~= all.subrange(0, i as int));
            assert(all.subrange(0, i + 1).last() == file@);
        }
        match &file.name {
            None => {
                let parts: Vec<&str> = vec![
                    "blob file ",
                    file.path.as_str(),
                    " has a non-UTF-8 name",
                ];
                assert(text::strs(parts@) =~= seq![
                    "blob file "@,
                    file.path@,
                    " has a non-UTF-8 name"@,
                ]);
                let warning = cat(parts);
                warnings.push(warning);
                assert(text::texts(warnings@) =~= warnings0.push(warning@));
            },
            Some(name) => {
                let reference = "sha256/".to_owned().concat(name.as_str());
                match validate_blob_reference(reference.as_str()) {
                    Ok(()) => {
                        let copied = file.copied();
                        let _ = files.insert(reference, copied);
                        assert(blob_file_map(files@) =~= files0.insert(file_reference(name@), file@));
                    },
                    Err(fault) => {
                        let parts: Vec<&str> = vec![
                            "blob file ",
                            file.path.as_str(),
                            " is not a valid sha256 blob name: ",
                            fault.as_str(),
                        ];
                        assert(text::strs(parts@) =~= seq![
                            "blob file "@,
                            file.path@,
                            " is not a valid sha256 blob name: "@,
                            fault@,
                        ]);
                        let warning = cat(parts);
                        warnings.push(warning);
                        assert(text::texts(warnings@) =~= warnings0.push(warning@));
                    },
                }
            },
        }
        i = i + 1;
    }
    assert(all.subrange(0, i as int) =~= all);
    BlobInventory { files, warnings, blobs_present: listing.len() }
}

// The operations of a stored repo, and what they refer to.

/// The operations of an entry.
pub open spec fn entry_ops(entry: StoredEntryView) -> Seq<StoredOpView> {
    match entry {
        StoredEntryView::Present(list) => list,
        StoredEntryView::Deleted => Seq::empty(),
    }
}

/// The operations that some lanes store for a path.
pub open spec fn file_ops(file: StoredFileView, lanes: Seq<Seq<char>>) -> Seq<StoredOpView>
    decreases lanes.len(),
{
    if lanes.len() == 0 {
        Seq::empty()
    } else {
        file_ops(file, lanes.drop_last()) + entry_ops(file.lanes[lanes.last()])
    }
}

/// The operations that are stored for some paths.
pub open spec fn files_ops(
    files: Map<Seq<char>, StoredFileView>,
    paths: Seq<Seq<char>>,
) -> Seq<StoredOpView>
    decreases paths.len(),
{
    if paths.len() == 0 {
        Seq::empty()
    } else {
        let file = files[paths.last()];
        files_ops(files, paths.drop_last()) + file_ops(file, text_map::listing(file.lanes.dom()))
    }
}

/// All stored operations.
pub open spec fn store_ops(files: Map<Seq<char>, StoredFileView>) -> Seq<StoredOpView> {
    files_ops(files, text_map::listing(files.dom()))
}

fn push_file_ops<'a>(out: &mut Vec<&'a StoredOp>, file: &'a StoredFile)
    requires
        file.lanes.wf(),
    ensures
        sorting::views(final(out)@) == sorting::views(old(out)@) + file_ops(
            file@,
            text_map::listing(file@.lanes.dom()),
        ),
{
    let ghost start = sorting::views(out@);
    let ghost keys = file.lanes.keys();
    let mut i: usize = 0;
    proof {
        file.lanes.lemma_wf();
        assert(file@.lanes.dom() =~= file.lanes@.dom());
        assert(start =~= start + file_ops(file@, keys.subrange(0, 0)));
    }
    while i < file.lanes.len()
        invariant
            i <= file.lanes.pairs().len(),
            file.lanes.wf(),
            keys == file.lanes.keys(),
            sorting::views(out@) == start + file_ops(file@, keys.subrange(0, i as int)),
        decreases file.lanes.pairs().len() - i,
    {
        let entry = file.lanes.value_at(i);
        let ghost before = sorting::views(out@);
        proof {
            file.lanes.lemma_wf();
            let key = file.lanes.pairs()[i as int].0;
            assert(file.lanes@.contains_key(key));
            assert(file@.lanes[key] == entry@);
            assert(keys.subrange(0, i + 1).drop_last() =~= keys.subrange(0, i as int));
            assert(keys.subrange(0, i + 1).last() == key);
        }
        match entry {
            StoredLaneEntry::Deleted => {
                assert(before + entry_ops(entry@) =~= before);
            },
            StoredLaneEntry::Present(list) => {
                let ghost all = sorting::views(list@);
                let mut k: usize = 0;
                assert(before =~= before + all.subrange(0, 0));
                while k < list.len()
                    invariant
                        k <= list@.len(),
                        all == sorting::views(list@),
                        sorting::views(out@) == before + all.subrange(0, k as int),
                    decreases list@.len() - k,
                {
                    let ghost shown = sorting::views(out@);
                    out.push(&list[k]);
                    proof {
                        assert(sorting::views(out@) =~= shown.push(list@[k as int]@));
                        assert(sorting::views(out@) =~= before + all.subrange(0, k + 1));
                    }
                    k = k + 1;
                }
                assert(all.subrange(0, k as int) =~= all);
            },
        }
        assert(sorting::views(out@) =~= start + file_ops(file@, keys.subrange(0, i + 1)));
        i = i + 1;
    }
    assert(keys.subrange(0, i as int) =~= keys);
}

pub(crate) fn collect_ops<'a>(files: &'a TextMap<StoredFile>) -> (r: Vec<&'a StoredOp>)
    requires
        rows::files_wf(*files),
    ensures
        sorting::views(r@) == store_ops(rows::file_map(files@)),
{
    let ghost shown = rows::file_map(files@);
    let ghost keys = files.keys();
    let mut out: Vec<&'a StoredOp> = Vec::new();
    let mut i: usize = 0;
    proof {
        files.lemma_wf();
        assert(shown.dom() =~= files@.dom());
        assert(sorting::views(out@) =~= files_ops(shown, keys.subrange(0, 0)));
    }
    while i < files.len()
        invariant
            i <= files.pairs().len(),
            rows::files_wf(*files),
            shown == rows::file_map(files@),
            keys == files.keys(),
            sorting::views(out@) == files_ops(shown, keys.subrange(0, i as int)),
        decreases files.pairs().len() - i,
    {
        let file = files.value_at(i);
        proof {
            files.lemma_wf();
            let path = files.pairs()[i as int].0;
            assert(files@.contains_key(path));
            assert(shown[path] == file@);
            assert(keys.subrange(0, i + 1).drop_last() =~= keys.subrange(0, i as int));
            assert(keys.subrange(0, i + 1).last() == path);
        }
        push_file_ops(&mut out, file);
        i = i + 1;
    }
    assert(keys.subrange(0, i as int) =~= keys);
    out
}

/// Increasing numbers with one more in its place.
pub open spec fn with_length(lengths: Seq<u64>, n: u64) -> Seq<u64>
    decreases lengths.len(),
{
    if lengths.len() == 0 || lengths.last() < n {
        lengths.push(n)
    } else if lengths.last() == n {
        lengths
    } else {
        with_length(lengths.drop_last(), n).push(lengths.last())
    }
}

proof fn lemma_with_length(lengths: Seq<u64>, n: u64, at: int)
    requires
        0 <= at <= lengths.len(),
        forall|k: int| at <= k < lengths.len() ==> n < #[trigger] lengths[k],
        at > 0 ==> lengths[at - 1] <= n,
    ensures
        with_length(lengths, n) == if at > 0 && lengths[at - 1] == n {
            lengths
        } else {
            lengths.insert(at, n)
        },
    decreases lengths.len() - at,
{
    if at == lengths.len() {
        assert(lengths.insert(at, n) =~= lengths.push(n));
    } else {
        let rest = lengths.drop_last();
        lemma_with_length(rest, n, at);
        assert(rest.push(lengths.last()) =~= lengths);
        assert(rest.insert(at, n).push(lengths.last()) =~= lengths.insert(at, n));
    }
}

fn put_length(lengths: &mut Vec<u64>, n: u64)
    ensures
        final(lengths)@ == with_length(old(lengths)@, n),
{
    let mut at: usize = lengths.len();
    while at > 0 && lengths[at - 1] > n
        invariant
            at <= lengths@.len(),
            lengths@ == old(lengths)@,
            forall|k: int| at <= k < lengths@.len() ==> n < #[trigger] lengths@[k],
        decreases at,
    {
        at = at - 1;
    }
    proof {
        lemma_with_length(lengths@, n, at as int);
    }
    if at > 0 && lengths[at - 1] == n {
        return;
    }
    lengths.insert(at, n);
}

/// The lengths that are known of a byte string.
pub open spec fn known_lengths(known: Map<Seq<char>, Seq<u64>>, reference: Seq<char>) -> Seq<u64> {
    if known.contains_key(reference) {
        known[reference]
    } else {
        Seq::empty()
    }
}

/// The names that operations refer to, each with the lengths that they expect.
pub open spec fn referenced(list: Seq<StoredOpView>) -> Map<Seq<char>, Seq<u64>>
    decreases list.len(),
{
    if list.len() == 0 {
        Map::empty()
    } else {
        let before = referenced(list.drop_last());
        let op = list.last();
        before.insert(
            op.inserted_blob,
            with_length(known_lengths(before, op.inserted_blob), op.inserted_len as u64),
        )
    }
}

/// Lengths as mathematical values.
pub open spec fn length_map(known: Map<Seq<char>, Vec<u64>>) -> Map<Seq<char>, Seq<u64>> {
    known.map_values(|lengths: Vec<u64>| lengths@)
}

fn references_of(list: &Vec<&StoredOp>) -> (r: TextMap<Vec<u64>>)
    ensures
        r.wf(),
        length_map(r@) == referenced(sorting::views(list@)),
{
    let ghost all = sorting::views(list@);
    let mut known: TextMap<Vec<u64>> = TextMap::new();
    let mut i: usize = 0;
    proof {
        assert(all.subrange(0, 0) =~= Seq::empty());
        assert(length_map(known@) =~= Map::empty());
    }
    while i < list.len()
        invariant
            i <= list@.len(),
            all == sorting::views(list@),
            known.wf(),
            length_map(known@) == referenced(all.subrange(0, i as int)),
        decreases list@.len() - i,
    {
        let op: &StoredOp = list[i];
        let ghost before = length_map(known@);
        proof {
            assert(all.subrange(0, i + 1).drop_last() =~= all.subrange(0, i as int));
            assert(all.subrange(0, i + 1).last() == op@);
        }
        let mut lengths: Vec<u64> = match known.remove(op.inserted_blob.as_str()) {
            Some(lengths) => lengths,
            None => Vec::new(),
        };
        assert(lengths@ =~= known_lengths(before, op.inserted_blob@));
        put_length(&mut lengths, op.inserted_len);
        let ghost grown = lengths@;
        let _ = known.insert(op.inserted_blob.clone(), lengths);
        assert(length_map(known@) =~= before.insert(op.inserted_blob@, grown));
        i = i + 1;
    }
    assert(all.subrange(0, i as int) =~= all);
    known
}

/// The names that a stored repo refers to, each with the lengths that its operations expect.
pub fn collect_referenced_blobs(stored: &StoredRepo) -> (r: TextMap<Vec<u64>>)
    requires
        stored.wf(),
    ensures
        r.wf(),
        length_map(r@) == referenced(store_ops(stored@.files)),
{
    let list = collect_ops(&stored.files);
    references_of(&list)
}

// What is wrong.

/// The complaint about a lane whose name no lane may have.
pub open spec fn lane_complaint(lane: Seq<char>) -> Seq<Seq<char>> {
    match types::parsed_lane(lane) {
        Ok(_) => Seq::empty(),
        Err(error) => seq![
            text::flat(
                seq![
                    "database lane "@,
                    types::debug_text(lane),
                    " is invalid: "@,
                    types::lane_error_message(error),
                ],
            ),
        ],
    }
}

/// The complaints about lanes.
pub open spec fn lane_complaints(lanes: Seq<Seq<char>>) -> Seq<Seq<char>>
    decreases lanes.len(),
{
    if lanes.len() == 0 {
        Seq::empty()
    } else {
        lane_complaints(lanes.drop_last()) + lane_complaint(lanes.last())
    }
}

/// The complaint about what an operation refers to.
pub open spec fn op_complaint(path: Seq<char>, op: StoredOpView) -> Seq<Seq<char>> {
    match values::blob_fault(op.inserted_blob) {
        None => Seq::empty(),
        Some(fault) => seq![
            text::flat(
                seq![
                    "file "@,
                    path,
                    " op "@,
                    numbers::decimal_text(op.id),
                    " has invalid blob reference "@,
                    op.inserted_blob,
                    ": "@,
                    fault,
                ],
            ),
        ],
    }
}

/// The complaints about what operations refer to.
pub open spec fn op_complaints(path: Seq<char>, list: Seq<StoredOpView>) -> Seq<Seq<char>>
    decreases list.len(),
{
    if list.len() == 0 {
        Seq::empty()
    } else {
        op_complaints(path, list.drop_last()) + op_complaint(path, list.last())
    }
}

/// The complaint about an entry of a lane that there is none of.
pub open spec fn stray_complaint(lanes: Set<Seq<char>>, path: Seq<char>, lane: Seq<char>) -> Seq<
    Seq<char>,
> {
    if lanes.contains(lane) {
        Seq::empty()
    } else {
        seq![text::flat(seq!["file "@, path, " references missing lane "@, lane])]
    }
}

/// The complaints about what some lanes store for a path.
pub open spec fn file_complaints(
    known: Set<Seq<char>>,
    path: Seq<char>,
    file: StoredFileView,
    lanes: Seq<Seq<char>>,
) -> Seq<Seq<char>>
    decreases lanes.len(),
{
    if lanes.len() == 0 {
        Seq::empty()
    } else {
        file_complaints(known, path, file, lanes.drop_last()) + stray_complaint(
            known,
            path,
            lanes.last(),
        ) + op_complaints(path, entry_ops(file.lanes[lanes.last()]))
    }
}

/// The complaints about what is stored for some paths.
pub open spec fn files_complaints(
    known: Set<Seq<char>>,
    files: Map<Seq<char>, StoredFileView>,
    paths: Seq<Seq<char>>,
) -> Seq<Seq<char>>
    decreases paths.len(),
{
    if paths.len() == 0 {
        Seq::empty()
    } else {
        let file = files[paths.last()];
        files_complaints(known, files, paths.drop_last()) + file_complaints(
            known,
            paths.last(),
            file,
            text_map::listing(file.lanes.dom()),
        )
    }
}

/// Adds a text to a list.
fn put(out: &mut Vec<String>, line: String)
    ensures
        text::texts(final(out)@) == text::texts(old(out)@) + seq![line@],
{
    let ghost before = text::texts(out@);
    out.push(line);
    assert(text::texts(out@) =~= before + seq![line@]);
}

pub(crate) fn complain_of_lanes(out: &mut Vec<String>, lanes: &TextMap<()>)
    requires
        lanes.wf(),
    ensures
        text::texts(final(out)@) == text::texts(old(out)@) + lane_complaints(
            text_map::listing(lanes@.dom()),
        ),
{
    let ghost start = text::texts(out@);
    let ghost keys = lanes.keys();
    let mut i: usize = 0;
    proof {
        lanes.lemma_wf();
        assert(start =~= start + lane_complaints(keys.subrange(0, 0)));
    }
    while i < lanes.len()
        invariant
            i <= lanes.pairs().len(),
            keys == lanes.keys(),
            text::texts(out@) == start + lane_complaints(keys.subrange(0, i as int)),
        decreases lanes.pairs().len() - i,
    {
        let lane = lanes.key_at(i);
        let ghost before = text::texts(out@);
        proof {
            assert(keys.subrange(0, i + 1).drop_last() =~= keys.subrange(0, i as int));
            assert(keys.subrange(0, i + 1).last() == lane@);
        }
        match ensure_user_lane(lane) {
            Ok(()) => {
                assert(before + lane_complaint(lane@) =~= before);
            },
            Err(error) => {
                let quoted = debug_quoted(lane);
                let message = error.message();
                let parts: Vec<&str> = vec![
                    "database lane ",
                    quoted.as_str(),
                    " is invalid: ",
                    message.as_str(),
                ];
                assert(text::strs(parts@) =~= seq![
                    "database lane "@,
                    quoted@,
                    " is invalid: "@,
                    message@,
                ]);
                put(out, cat(parts));
            },
        }
        assert(text::texts(out@) =~= start + lane_complaints(keys.subrange(0, i + 1)));
        i = i + 1;
    }
    assert(keys.subrange(0, i as int) =~= keys);
}

fn complain_of_ops(out: &mut Vec<String>, path: &str, list: &Vec<StoredOp>)
    ensures
        text::texts(final(out)@) == text::texts(old(out)@) + op_complaints(
            path@,
            sorting::views(list@),
        ),
{
    let ghost start = text::texts(out@);
    let ghost all = sorting::views(list@);
    let mut i: usize = 0;
    assert(start =~= start + op_complaints(path@, all.subrange(0, 0)));
    while i < list.len()
        invariant
            i <= list@.len(),
            all == sorting::views(list@),
            text::texts(out@) == start + op_complaints(path@, all.subrange(0, i as int)),
        decreases list@.len() - i,
    {
        let op = &list[i];
        let ghost before = text::texts(out@);
        proof {
            assert(all.subrange(0, i + 1).drop_last() =~= all.subrange(0, i as int));
            assert(all.subrange(0, i + 1).last() == op@);
        }
        match validate_blob_reference(op.inserted_blob.as_str()) {
            Ok(()) => {
                assert(before + op_complaint(path@, op@) =~= before);
            },
            Err(fault) => {
                let id = decimal(op.id);
                let parts: Vec<&str> = vec![
                    "file ",
                    path,
                    " op ",
                    id.as_str(),
                    " has invalid blob reference ",
                    op.inserted_blob.as_str(),
                    ": ",
                    fault.as_str(),
                ];
                assert(text::strs(parts@) =~= seq![
                    "file "@,
                    path@,
                    " op "@,
                    id@,
                    " has invalid blob reference "@,
                    op@.inserted_blob,
                    ": "@,
                    fault@,
                ]);
                put(out, cat(parts));
            },
        }
        assert(text::texts(out@) =~= start + op_complaints(path@, all.subrange(0, i + 1)));
        i = i + 1;
    }
    assert(all.subrange(0, i as int) =~= all);
}

fn complain_of_file(out: &mut Vec<String>, known: &TextMap<()>, path: &str, file: &StoredFile)
    requires
        known.wf(),
        file.lanes.wf(),
    ensures
        text::texts(final(out)@) == text::texts(old(out)@) + file_complaints(
            known@.dom(),
            path@,
            file@,
            text_map::listing(file@.lanes.dom()),
        ),
{
    let ghost start = text::texts(out@);
    let ghost keys = file.lanes.keys();
    let mut i: usize = 0;
    proof {
        file.lanes.lemma_wf();
        assert(file@.lanes.dom() =~= file.lanes@.dom());
        assert(start =~= start + file_complaints(known@.dom(), path@, file@, keys.subrange(0, 0)));
    }
    while i < file.lanes.len()
        invariant
            i <= file.lanes.pairs().len(),
            known.wf(),
            file.lanes.wf(),
            keys == file.lanes.keys(),
            text::texts(out@) == start + file_complaints(
                known@.dom(),
                path@,
                file@,
                keys.subrange(0, i as int),
            ),
        decreases file.lanes.pairs().len() - i,
    {
        let lane = file.lanes.key_at(i);
        let entry = file.lanes.value_at(i);
        let ghost before = text::texts(out@);
        proof {
            file.lanes.lemma_wf();
            assert(file.lanes@.contains_key(file.lanes.pairs()[i as int].0));
            assert(file@.lanes[lane@] == entry@);
            assert(keys.subrange(0, i + 1).drop_last() =~= keys.subrange(0, i as int));
            assert(keys.subrange(0, i + 1).last() == lane@);
        }
        if !known.contains_key(lane) {
            let parts: Vec<&str> = vec!["file ", path, " references missing lane ", lane];
            assert(text::strs(parts@) =~= seq![
                "file "@,
                path@,
                " references missing lane "@,
                lane@,
            ]);
            put(out, cat(parts));
        }
        assert(text::texts(out@) =~= before + stray_complaint(known@.dom(), path@, lane@));
        match entry {
            StoredLaneEntry::Present(list) => {
                complain_of_ops(out, path, list);
            },
            StoredLaneEntry::Deleted => {},
        }
        assert(text::texts(out@) =~= start + file_complaints(
            known@.dom(),
            path@,
            file@,
            keys.subrange(0, i + 1),
        ));
        i = i + 1;
    }
    assert(keys.subrange(0, i as int) =~= keys);
}

pub(crate) fn complain_of_files(out: &mut Vec<String>, known: &TextMap<()>, files: &TextMap<StoredFile>)
    requires
        known.wf(),
        rows::files_wf(*files),
    ensures
        text::texts(final(out)@) == text::texts(old(out)@) + files_complaints(
            known@.dom(),
            rows::file_map(files@),
            text_map::listing(files@.dom()),
        ),
{
    let ghost start = text::texts(out@);
    let ghost shown = rows::file_map(files@);
    let ghost keys = files.keys();
    let mut i: usize = 0;
    proof {
        files.lemma_wf();
        assert(start =~= start + files_complaints(known@.dom(), shown, keys.subrange(0, 0)));
    }
    while i < files.len()
        invariant
            i <= files.pairs().len(),
            known.wf(),
            rows::files_wf(*files),
            shown == rows::file_map(files@),
            keys == files.keys(),
            text::texts(out@) == start + files_complaints(
                known@.dom(),
                shown,
                keys.subrange(0, i as int),
            ),
        decreases files.pairs().len() - i,
    {
        let path = files.key_at(i);
        let file = files.value_at(i);
        proof {
            files.lemma_wf();
            assert(files@.contains_key(files.pairs()[i as int].0));
            assert(shown[path@] == file@);
            assert(keys.subrange(0, i + 1).drop_last() =~= keys.subrange(0, i as int));
            assert(keys.subrange(0, i + 1).last() == path@);
        }
        complain_of_file(out, known, path, file);
        assert(text::texts(out@) =~= start + files_complaints(
            known@.dom(),
            shown,
            keys.subrange(0, i + 1),
        ));
        i = i + 1;
    }
    assert(keys.subrange(0, i as int) =~= keys);
}

// The byte strings that are referred to.

/// What reading a byte string gave.
#[derive(Debug, PartialEq, Eq)]
pub enum BlobRead {
    Bytes(Vec<u8>),
    Unreadable(String),
}

/// A [`BlobRead`] as a mathematical value.
pub enum BlobReadView {
    Bytes(Seq<u8>),
    Unreadable(Seq<char>),
}

impl View for BlobRead {
    type V = BlobReadView;

    open spec fn view(&self) -> BlobReadView {
        match self {
            BlobRead::Bytes(bytes) => BlobReadView::Bytes(bytes@),
            BlobRead::Unreadable(message) => BlobReadView::Unreadable(message@),
        }
    }
}

/// What was read, as mathematical values.
pub open spec fn read_map(reads: Map<Seq<char>, BlobRead>) -> Map<Seq<char>, BlobReadView> {
    reads.map_values(|read: BlobRead| read@)
}

/// The complaints about the length of a byte string.
pub open spec fn length_complaints(reference: Seq<char>, len: nat, expected: Seq<u64>) -> Seq<
    Seq<char>,
>
    decreases expected.len(),
{
    if expected.len() == 0 {
        Seq::empty()
    } else {
        let before = length_complaints(reference, len, expected.drop_last());
        if expected.last() == len {
            before
        } else {
            before.push(
                text::flat(
                    seq![
                        "blob "@,
                        reference,
                        " length is "@,
                        numbers::decimal_text(len),
                        "; expected "@,
                        numbers::decimal_text(expected.last() as nat),
                    ],
                ),
            )
        }
    }
}

/// The complaints about a byte string that is referred to.
pub open spec fn blob_complaints(
    reference: Seq<char>,
    expected: Seq<u64>,
    read: BlobReadView,
) -> Seq<Seq<char>> {
    match read {
        BlobReadView::Bytes(bytes) => {
            let before = length_complaints(reference, bytes.len(), expected);
            if values::blob_name(bytes) == reference {
                before
            } else {
                before.push(
                    text::flat(
                        seq!["blob "@, reference, " content hash is "@, values::blob_name(bytes)],
                    ),
                )
            }
        },
        BlobReadView::Unreadable(message) => seq![
            text::flat(seq!["blob "@, reference, " is unreadable: "@, message]),
        ],
    }
}

/// The complaints about the byte strings that are referred to by proper names.
pub open spec fn blobs_complaints(
    known: Map<Seq<char>, Seq<u64>>,
    reads: Map<Seq<char>, BlobReadView>,
    references: Seq<Seq<char>>,
) -> Seq<Seq<char>>
    decreases references.len(),
{
    if references.len() == 0 {
        Seq::empty()
    } else {
        let before = blobs_complaints(known, reads, references.drop_last());
        let reference = references.last();
        if values::blob_fault(reference) is Some {
            before
        } else {
            before + blob_complaints(reference, known[reference], reads[reference])
        }
    }
}

/// Whether every byte string that is referred to by a proper name has been read, or could not
/// be.
pub open spec fn all_read(
    known: Map<Seq<char>, Seq<u64>>,
    reads: Map<Seq<char>, BlobReadView>,
) -> bool {
    forall|reference: Seq<char>| #[trigger]
        known.contains_key(reference) && values::blob_fault(reference) is None
            ==> reads.contains_key(reference)
}

fn complain_of_blob(out: &mut Vec<String>, reference: &str, expected: &Vec<u64>, read: &BlobRead)
    ensures
        text::texts(final(out)@) == text::texts(old(out)@) + blob_complaints(
            reference@,
            expected@,
            read@,
        ),
{
    let ghost start = text::texts(out@);
    match read {
        BlobRead::Unreadable(message) => {
            let parts: Vec<&str> = vec!["blob ", reference, " is unreadable: ", message.as_str()];
            assert(text::strs(parts@) =~= seq![
                "blob "@,
                reference@,
                " is unreadable: "@,
                message@,
            ]);
            put(out, cat(parts));
        },
        BlobRead::Bytes(bytes) => {
            let len: u64 = bytes.len() as u64;
            let len_text = decimal(len);
            let mut i: usize = 0;
            assert(start =~= start + length_complaints(
                reference@,
                len as nat,
                expected@.subrange(0, 0),
            ));
            while i < expected.len()
                invariant
                    i <= expected@.len(),
                    len_text@ == numbers::decimal_text(len as nat),
                    text::texts(out@) == start + length_complaints(
                        reference@,
                        len as nat,
                        expected@.subrange(0, i as int),
                    ),
                decreases expected@.len() - i,
            {
                let ghost before = text::texts(out@);
                proof {
                    assert(expected@.subrange(0, i + 1).drop_last() =~= expected@.subrange(
                        0,
                        i as int,
                    ));
                    assert(expected@.subrange(0, i + 1).last() == expected@[i as int]);
                }
                if expected[i] != len {
                    let expected_text = decimal(expected[i]);
                    let parts: Vec<&str> = vec![
                        "blob ",
                        reference,
                        " length is ",
                        len_text.as_str(),
                        "; expected ",
                        expected_text.as_str(),
                    ];
                    assert(text::strs(parts@) =~= seq![
                        "blob "@,
                        reference@,
                        " length is "@,
                        len_text@,
                        "; expected "@,
                        expected_text@,
                    ]);
                    put(out, cat(parts));
                }
                assert(text::texts(out@) =~= start + length_complaints(
                    reference@,
                    len as nat,
                    expected@.subrange(0, i + 1),
                ));
                i = i + 1;
            }
            assert(expected@.subrange(0, i as int) =~= expected@);
            let actual = blob_reference(bytes.as_slice());
            if !text_eq(actual.as_str(), reference) {
                let parts: Vec<&str> = vec![
                    "blob ",
                    reference,
                    " content hash is ",
                    actual.as_str(),
                ];
                assert(text::strs(parts@) =~= seq![
                    "blob "@,
                    reference@,
                    " content hash is "@,
                    actual@,
                ]);
                put(out, cat(parts));
            }
            assert(text::texts(out@) =~= start + blob_complaints(reference@, expected@, read@));
        },
    }
}

/// Complains of the byte strings that are referred to by proper names: each is readable, as long
/// as its operations expect, and named by its digest.
pub fn validate_referenced_blobs(
    out: &mut Vec<String>,
    known: &TextMap<Vec<u64>>,
    reads: &TextMap<BlobRead>,
)
    requires
        known.wf(),
        reads.wf(),
        all_read(length_map(known@), read_map(reads@)),
    ensures
        text::texts(final(out)@) == text::texts(old(out)@) + blobs_complaints(
            length_map(known@),
            read_map(reads@),
            text_map::listing(known@.dom()),
        ),
{
    let ghost start = text::texts(out@);
    let ghost lengths = length_map(known@);
    let ghost shown = read_map(reads@);
    let ghost keys = known.keys();
    let mut i: usize = 0;
    proof {
        known.lemma_wf();
        assert(start =~= start + blobs_complaints(lengths, shown, keys.subrange(0, 0)));
    }
    while i < known.len()
        invariant
            i <= known.pairs().len(),
            known.wf(),
            reads.wf(),
            lengths == length_map(known@),
            shown == read_map(reads@),
            all_read(lengths, shown),
            keys == known.keys(),
            text::texts(out@) == start + blobs_complaints(
                lengths,
                shown,
                keys.subrange(0, i as int),
            ),
        decreases known.pairs().len() - i,
    {
        let reference = known.key_at(i);
        let expected = known.value_at(i);
        proof {
            known.lemma_wf();
            assert(known@.contains_key(known.pairs()[i as int].0));
            assert(lengths.contains_key(reference@));
            assert(lengths[reference@] == expected@);
            assert(keys.subrange(0, i + 1).drop_last() =~= keys.subrange(0, i as int));
            assert(keys.subrange(0, i + 1).last() == reference@);
        }
        if validate_blob_reference(reference).is_ok() {
            match reads.get(reference) {
                Some(read) => {
                    assert(shown[reference@] == read@);
                    complain_of_blob(out, reference, expected, read);
                },
                None => {
                    assert(shown.contains_key(reference@));
                },
            }
        }
        assert(text::texts(out@) =~= start + blobs_complaints(
            lengths,
            shown,
            keys.subrange(0, i + 1),
        ));
        i = i + 1;
    }
    assert(keys.subrange(0, i as int) =~= keys);
}

} // verus!
