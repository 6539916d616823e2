//! What a look at stored lanes finds.
use vstd::prelude::*;

use crate::storage::doctor;
use crate::storage::doctor::{BlobFileView, BlobReadView};
use crate::storage::health;
use crate::storage::inspect;
use crate::storage::inspect::{EvidenceView, StoreStateView};
use crate::storage::rows::{StoredOpView, StoredRepoView};
use crate::storage::values;
use crate::text_map;
use crate::types;

verus! {

/// A byte string is not the one that an operation refers to: it cannot be read, or it has another
/// length, or another name.
pub open spec fn is_damaged(op: StoredOpView, read: BlobReadView) -> bool {
    match read {
        BlobReadView::Unreadable(_) => true,
        BlobReadView::Bytes(bytes) => bytes.len() != op.inserted_len || values::blob_name(bytes)
            != op.inserted_blob,
    }
}

/// A length that is not the expected one is complained of.
proof fn lemma_length_is_noticed(reference: Seq<char>, len: nat, expected: Seq<u64>, wanted: u64)
    requires
        expected.contains(wanted),
        wanted != len,
    ensures
        doctor::length_complaints(reference, len, expected).len() > 0,
    decreases expected.len(),
{
    let i = choose|i: int| 0 <= i < expected.len() && expected[i] == wanted;
    let rest = expected.drop_last();
    if i < rest.len() {
        assert(rest[i] == wanted);
        lemma_length_is_noticed(reference, len, rest, wanted);
    }
}

/// What is complained of for one reference is complained of for all.
proof fn lemma_blob_is_noticed(
    known: Map<Seq<char>, Seq<u64>>,
    reads: Map<Seq<char>, BlobReadView>,
    references: Seq<Seq<char>>,
    name: Seq<char>,
)
    requires
        references.contains(name),
        values::blob_fault(name) is None,
        doctor::blob_complaints(name, known[name], reads[name]).len() > 0,
    ensures
        doctor::blobs_complaints(known, reads, references).len() > 0,
    decreases references.len(),
{
    let i = choose|i: int| 0 <= i < references.len() && references[i] == name;
    let rest = references.drop_last();
    if i < rest.len() {
        assert(rest[i] == name);
        lemma_blob_is_noticed(known, reads, rest, name);
    }
}

/// A lane with a name that no lane may have is complained of.
proof fn lemma_lane_is_noticed(lanes: Seq<Seq<char>>, lane: Seq<char>)
    requires
        lanes.contains(lane),
        types::parsed_lane(lane) is Err,
    ensures
        doctor::lane_complaints(lanes).len() > 0,
    decreases lanes.len(),
{
    let i = choose|i: int| 0 <= i < lanes.len() && lanes[i] == lane;
    let rest = lanes.drop_last();
    if i < rest.len() {
        assert(rest[i] == lane);
        lemma_lane_is_noticed(rest, lane);
    }
}

/// A byte string that an operation of a stored lane refers to and that is damaged makes the report
/// tell of an error, and so does a lane whose name no lane may have.
pub proof fn law_damage_is_reported(
    stored: StoredRepoView,
    reads: Map<Seq<char>, BlobReadView>,
    evidence: EvidenceView,
    listing: Seq<BlobFileView>,
    i: int,
    lane: Seq<char>,
)
    requires
        stored.lanes.finite(),
        forall|j: int|
            0 <= j < doctor::store_ops(stored.files).len() ==> (#[trigger] doctor::store_ops(
                stored.files,
            )[j]).inserted_len <= u64::MAX,
    ensures
        ({
            let list = doctor::store_ops(stored.files);
            let report = inspect::inspected(
                StoreStateView::Loaded(stored),
                reads,
                evidence,
                listing,
            ).report;
            &&& 0 <= i < list.len() && values::blob_fault(list[i].inserted_blob) is None
                && is_damaged(list[i], reads[list[i].inserted_blob]) ==> report.errors.len() > 0
            &&& stored.lanes.contains(lane) && types::parsed_lane(lane) is Err
                ==> report.errors.len() > 0
        }),
{
    let list = doctor::store_ops(stored.files);
    let known = doctor::referenced(list);
    let names = text_map::listing(known.dom());
    health::lemma_referenced_finite(list);
    text_map::lemma_listing_exists(known.dom());
    text_map::lemma_listing_exists(stored.lanes);
    if 0 <= i < list.len() && values::blob_fault(list[i].inserted_blob) is None && is_damaged(
        list[i],
        reads[list[i].inserted_blob],
    ) {
        let name = list[i].inserted_blob;
        let len = list[i].inserted_len as u64;
        inspect::law_referenced(list, name, len);
        assert(list[i].inserted_blob == name && list[i].inserted_len == len);
        assert(known.contains_key(name));
        assert(names.contains(name));
        assert(doctor::known_lengths(known, name).contains(len));
        if let BlobReadView::Bytes(bytes) = reads[name] {
            if bytes.len() != len {
                lemma_length_is_noticed(name, bytes.len(), known[name], len);
            }
        }
        lemma_blob_is_noticed(known, reads, names, name);
    }
    if stored.lanes.contains(lane) && types::parsed_lane(lane) is Err {
        assert(text_map::listing(stored.lanes).contains(lane));
        lemma_lane_is_noticed(text_map::listing(stored.lanes), lane);
    }
}

} // verus!
