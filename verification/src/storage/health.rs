//! What is written to storage is in order.
use vstd::prelude::*;

use crate::fingerprint;
use crate::lane_file::Entry;
use crate::numbers;
use crate::repo;
use crate::repo::Repo;
use crate::storage::doctor;
use crate::storage::doctor::{BlobFileView, BlobReadView};
use crate::storage::inspect;
use crate::storage::inspect::{EvidenceRowView, EvidenceView, StoreStateView};
use crate::storage::round_trip;
use crate::storage::rows::StoredOpView;
use crate::storage::values;
use crate::text_map;
use crate::types;

verus! {

/// The digests of the inserted bytes have the length that digests have.
pub open spec fn digests_have_their_length(state: Repo) -> bool {
    forall|bytes: Seq<u8>| #[trigger]
        round_trip::inserts(state, bytes) ==> fingerprint::sha256(bytes).len() == 32
}

/// What reading gave is what was written.
pub open spec fn reads_back(
    blobs: Map<Seq<char>, Seq<u8>>,
    reads: Map<Seq<char>, BlobReadView>,
) -> bool {
    forall|name: Seq<char>| #[trigger]
        blobs.contains_key(name) ==> reads.contains_key(name) && reads[name]
            == BlobReadView::Bytes(blobs[name])
}

proof fn lemma_name_is_proper(bytes: Seq<u8>)
    requires
        fingerprint::sha256(bytes).len() == 32,
    ensures
        values::blob_fault(values::blob_name(bytes)) is None,
{
    let digest = fingerprint::sha256(bytes);
    let hash = numbers::hex_text(digest);
    let name = values::blob_name(bytes);
    numbers::lemma_hex_text_at(digest);
    assert(name.subrange(0, "sha256/"@.len() as int) =~= "sha256/"@);
    assert(name.subrange("sha256/"@.len() as int, name.len() as int) =~= hash);
    assert forall|i: int| 0 <= i < hash.len() implies values::is_hex(#[trigger] hash[i]) by {
        let k = i / 2;
        assert(digest[k] == digest[k]);
        numbers::lemma_hex_char_value(digest[k] as nat / 16);
        numbers::lemma_hex_char_value(digest[k] as nat % 16);
        assert(i == 2 * k || i == 2 * k + 1);
    }
}

proof fn lemma_no_lane_complaints(lanes: Seq<Seq<char>>)
    requires
        forall|i: int| 0 <= i < lanes.len() ==> types::user_lane(#[trigger] lanes[i]),
    ensures
        doctor::lane_complaints(lanes) == Seq::<Seq<char>>::empty(),
    decreases lanes.len(),
{
    if lanes.len() > 0 {
        let rest = lanes.drop_last();
        assert forall|i: int| 0 <= i < rest.len() implies types::user_lane(#[trigger] rest[i]) by {
            assert(rest[i] == lanes[i]);
        }
        lemma_no_lane_complaints(rest);
        assert(types::user_lane(lanes[lanes.len() - 1]));
    }
}

proof fn lemma_no_op_complaints(path: Seq<char>, list: Seq<StoredOpView>)
    requires
        forall|i: int|
            0 <= i < list.len() ==> values::blob_fault((#[trigger] list[i]).inserted_blob) is None,
    ensures
        doctor::op_complaints(path, list) == Seq::<Seq<char>>::empty(),
    decreases list.len(),
{
    if list.len() > 0 {
        let rest = list.drop_last();
        assert forall|i: int| 0 <= i < rest.len() implies values::blob_fault(
            (#[trigger] rest[i]).inserted_blob,
        ) is None by {
            assert(rest[i] == list[i]);
        }
        lemma_no_op_complaints(path, rest);
        assert(values::blob_fault(list[list.len() - 1].inserted_blob) is None);
    }
}

/// Every stored operation of an entry refers to what was inserted by one of the state.
spec fn stored_well(state: Repo, op: StoredOpView) -> bool {
    exists|bytes: Seq<u8>| #[trigger]
        round_trip::inserts(state, bytes) && op.inserted_blob == values::blob_name(bytes)
            && op.inserted_len == bytes.len()
}

proof fn lemma_entry_stored_well(state: Repo, p: Seq<char>, l: Seq<char>)
    requires
        state.files.contains_key(p),
        state.files[p].lanes.contains_key(l),
    ensures
        ({
            let list = doctor::entry_ops(round_trip::stored_repo(state).files[p].lanes[l]);
            forall|i: int| 0 <= i < list.len() ==> stored_well(state, #[trigger] list[i])
        }),
{
    let list = doctor::entry_ops(round_trip::stored_repo(state).files[p].lanes[l]);
    match state.files[p].lanes[l] {
        Entry::Present(own) => {
            assert forall|i: int| 0 <= i < list.len() implies stored_well(state, #[trigger] list[i]) by {
                assert(round_trip::inserted_at(state, p, l, i, own[i].inserted));
                assert(round_trip::inserts(state, own[i].inserted));
                assert(list[i] == round_trip::stored_op(own[i]));
            }
        },
        Entry::Deleted => {},
    }
}

proof fn lemma_file_stored_well(state: Repo, p: Seq<char>, lanes: Seq<Seq<char>>)
    requires
        state.files.contains_key(p),
        forall|i: int|
            0 <= i < lanes.len() ==> state.files[p].lanes.contains_key(#[trigger] lanes[i]),
    ensures
        ({
            let list = doctor::file_ops(round_trip::stored_repo(state).files[p], lanes);
            forall|i: int| 0 <= i < list.len() ==> stored_well(state, #[trigger] list[i])
        }),
    decreases lanes.len(),
{
    if lanes.len() > 0 {
        let rest = lanes.drop_last();
        assert forall|i: int| 0 <= i < rest.len() implies state.files[p].lanes.contains_key(
            #[trigger] rest[i],
        ) by {
            assert(rest[i] == lanes[i]);
        }
        lemma_file_stored_well(state, p, rest);
        assert(state.files[p].lanes.contains_key(lanes[lanes.len() - 1]));
        lemma_entry_stored_well(state, p, lanes.last());
        let file = round_trip::stored_repo(state).files[p];
        let before = doctor::file_ops(file, rest);
        let list = doctor::file_ops(file, lanes);
        let own = doctor::entry_ops(file.lanes[lanes.last()]);
        assert forall|i: int| 0 <= i < list.len() implies stored_well(state, #[trigger] list[i]) by {
            if i < before.len() {
                assert(list[i] == before[i]);
            } else {
                assert(list[i] == own[i - before.len()]);
            }
        }
    }
}

proof fn lemma_files_stored_well(state: Repo, paths: Seq<Seq<char>>)
    requires
        round_trip::storable(state),
        forall|i: int| 0 <= i < paths.len() ==> state.files.contains_key(#[trigger] paths[i]),
    ensures
        ({
            let list = doctor::files_ops(round_trip::stored_repo(state).files, paths);
            forall|i: int| 0 <= i < list.len() ==> stored_well(state, #[trigger] list[i])
        }),
    decreases paths.len(),
{
    if paths.len() > 0 {
        let rest = paths.drop_last();
        assert forall|i: int| 0 <= i < rest.len() implies state.files.contains_key(
            #[trigger] rest[i],
        ) by {
            assert(rest[i] == paths[i]);
        }
        lemma_files_stored_well(state, rest);
        let p = paths.last();
        assert(state.files.contains_key(paths[paths.len() - 1]));
        let files = round_trip::stored_repo(state).files;
        let lanes = text_map::listing(files[p].lanes.dom());
        lemma_lanes_listed(state, p);
        lemma_file_stored_well(state, p, lanes);
        let before = doctor::files_ops(files, rest);
        let own = doctor::file_ops(files[p], lanes);
        let list = doctor::files_ops(files, paths);
        assert forall|i: int| 0 <= i < list.len() implies stored_well(state, #[trigger] list[i]) by {
            if i < before.len() {
                assert(list[i] == before[i]);
            } else {
                assert(list[i] == own[i - before.len()]);
            }
        }
    }
}

proof fn lemma_lanes_listed(state: Repo, p: Seq<char>)
    requires
        round_trip::storable(state),
        state.files.contains_key(p),
    ensures
        ({
            let lanes = text_map::listing(round_trip::stored_repo(state).files[p].lanes.dom());
            forall|i: int|
                0 <= i < lanes.len() ==> state.files[p].lanes.contains_key(#[trigger] lanes[i])
        }),
{
    let file = round_trip::stored_repo(state).files[p];
    assert(round_trip::file_fits(p, state.files[p]));
    assert(file.lanes.dom() =~= state.files[p].lanes.dom());
    let lanes = text_map::listing(file.lanes.dom());
    text_map::lemma_listing_exists(file.lanes.dom());
    assert forall|i: int| 0 <= i < lanes.len() implies state.files[p].lanes.contains_key(
        #[trigger] lanes[i],
    ) by {
        assert(lanes.contains(lanes[i]));
    }
}

proof fn lemma_no_file_complaints(state: Repo, p: Seq<char>, lanes: Seq<Seq<char>>)
    requires
        repo::repo_ok(state),
        digests_have_their_length(state),
        state.files.contains_key(p),
        forall|i: int|
            0 <= i < lanes.len() ==> state.files[p].lanes.contains_key(#[trigger] lanes[i]),
    ensures
        doctor::file_complaints(
            state.lanes,
            p,
            round_trip::stored_repo(state).files[p],
            lanes,
        ) == Seq::<Seq<char>>::empty(),
    decreases lanes.len(),
{
    if lanes.len() > 0 {
        let rest = lanes.drop_last();
        assert forall|i: int| 0 <= i < rest.len() implies state.files[p].lanes.contains_key(
            #[trigger] rest[i],
        ) by {
            assert(rest[i] == lanes[i]);
        }
        lemma_no_file_complaints(state, p, rest);
        let l = lanes.last();
        assert(state.files[p].lanes.contains_key(lanes[lanes.len() - 1]));
        lemma_entry_stored_well(state, p, l);
        let own = doctor::entry_ops(round_trip::stored_repo(state).files[p].lanes[l]);
        assert forall|i: int| 0 <= i < own.len() implies values::blob_fault(
            (#[trigger] own[i]).inserted_blob,
        ) is None by {
            assert(stored_well(state, own[i]));
            let bytes = choose|bytes: Seq<u8>| #[trigger]
                round_trip::inserts(state, bytes) && own[i].inserted_blob == values::blob_name(
                    bytes,
                ) && own[i].inserted_len == bytes.len();
            lemma_name_is_proper(bytes);
        }
        lemma_no_op_complaints(p, own);
    }
}

proof fn lemma_no_files_complaints(state: Repo, paths: Seq<Seq<char>>)
    requires
        repo::repo_ok(state),
        round_trip::storable(state),
        digests_have_their_length(state),
        forall|i: int| 0 <= i < paths.len() ==> state.files.contains_key(#[trigger] paths[i]),
    ensures
        doctor::files_complaints(state.lanes, round_trip::stored_repo(state).files, paths) == Seq::<
            Seq<char>,
        >::empty(),
    decreases paths.len(),
{
    if paths.len() > 0 {
        let rest = paths.drop_last();
        assert forall|i: int| 0 <= i < rest.len() implies state.files.contains_key(
            #[trigger] rest[i],
        ) by {
            assert(rest[i] == paths[i]);
        }
        lemma_no_files_complaints(state, rest);
        let p = paths.last();
        assert(state.files.contains_key(paths[paths.len() - 1]));
        lemma_lanes_listed(state, p);
        lemma_no_file_complaints(
            state,
            p,
            text_map::listing(round_trip::stored_repo(state).files[p].lanes.dom()),
        );
    }
}

proof fn lemma_no_length_complaints(reference: Seq<char>, len: nat, expected: Seq<u64>)
    requires
        forall|i: int| 0 <= i < expected.len() ==> (#[trigger] expected[i]) == len,
    ensures
        doctor::length_complaints(reference, len, expected) == Seq::<Seq<char>>::empty(),
    decreases expected.len(),
{
    if expected.len() > 0 {
        let rest = expected.drop_last();
        assert forall|i: int| 0 <= i < rest.len() implies (#[trigger] rest[i]) == len by {
            assert(expected[i] == len);
        }
        lemma_no_length_complaints(reference, len, rest);
        assert(expected[expected.len() - 1] == len);
    }
}

/// What is expected of a byte string that is referred to is what was written.
spec fn expected_well(
    blobs: Map<Seq<char>, Seq<u8>>,
    known: Map<Seq<char>, Seq<u64>>,
    name: Seq<char>,
) -> bool {
    &&& blobs.contains_key(name)
    &&& values::blob_name(blobs[name]) == name
    &&& forall|i: int| 0 <= i < known[name].len() ==> (#[trigger] known[name][i]) == blobs[name].len()
}

proof fn lemma_no_blobs_complaints(
    blobs: Map<Seq<char>, Seq<u8>>,
    reads: Map<Seq<char>, BlobReadView>,
    known: Map<Seq<char>, Seq<u64>>,
    names: Seq<Seq<char>>,
)
    requires
        reads_back(blobs, reads),
        forall|i: int| 0 <= i < names.len() ==> expected_well(blobs, known, #[trigger] names[i]),
    ensures
        doctor::blobs_complaints(known, reads, names) == Seq::<Seq<char>>::empty(),
    decreases names.len(),
{
    if names.len() > 0 {
        let rest = names.drop_last();
        assert forall|i: int| 0 <= i < rest.len() implies expected_well(
            blobs,
            known,
            #[trigger] rest[i],
        ) by {
            assert(rest[i] == names[i]);
        }
        lemma_no_blobs_complaints(blobs, reads, known, rest);
        let name = names.last();
        assert(expected_well(blobs, known, names[names.len() - 1]));
        lemma_no_length_complaints(name, blobs[name].len(), known[name]);
    }
}

/// A repo that has just been stored is in order: nothing is wrong with its tables and with the
/// byte strings that were written for it.
pub proof fn law_stored_repo_is_healthy(
    state: Repo,
    blobs: Map<Seq<char>, Seq<u8>>,
    reads: Map<Seq<char>, BlobReadView>,
    listing: Seq<BlobFileView>,
)
    requires
        repo::repo_ok(state),
        round_trip::storable(state),
        digests_have_their_length(state),
        round_trip::blobs_hold(state, blobs),
        reads_back(blobs, reads),
    ensures
        inspect::inspected(
            StoreStateView::Loaded(round_trip::stored_repo(state)),
            reads,
            EvidenceView::Rows(Seq::<EvidenceRowView>::empty(), Seq::<EvidenceRowView>::empty()),
            listing,
        ).report.errors == Seq::<Seq<char>>::empty(),
{
    let stored = round_trip::stored_repo(state);
    let lanes = text_map::listing(stored.lanes);
    let paths = text_map::listing(stored.files.dom());
    let list = doctor::store_ops(stored.files);
    let known = doctor::referenced(list);
    let names = text_map::listing(known.dom());
    text_map::lemma_listing_exists(state.lanes);
    assert(stored.files.dom() =~= state.files.dom());
    text_map::lemma_listing_exists(state.files.dom());
    assert forall|i: int| 0 <= i < lanes.len() implies types::user_lane(#[trigger] lanes[i]) by {
        assert(lanes.contains(lanes[i]));
    }
    lemma_no_lane_complaints(lanes);
    assert forall|i: int| 0 <= i < paths.len() implies state.files.contains_key(#[trigger] paths[i]) by {
        assert(paths.contains(paths[i]));
    }
    lemma_no_files_complaints(state, paths);
    lemma_files_stored_well(state, paths);
    lemma_referenced_finite(list);
    text_map::lemma_listing_exists(known.dom());
    assert forall|i: int| 0 <= i < list.len() implies (#[trigger] list[i]).inserted_len <= u64::MAX by {
        lemma_length_fits(state, list[i]);
    }
    assert forall|n: int| 0 <= n < names.len() implies expected_well(blobs, known, #[trigger] names[n]) by {
        let name = names[n];
        assert(names.contains(name));
        assert(known.contains_key(name));
        inspect::law_referenced(list, name, 0);
        let at = choose|i: int| 0 <= i < list.len() && (#[trigger] list[i]).inserted_blob == name;
        lemma_blob_held(state, blobs, list[at]);
        assert forall|i: int| 0 <= i < known[name].len() implies (#[trigger] known[name][i])
            == blobs[name].len() by {
            let len = known[name][i];
            inspect::law_referenced(list, name, len);
            assert(doctor::known_lengths(known, name).contains(len));
            let k = choose|k: int|
                0 <= k < list.len() && (#[trigger] list[k]).inserted_blob == name
                    && list[k].inserted_len == len;
            lemma_blob_held(state, blobs, list[k]);
        }
    }
    lemma_no_blobs_complaints(blobs, reads, known, names);
}

pub(crate) proof fn lemma_referenced_finite(list: Seq<StoredOpView>)
    ensures
        doctor::referenced(list).dom().finite(),
    decreases list.len(),
{
    if list.len() > 0 {
        lemma_referenced_finite(list.drop_last());
    }
}

proof fn lemma_length_fits(state: Repo, op: StoredOpView)
    requires
        round_trip::storable(state),
        stored_well(state, op),
    ensures
        op.inserted_len <= u64::MAX,
{
    let bytes = choose|bytes: Seq<u8>| #[trigger]
        round_trip::inserts(state, bytes) && op.inserted_blob == values::blob_name(bytes)
            && op.inserted_len == bytes.len();
    let (p, l, i) = choose|p: Seq<char>, l: Seq<char>, i: int|
        #[trigger] round_trip::inserted_at(state, p, l, i, bytes);
    assert(round_trip::file_fits(p, state.files[p]));
    assert(round_trip::entry_fits(state.files[p].lanes[l]));
    let own = state.files[p].lanes[l]->Present_0;
    assert(round_trip::op_fits(own[i]));
}

proof fn lemma_blob_held(state: Repo, blobs: Map<Seq<char>, Seq<u8>>, op: StoredOpView)
    requires
        round_trip::blobs_hold(state, blobs),
        stored_well(state, op),
    ensures
        blobs.contains_key(op.inserted_blob),
        values::blob_name(blobs[op.inserted_blob]) == op.inserted_blob,
        blobs[op.inserted_blob].len() == op.inserted_len,
{
    let bytes = choose|bytes: Seq<u8>| #[trigger]
        round_trip::inserts(state, bytes) && op.inserted_blob == values::blob_name(bytes)
            && op.inserted_len == bytes.len();
    let (p, l, i) = choose|p: Seq<char>, l: Seq<char>, i: int|
        #[trigger] round_trip::inserted_at(state, p, l, i, bytes);
    assert(state.files[p].lanes.contains_key(l));
    assert(round_trip::blobs_hold_entry(state.files[p].lanes[l], blobs));
    let own = state.files[p].lanes[l]->Present_0;
    assert(own[i].inserted == bytes);
}

} // verus!
