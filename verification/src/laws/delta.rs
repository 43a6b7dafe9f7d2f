//! Laws of delta patches.

use vstd::prelude::*;

use crate::delta::{
    locations, new_sweep, patch_counts, DeltaPatch, PatchApplicator, Removal, StaleSweep,
};
use crate::error::DistError;
use crate::hash::hash_text;
use crate::manifest::{texts, Manifest};
use crate::paths::chunk_path;
use crate::ratio::Ratio;
use crate::sorting::lists_ascending;
use crate::text::decimal;

verus! {

/// A patch goes chunk by chunk: what both versions have with the same digest is unchanged;
/// what the new one has otherwise is changed, with its new digest; what only the old one has
/// is deleted. It names both versions and the file.
pub proof fn patch_compares_digests(old: &Manifest, new: &Manifest, r: DeltaPatch)
    requires
        call_ensures(DeltaPatch::compute, (old, new), r),
        new.chunk_count <= new.chunk_hashes@.len(),
        old.chunk_count <= old.chunk_hashes@.len(),
    ensures
        r.old_version@ == old.version@,
        r.new_version@ == new.version@,
        r.file_id@ == new.file_id@,
        forall|i: u32| #[trigger]
            r.unchanged@.contains(i) <==> i < old.chunk_count && i < new.chunk_count
                && old.chunk_hashes@[i as int]@ == new.chunk_hashes@[i as int]@,
        forall|i: u32| #[trigger]
            r.changed@.contains_key(i) <==> i < new.chunk_count && (i >= old.chunk_count
                || old.chunk_hashes@[i as int]@ != new.chunk_hashes@[i as int]@),
        forall|i: u32| #[trigger]
            r.changed@.contains_key(i) ==> r.changed@[i]@ == new.chunk_hashes@[i as int]@,
        forall|i: u32| #[trigger]
            r.deleted@.contains(i) <==> new.chunk_count <= i && i < old.chunk_count,
{
    assert(r@.old_version == r.old_version@);
    assert forall|i: u32| #[trigger] r.changed@.contains_key(i) <==> i < new.chunk_count && (i
        >= old.chunk_count || old.chunk_hashes@[i as int]@ != new.chunk_hashes@[i as int]@) by {
        assert(r.changed@.contains_key(i) <==> r@.changed.contains_key(i));
        assert(i < new.chunk_count ==> new@.chunk_hashes[i as int] == new.chunk_hashes@[i as int]@);
        assert(i < old.chunk_count ==> old@.chunk_hashes[i as int] == old.chunk_hashes@[i as int]@);
    }
    assert forall|i: u32| #[trigger] r.changed@.contains_key(i) implies r.changed@[i]@
        == new.chunk_hashes@[i as int]@ by {
        assert(r@.changed.contains_key(i));
        assert(r@.changed[i] == r.changed@[i]@);
    }
    assert forall|i: u32| #[trigger] r.unchanged@.contains(i) <==> i < old.chunk_count && i
        < new.chunk_count && old.chunk_hashes@[i as int]@ == new.chunk_hashes@[i as int]@ by {
        assert(r@.unchanged.contains(i) <==> r.unchanged@.contains(i));
        assert(i < new.chunk_count ==> new@.chunk_hashes[i as int] == new.chunk_hashes@[i as int]@);
        assert(i < old.chunk_count ==> old@.chunk_hashes[i as int] == old.chunk_hashes@[i as int]@);
    }
    assert forall|i: u32| #[trigger] r.deleted@.contains(i) <==> new.chunk_count <= i && i
        < old.chunk_count by {
        assert(r@.deleted.contains(i) <==> r.deleted@.contains(i));
    }
}

/// The chunks to fetch are the changed ones, in ascending order.
pub proof fn fetched_chunks_are_the_changed(p: &DeltaPatch, r: Vec<u32>)
    requires
        call_ensures(DeltaPatch::chunks_to_fetch, (p,), r),
    ensures
        forall|i: int, j: int| 0 <= i < j < r@.len() ==> r@[i] < r@[j],
        forall|c: u32| #[trigger] r@.contains(c) <==> p.changed@.contains_key(c),
{
    assert forall|c: u32| #[trigger] r@.contains(c) <==> p.changed@.contains_key(c) by {
        assert(r@.contains(c) <==> p@.changed.dom().contains(c));
    }
}

/// The chunks to delete are the deleted ones, in ascending order.
pub proof fn removed_chunks_are_the_deleted(p: &DeltaPatch, r: Vec<u32>)
    requires
        call_ensures(DeltaPatch::chunks_to_delete, (p,), r),
    ensures
        forall|i: int, j: int| 0 <= i < j < r@.len() ==> r@[i] < r@[j],
        forall|c: u32| #[trigger] r@.contains(c) <==> p.deleted@.contains(c),
{
    assert forall|c: u32| #[trigger] r@.contains(c) <==> p.deleted@.contains(c) by {
        assert(p@.deleted.contains(c) <==> p.deleted@.contains(c));
    }
}

/// The chunks to keep are the unchanged ones, in ascending order.
pub proof fn kept_chunks_are_the_unchanged(p: &DeltaPatch, r: Vec<u32>)
    requires
        call_ensures(DeltaPatch::chunks_to_keep, (p,), r),
    ensures
        forall|i: int, j: int| 0 <= i < j < r@.len() ==> r@[i] < r@[j],
        forall|c: u32| #[trigger] r@.contains(c) <==> p.unchanged@.contains(c),
{
    assert forall|c: u32| #[trigger] r@.contains(c) <==> p.unchanged@.contains(c) by {
        assert(p@.unchanged.contains(c) <==> p.unchanged@.contains(c));
    }
}

/// A chunk needs fetching exactly if it changed, and may be overwritten exactly if it is not
/// unchanged.
pub proof fn only_changed_chunks_are_touched(p: &DeltaPatch, c: u32, fetch: bool, write: bool)
    requires
        call_ensures(DeltaPatch::needs_fetch, (p, c), fetch),
        call_ensures(DeltaPatch::validate_no_spurious_overwrites, (p, c), write),
    ensures
        fetch <==> p.changed@.contains_key(c),
        write <==> !p.unchanged@.contains(c),
{
    assert(p@.changed.contains_key(c) <==> p.changed@.contains_key(c));
    assert(p@.unchanged.contains(c) <==> p.unchanged@.contains(c));
}

/// A received chunk is accepted exactly if it changed and has its new digest; one that has
/// another is reported as a mismatch, and one that did not change as not expected.
pub proof fn patch_accepts_only_new_digests(
    p: &DeltaPatch,
    c: u32,
    data: &[u8],
    r: Result<(), DistError>,
)
    requires
        call_ensures(DeltaPatch::verify_chunk, (p, c, data), r),
    ensures
        r is Ok <==> p.changed@.contains_key(c) && hash_text(data@) == p.changed@[c]@,
        p.changed@.contains_key(c) && r is Err ==> {
            &&& r->Err_0 is HashMismatch
            &&& r->Err_0->index == c
            &&& r->Err_0->expected@ == p.changed@[c]@
            &&& r->Err_0->actual@ == hash_text(data@)
        },
        !p.changed@.contains_key(c) ==> r->Err_0 is Proto && r->Err_0->Proto_0@ == "chunk "@
            + decimal(c as nat) + " is not in the delta patch's changed set"@,
{
    assert(p@.changed.contains_key(c) <==> p.changed@.contains_key(c));
    if p.changed@.contains_key(c) {
        assert(p@.changed[c] == p.changed@[c]@);
    }
}

/// The totals count the three parts.
pub proof fn totals_count_the_parts(
    p: &DeltaPatch,
    changed: usize,
    unchanged: usize,
    deleted: usize,
)
    requires
        call_ensures(DeltaPatch::total_changed, (p,), changed),
        call_ensures(DeltaPatch::total_unchanged, (p,), unchanged),
        call_ensures(DeltaPatch::total_deleted, (p,), deleted),
    ensures
        changed == p.changed@.dom().len(),
        unchanged == p.unchanged@.len(),
        deleted == p.deleted@.len(),
{
    assert(p@.changed.dom() =~= p.changed@.dom());
    assert(p@.unchanged =~= p.unchanged@);
    assert(p@.deleted =~= p.deleted@);
}

/// The transfer reduction is the share of the unchanged chunks among all chunks of the patch,
/// in percent; all of it where there are none.
pub proof fn reduction_is_share_of_unchanged(p: &DeltaPatch, r: Ratio)
    requires
        call_ensures(DeltaPatch::transfer_reduction_pct, (p,), r),
    ensures
        r.den > 0,
        ({
            let total = p.changed@.dom().len() + p.unchanged@.len() + p.deleted@.len();
            &&& total == 0 ==> r.num == 100 * r.den
            &&& total > 0 ==> r.num * total == 100 * p.unchanged@.len() * r.den
        }),
{
    assert(p@.changed.dom() =~= p.changed@.dom());
    assert(p@.unchanged =~= p.unchanged@);
    assert(p@.deleted =~= p.deleted@);
    let total = p.changed@.dom().len() + p.unchanged@.len() + p.deleted@.len();
    if total > 0 {
        assert(r.num * total == 100 * p.unchanged@.len() * r.den) by (nonlinear_arith)
            requires
                r.num == p.unchanged@.len() * 100,
                r.den == total,
        ;
    }
}

/// The summary names both versions, the three totals and the reduction.
pub proof fn summary_names_totals(p: &DeltaPatch, reduction: &str, r: String)
    requires
        call_ensures(DeltaPatch::summary, (p, reduction), r),
    ensures
        r@ == "delta "@ + p.old_version@ + " → "@ + p.new_version@ + ": "@ + decimal(
            p.changed@.dom().len(),
        ) + " changed, "@ + decimal(p.unchanged@.len()) + " unchanged, "@ + decimal(
            p.deleted@.len(),
        ) + " deleted ("@ + reduction@ + "% transfer reduction)"@,
{
    assert(p@.changed.dom() =~= p.changed@.dom());
    assert(p@.unchanged =~= p.unchanged@);
    assert(p@.deleted =~= p.deleted@);
}

/// Looking at an unchanged chunk: it is listed as corrupt, behind those found before, exactly
/// if it could not be read or its content does not have the digest text of the manifest,
/// whatever its length; otherwise the list stays.
pub proof fn corrupt_chunk_is_listed(
    m: &Manifest,
    c: u32,
    data: Option<&[u8]>,
    list: &mut Vec<u32>,
)
    requires
        call_ensures(PatchApplicator::verify_unchanged, (m, c, data, list), ()),
        data is Some ==> c < m.chunk_hashes@.len(),
    ensures
        data is Some && hash_text(data->0@) == m.chunk_hashes@[c as int]@ ==> final(list)@
            == old(list)@,
        data is None || hash_text(data->0@) != m.chunk_hashes@[c as int]@ ==> final(list)@
            == old(list)@.push(c),
{
    if data is Some {
        assert(m@.chunk_hashes[c as int] == m.chunk_hashes@[c as int]@);
    }
}

/// The removal of stale chunks starts with nothing tried, and has one path for each deleted
/// chunk, in ascending order of the chunks: the one where that chunk is kept.
pub proof fn sweep_lists_deleted_chunks(a: &PatchApplicator, p: &DeltaPatch, r: StaleSweep)
    requires
        call_ensures(PatchApplicator::delete_stale_chunks, (a, p), r),
    ensures
        r.tried == 0,
        r.removed == 0,
        !r.failed,
        exists|stale: Seq<u32>|
            {
                &&& #[trigger] stale.len() == r.paths@.len()
                &&& forall|i: int, j: int| 0 <= i < j < stale.len() ==> stale[i] < stale[j]
                &&& forall|c: u32| #[trigger] stale.contains(c) <==> p.deleted@.contains(c)
                &&& forall|i: int, path: String|
                    0 <= i < stale.len() && #[trigger] call_ensures(
                        PatchApplicator::chunk_path,
                        (a, stale[i]),
                        path,
                    ) ==> r.paths@[i]@ == path@
            },
{
    let stale = choose|stale: Seq<u32>| #[trigger]
        lists_ascending(stale, p@.deleted) && r@ == new_sweep(
            locations(a.data_dir@, a.file_id@, stale),
        );
    assert(r@.tried == r.tried && r@.removed == r.removed && r@.failed == r.failed);
    assert(texts(r.paths@) == locations(a.data_dir@, a.file_id@, stale));
    assert(texts(r.paths@).len() == r.paths@.len());
    assert(stale.len() == r.paths@.len());
    assert forall|c: u32| #[trigger] stale.contains(c) <==> p.deleted@.contains(c) by {
        assert(p@.deleted.contains(c) <==> p.deleted@.contains(c));
    }
    assert forall|i: int, path: String|
        0 <= i < stale.len() && #[trigger] call_ensures(
            PatchApplicator::chunk_path,
            (a, stale[i]),
            path,
        ) implies r.paths@[i]@ == path@ by {
        assert(texts(r.paths@)[i] == r.paths@[i]@);
    }
}

/// The next file of a sweep is the first that was not tried; there is none once all were, or
/// once one could not be removed.
pub proof fn sweep_goes_on_in_order(s: &StaleSweep, r: Option<String>)
    requires
        call_ensures(StaleSweep::next, (s,), r),
    ensures
        r is Some <==> !s.failed && s.tried < s.paths@.len(),
        r is Some ==> r->0@ == s.paths@[s.tried as int]@,
{
    assert(s@.paths.len() == s.paths@.len());
    if s.tried < s.paths@.len() {
        assert(s@.paths[s.tried as int] == s.paths@[s.tried as int]@);
    }
}

/// Every removal counts as tried; one that removed a file counts as removed, and one that
/// failed ends the sweep. The paths stay.
pub proof fn sweep_counts_removals(s: &mut StaleSweep, outcome: Removal)
    requires
        call_ensures(StaleSweep::record, (s, outcome), ()),
    ensures
        final(s).tried == old(s).tried + 1,
        outcome is Removed ==> final(s).removed == old(s).removed + 1,
        !(outcome is Removed) ==> final(s).removed == old(s).removed,
        final(s).failed <==> outcome is Failed,
        final(s).paths@.len() == old(s).paths@.len(),
        forall|i: int|
            0 <= i < old(s).paths@.len() ==> (#[trigger] final(s).paths@[i])@
                == old(s).paths@[i]@,
{
    assert(final(s)@.tried == final(s).tried && old(s)@.tried == old(s).tried);
    assert(final(s)@.removed == final(s).removed && old(s)@.removed == old(s).removed);
    assert(final(s)@.failed == final(s).failed);
    assert(final(s)@.paths.len() == final(s).paths@.len());
    assert(old(s)@.paths.len() == old(s).paths@.len());
    assert forall|i: int| 0 <= i < old(s).paths@.len() implies (#[trigger] final(s).paths@[i])@
        == old(s).paths@[i]@ by {
        assert(final(s)@.paths[i] == final(s).paths@[i]@);
        assert(old(s)@.paths[i] == old(s).paths@[i]@);
    }
}

/// An applicator keeps a chunk where a download stores it: below its directory, under the
/// name of its file.
pub proof fn applicator_keeps_chunks_in_place(
    dir: String,
    place: &str,
    file_id: &str,
    a: PatchApplicator,
    c: u32,
    r: String,
    stored: String,
)
    requires
        call_ensures(PatchApplicator::new, (dir, file_id), a),
        call_ensures(PatchApplicator::chunk_path, (&a, c), r),
        place@ == dir@,
        call_ensures(chunk_path, (place, file_id, c), stored),
    ensures
        r@ == stored@,
{
}

/// The parts of a patch account for every chunk: the changed and the unchanged are together
/// as many as the new version has, and the deleted those that the old one has beyond it.
pub proof fn parts_account_for_all_chunks(old: &Manifest, new: &Manifest, r: DeltaPatch)
    requires
        call_ensures(DeltaPatch::compute, (old, new), r),
    ensures
        r.changed@.dom().len() + r.unchanged@.len() == new.chunk_count,
        r.deleted@.len() == if old.chunk_count > new.chunk_count {
            old.chunk_count - new.chunk_count
        } else {
            0
        },
{
    patch_counts(old@, new@);
    assert(r@.changed.dom() =~= r.changed@.dom());
    assert(r@.unchanged =~= r.unchanged@);
    assert(r@.deleted =~= r.deleted@);
}

/// A copy of a patch has the same parts.
pub proof fn copied_patch_has_same_parts(p: &DeltaPatch, r: DeltaPatch)
    requires
        call_ensures(<DeltaPatch as Clone>::clone, (p,), r),
    ensures
        r.old_version@ == p.old_version@,
        r.new_version@ == p.new_version@,
        r.file_id@ == p.file_id@,
        r.unchanged@ == p.unchanged@,
        r.deleted@ == p.deleted@,
        r.changed@.dom() == p.changed@.dom(),
        forall|c: u32| #[trigger] p.changed@.contains_key(c) ==> r.changed@[c]@ == p.changed@[c]@,
{
    assert(r@.old_version == r.old_version@);
    assert(r@.changed.dom() =~= r.changed@.dom());
    assert(p@.changed.dom() =~= p.changed@.dom());
    assert forall|c: u32| #[trigger] p.changed@.contains_key(c) implies r.changed@[c]@
        == p.changed@[c]@ by {
        assert(p@.changed.contains_key(c) && r@.changed.contains_key(c));
        assert(r@.changed[c] == p@.changed[c]);
    }
}

} // verus!
