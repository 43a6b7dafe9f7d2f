//! Delta patches: what changed between two versions of a model, chunk by chunk.

use std::collections::{HashMap, HashSet};
use vstd::prelude::*;
use vstd::string::*;

use crate::error::DistError;
use crate::hash::{check_digest, digest_verdict, hash_bytes, hash_text};
use crate::manifest::{chunk_data, manifest_of, texts, Manifest, ManifestView};
use crate::paths::{chunk_location, chunk_path, locations_of_one_file_are_distinct};
use crate::ratio::Ratio;
use crate::sorting::{lists_ascending, sort_distinct};
use crate::text::{decimal, push_decimal};

verus! {

/// The minimal set of chunk changes between two model versions. It is shipped to the nodes
/// at the start of an update job, so that they fetch only what changed.
#[derive(Debug)]
pub struct DeltaPatch {
    pub old_version: String,
    pub new_version: String,
    pub file_id: String,
    /// Chunks that both versions have, with identical digests. They need no fetching.
    pub unchanged: HashSet<u32>,
    /// Chunks that are new or have changed, with their new digest texts.
    pub changed: HashMap<u32, String>,
    /// Chunks that only the old version has. They are deleted locally.
    pub deleted: HashSet<u32>,
}

/// The content of a patch.
#[verifier::ext_equal]
pub struct PatchView {
    pub old_version: Seq<char>,
    pub new_version: Seq<char>,
    pub file_id: Seq<char>,
    pub unchanged: Set<u32>,
    pub changed: Map<u32, Seq<char>>,
    pub deleted: Set<u32>,
}

impl View for DeltaPatch {
    type V = PatchView;

    open spec fn view(&self) -> PatchView {
        PatchView {
            old_version: self.old_version@,
            new_version: self.new_version@,
            file_id: self.file_id@,
            unchanged: self.unchanged@,
            changed: self.changed@.map_values(|s: String| s@),
            deleted: self.deleted@,
        }
    }
}

/// Chunk `i` is the same in both versions.
pub open spec fn same_chunk(old: ManifestView, new: ManifestView, i: u32) -> bool {
    &&& i < old.chunk_count
    &&& i < new.chunk_count
    &&& old.chunk_hashes[i as int] == new.chunk_hashes[i as int]
}

/// The patch from one version to another.
pub open spec fn patch_between(old: ManifestView, new: ManifestView) -> PatchView {
    PatchView {
        old_version: old.version,
        new_version: new.version,
        file_id: new.file_id,
        unchanged: Set::new(|i: u32| same_chunk(old, new, i)),
        changed: Map::new(
            |i: u32| i < new.chunk_count && !same_chunk(old, new, i),
            |i: u32| new.chunk_hashes[i as int],
        ),
        deleted: Set::new(|i: u32| new.chunk_count <= i < old.chunk_count),
    }
}

/// The text of a patch summary, with `reduction` for the percentage.
pub open spec fn summary_text(patch: PatchView, reduction: Seq<char>) -> Seq<char> {
    "delta "@ + patch.old_version + " → "@ + patch.new_version + ": "@ + decimal(
        patch.changed.dom().len(),
    ) + " changed, "@ + decimal(patch.unchanged.len()) + " unchanged, "@ + decimal(
        patch.deleted.len(),
    ) + " deleted ("@ + reduction + "% transfer reduction)"@
}

fn listed_keys(map: &HashMap<u32, String>) -> (r: Vec<u32>)
    ensures
        r@.no_duplicates(),
        r@.to_set() == map@.dom(),
        r@.len() == map@.dom().len(),
{
    let mut out: Vec<u32> = Vec::new();
    for k in it: map.keys()
        invariant
            out@.len() == it.index(),
            out@ == it.seq().unref().take(it.index()),
            it.index() == it.seq().len() ==> out@ == it.seq().unref(),
    {
        out.push(*k);
    }
    out
}

fn listed_members(set: &HashSet<u32>) -> (r: Vec<u32>)
    ensures
        r@.no_duplicates(),
        r@.to_set() == set@,
        r@.len() == set@.len(),
{
    let mut out: Vec<u32> = Vec::new();
    for k in it: set.iter()
        invariant
            out@.len() == it.index(),
            out@ == it.seq().unref().take(it.index()),
            it.index() == it.seq().len() ==> out@ == it.seq().unref(),
    {
        out.push(*k);
    }
    out
}

fn copied_set(set: &HashSet<u32>) -> (r: HashSet<u32>)
    ensures
        r@ == set@,
{
    let members = listed_members(set);
    let mut out: HashSet<u32> = HashSet::new();
    let mut i: usize = 0;
    while i < members.len()
        invariant
            i <= members@.len(),
            out@ == members@.take(i as int).to_set(),
        decreases members@.len() - i,
    {
        out.insert(members[i]);
        i = i + 1;
        assert(members@.take(i as int) =~= members@.take(i - 1).push(members@[i - 1]));
        assert(out@ =~= members@.take(i as int).to_set()) by {
            broadcast use vstd::seq_lib::group_seq_properties;

        }
    }
    assert(members@.take(i as int) =~= members@);
    out
}

impl Clone for DeltaPatch {
    fn clone(&self) -> (r: Self)
        ensures
            r@ == self@,
    {
        let keys = listed_keys(&self.changed);
        let mut changed: HashMap<u32, String> = HashMap::new();
        let mut i: usize = 0;
        assert(changed@.dom() =~= keys@.take(0).to_set());
        while i < keys.len()
            invariant
                i <= keys@.len(),
                keys@.to_set() == self.changed@.dom(),
                changed@.dom() == keys@.take(i as int).to_set(),
                forall|k: u32| #[trigger]
                    changed@.contains_key(k) ==> self.changed@.contains_key(k) && changed@[k]@
                        == self.changed@[k]@,
            decreases keys@.len() - i,
        {
            assert(keys@.to_set().contains(keys@[i as int]));
            match self.changed.get(&keys[i]) {
                Some(text) => {
                    changed.insert(keys[i], text.clone());
                },
                None => {
                    assert(false);
                },
            }
            i = i + 1;
            assert(keys@.take(i as int) =~= keys@.take(i - 1).push(keys@[i - 1]));
            assert(changed@.dom() =~= keys@.take(i as int).to_set()) by {
                broadcast use vstd::seq_lib::group_seq_properties;

            }
        }
        assert(keys@.take(i as int) =~= keys@);
        let r = DeltaPatch {
            old_version: self.old_version.clone(),
            new_version: self.new_version.clone(),
            file_id: self.file_id.clone(),
            unchanged: copied_set(&self.unchanged),
            changed,
            deleted: copied_set(&self.deleted),
        };
        assert(r@.changed =~= self@.changed);
        r
    }
}

impl DeltaPatch {
    /// The difference between two manifests of the same file.
    pub fn compute(old: &Manifest, new: &Manifest) -> (r: Self)
        requires
            old@.file_id == new@.file_id,
            new.chunk_hashes@.len() >= new.chunk_count,
            old.chunk_hashes@.len() >= old.chunk_count || old.chunk_hashes@.len()
                >= new.chunk_count,
        ensures
            r@ == patch_between(old@, new@),
    {
        let mut unchanged: HashSet<u32> = HashSet::new();
        let mut changed: HashMap<u32, String> = HashMap::new();
        let mut deleted: HashSet<u32> = HashSet::new();
        let old_n: u32 = old.chunk_count;
        let new_n: u32 = new.chunk_count;
        let mut i: u32 = 0;
        while i < new_n
            invariant
                i <= new_n,
                old_n == old.chunk_count,
                new_n == new.chunk_count,
                new.chunk_hashes@.len() >= new_n,
                old.chunk_hashes@.len() >= old_n || old.chunk_hashes@.len() >= new_n,
                unchanged@ == Set::new(|j: u32| j < i && same_chunk(old@, new@, j)),
                changed@.dom() == Set::new(
                    |j: u32| j < i && j < new_n && !same_chunk(old@, new@, j),
                ),
                forall|j: u32| #[trigger]
                    changed@.contains_key(j) ==> changed@[j]@ == new@.chunk_hashes[j as int],
            decreases new_n - i,
        {
            let p: usize = i as usize;
            if i < old_n && old.chunk_hashes[p] == new.chunk_hashes[p] {
                unchanged.insert(i);
            } else {
                changed.insert(i, new.chunk_hashes[p].clone());
            }
            i = i + 1;
            assert(unchanged@ =~= Set::new(|j: u32| j < i && same_chunk(old@, new@, j)));
            assert(changed@.dom() =~= Set::new(
                |j: u32| j < i && j < new_n && !same_chunk(old@, new@, j),
            ));
        }
        let mut d: u32 = new_n;
        while d < old_n
            invariant
                new_n <= d,
                old_n >= new_n ==> d <= old_n,
                deleted@ == Set::new(|j: u32| new_n <= j < d && j < old_n),
            decreases old_n - d,
        {
            deleted.insert(d);
            d = d + 1;
            assert(deleted@ =~= Set::new(|j: u32| new_n <= j < d && j < old_n));
        }
        let patch = DeltaPatch {
            old_version: old.version.clone(),
            new_version: new.version.clone(),
            file_id: new.file_id.clone(),
            unchanged,
            changed,
            deleted,
        };
        assert(patch@ =~= patch_between(old@, new@));
        patch
    }

    /// The chunks that a node must download, in ascending order.
    pub fn chunks_to_fetch(&self) -> (r: Vec<u32>)
        ensures
            lists_ascending(r@, self@.changed.dom()),
    {
        let keys = listed_keys(&self.changed);
        let r = sort_distinct(&keys);
        assert(self@.changed.dom() =~= self.changed@.dom());
        r
    }

    /// The chunks to delete locally, in ascending order.
    pub fn chunks_to_delete(&self) -> (r: Vec<u32>)
        ensures
            lists_ascending(r@, self@.deleted),
    {
        let members = listed_members(&self.deleted);
        sort_distinct(&members)
    }

    /// The chunks that stay as they are, in ascending order.
    pub fn chunks_to_keep(&self) -> (r: Vec<u32>)
        ensures
            lists_ascending(r@, self@.unchanged),
    {
        let members = listed_members(&self.unchanged);
        sort_distinct(&members)
    }

    /// Whether a chunk must be fetched.
    pub fn needs_fetch(&self, chunk_index: u32) -> (r: bool)
        ensures
            r == self@.changed.contains_key(chunk_index),
    {
        self.changed.contains_key(&chunk_index)
    }

    /// Whether a chunk may be overwritten: not if it is unchanged.
    pub fn validate_no_spurious_overwrites(&self, chunk_idx: u32) -> (r: bool)
        ensures
            r == !self@.unchanged.contains(chunk_idx),
    {
        !self.unchanged.contains(&chunk_idx)
    }

    /// Checks a received chunk against the digest that the patch has for it.
    pub fn verify_chunk(&self, chunk_index: u32, data: &[u8]) -> (r: Result<(), DistError>)
        ensures
            if self@.changed.contains_key(chunk_index) {
                digest_verdict(r, chunk_index, self@.changed[chunk_index], hash_text(data@))
            } else {
                r matches Err(DistError::Proto(text)) && text@ == "chunk "@ + decimal(
                    chunk_index as nat,
                ) + " is not in the delta patch's changed set"@
            },
    {
        match self.changed.get(&chunk_index) {
            None => {
                let mut text = String::new();
                text.append("chunk ");
                push_decimal(&mut text, chunk_index as u64);
                text.append(" is not in the delta patch's changed set");
                assert(text@ =~= "chunk "@ + decimal(chunk_index as nat)
                    + " is not in the delta patch's changed set"@);
                Err(DistError::Proto(text))
            },
            Some(expected) => {
                let actual = hash_bytes(data);
                check_digest(chunk_index, expected, actual)
            },
        }
    }

    /// How many chunks changed.
    pub fn total_changed(&self) -> (r: usize)
        ensures
            r == self@.changed.dom().len(),
    {
        assert(self@.changed.dom() =~= self.changed@.dom());
        self.changed.len()
    }

    /// How many chunks stay as they are.
    pub fn total_unchanged(&self) -> (r: usize)
        ensures
            r == self@.unchanged.len(),
    {
        self.unchanged.len()
    }

    /// How many chunks are deleted.
    pub fn total_deleted(&self) -> (r: usize)
        ensures
            r == self@.deleted.len(),
    {
        self.deleted.len()
    }

    /// A summary for people. `reduction` is the text of the transfer reduction percentage.
    pub fn summary(&self, reduction: &str) -> (r: String)
        ensures
            r@ == summary_text(self@, reduction@),
    {
        let mut out = String::new();
        out.append("delta ");
        out.append(self.old_version.as_str());
        out.append(" → ");
        out.append(self.new_version.as_str());
        out.append(": ");
        push_decimal(&mut out, self.total_changed() as u64);
        out.append(" changed, ");
        push_decimal(&mut out, self.total_unchanged() as u64);
        out.append(" unchanged, ");
        push_decimal(&mut out, self.total_deleted() as u64);
        out.append(" deleted (");
        out.append(reduction);
        out.append("% transfer reduction)");
        assert(out@ =~= summary_text(self@, reduction@));
        out
    }

    /// The percentage of the chunks that need no download; 100 where there are no chunks.
    pub fn transfer_reduction_pct(&self) -> (r: Ratio)
        ensures
            ({
                let total = self@.changed.dom().len() + self@.unchanged.len()
                    + self@.deleted.len();
                if total == 0 {
                    r == (Ratio { num: 100, den: 1 })
                } else {
                    r.num == self@.unchanged.len() * 100 && r.den == total
                }
            }),
    {
        let kept: u128 = self.total_unchanged() as u128;
        let total: u128 = self.total_changed() as u128 + kept + self.total_deleted() as u128;
        if total == 0 {
            return Ratio { num: 100, den: 1 };
        }
        Ratio { num: kept * 100, den: total }
    }
}

/// The digests of the chunks that a node has when it holds a version.
pub open spec fn store_of(m: ManifestView) -> Map<u32, Seq<char>> {
    Map::new(|i: u32| i < m.chunk_count, |i: u32| m.chunk_hashes[i as int])
}

/// What a node has after a patch: the deleted chunks are gone, the changed ones fetched.
pub open spec fn patched(store: Map<u32, Seq<char>>, patch: PatchView) -> Map<u32, Seq<char>> {
    Map::new(
        |i: u32|
            patch.changed.contains_key(i) || (store.contains_key(i) && !patch.deleted.contains(i)),
        |i: u32|
            if patch.changed.contains_key(i) {
                patch.changed[i]
            } else {
                store[i]
            },
    )
}

/// A patch takes a node that holds the old version to the new one.
pub proof fn patch_leads_to_new_version(old: ManifestView, new: ManifestView)
    ensures
        patched(store_of(old), patch_between(old, new)) == store_of(new),
{
    assert(patched(store_of(old), patch_between(old, new)) =~= store_of(new));
}

/// Every chunk of either version is in exactly one part of the patch, and nothing else is
/// in any. So what is fetched is never what is unchanged.
pub proof fn patch_parts_are_disjoint(old: ManifestView, new: ManifestView, i: u32)
    ensures
        ({
            let patch = patch_between(old, new);
            let kept = patch.unchanged.contains(i);
            let fetched = patch.changed.contains_key(i);
            let dropped = patch.deleted.contains(i);
            &&& !(kept && fetched) && !(kept && dropped) && !(fetched && dropped)
            &&& (kept || fetched || dropped) <==> (i < old.chunk_count || i < new.chunk_count)
        }),
{
}

spec fn kept_below(old: ManifestView, new: ManifestView, n: int) -> Set<u32> {
    Set::new(|i: u32| i < n && same_chunk(old, new, i))
}

spec fn fetched_below(old: ManifestView, new: ManifestView, n: int) -> Set<u32> {
    Set::new(|i: u32| i < n && !same_chunk(old, new, i))
}

proof fn lemma_split_counts(old: ManifestView, new: ManifestView, n: int)
    requires
        0 <= n <= u32::MAX,
    ensures
        kept_below(old, new, n).finite(),
        fetched_below(old, new, n).finite(),
        kept_below(old, new, n).len() + fetched_below(old, new, n).len() == n,
    decreases n,
{
    if n == 0 {
        assert(kept_below(old, new, 0) =~= Set::empty());
        assert(fetched_below(old, new, 0) =~= Set::empty());
    } else {
        lemma_split_counts(old, new, n - 1);
        let last = (n - 1) as u32;
        if same_chunk(old, new, last) {
            assert(kept_below(old, new, n) =~= kept_below(old, new, n - 1).insert(last));
            assert(fetched_below(old, new, n) =~= fetched_below(old, new, n - 1));
        } else {
            assert(kept_below(old, new, n) =~= kept_below(old, new, n - 1));
            assert(fetched_below(old, new, n) =~= fetched_below(old, new, n - 1).insert(last));
        }
    }
}

proof fn lemma_range_count(lo: u32, hi: u32)
    ensures
        Set::new(|i: u32| lo <= i < hi).finite(),
        Set::new(|i: u32| lo <= i < hi).len() == if lo < hi {
            hi - lo
        } else {
            0
        },
    decreases hi,
{
    let range = Set::new(|i: u32| lo <= i < hi);
    if hi <= lo {
        assert(range =~= Set::empty());
    } else {
        let prev = (hi - 1) as u32;
        lemma_range_count(lo, prev);
        assert(range =~= Set::new(|i: u32| lo <= i < prev).insert(prev));
    }
}

/// The patch accounts for every chunk: those fetched and those kept are together the chunks
/// of the new version, and those deleted are what the old version had beyond it.
pub proof fn patch_counts(old: ManifestView, new: ManifestView)
    ensures
        ({
            let patch = patch_between(old, new);
            &&& patch.changed.dom().len() + patch.unchanged.len() == new.chunk_count
            &&& patch.deleted.len() == if old.chunk_count > new.chunk_count {
                old.chunk_count - new.chunk_count
            } else {
                0
            }
        }),
{
    let patch = patch_between(old, new);
    let n = new.chunk_count as int;
    lemma_split_counts(old, new, n);
    assert(patch.unchanged =~= kept_below(old, new, n));
    assert(patch.changed.dom() =~= fetched_below(old, new, n));
    lemma_range_count(new.chunk_count, old.chunk_count);
}

/// Between two versions with the same chunks nothing is fetched and nothing deleted: the
/// whole transfer is saved.
pub proof fn same_content_needs_no_transfer(old: ManifestView, new: ManifestView)
    requires
        old.chunk_count == new.chunk_count,
        old.chunk_hashes == new.chunk_hashes,
    ensures
        patch_between(old, new).changed == Map::<u32, Seq<char>>::empty(),
        patch_between(old, new).deleted == Set::<u32>::empty(),
        patch_between(old, new).unchanged.len() == new.chunk_count,
{
    let patch = patch_between(old, new);
    assert(patch.changed =~= Map::<u32, Seq<char>>::empty());
    assert(patch.changed.dom() =~= Set::<u32>::empty());
    assert(patch.deleted =~= Set::<u32>::empty());
    patch_counts(old, new);
}

/// A patch to the manifest of a file has, for each chunk to fetch, the digest text of the
/// chunk's content: the chunks of the new file pass its check.
pub proof fn patch_accepts_new_chunks(
    old: ManifestView,
    file_id: Seq<char>,
    version: Seq<char>,
    data: Seq<u8>,
    chunk_size: u64,
    i: u32,
)
    requires
        chunk_size > 0,
        patch_between(old, manifest_of(file_id, version, data, chunk_size)).changed.contains_key(i),
    ensures
        patch_between(old, manifest_of(file_id, version, data, chunk_size)).changed[i]
            == hash_text(chunk_data(data, i as int, chunk_size as int)),
{
}

/// How an attempt to remove a file ended.
#[derive(Debug, Clone, Copy, PartialEq, Eq, Structural)]
pub enum Removal {
    Removed,
    Missing,
    Failed,
}

/// The removal of stale chunks, in progress: the files to remove, how many were tried, how
/// many of these were there, and whether one could not be removed.
#[derive(Debug)]
pub struct StaleSweep {
    pub paths: Vec<String>,
    pub tried: usize,
    pub removed: usize,
    pub failed: bool,
}

/// The content of a sweep.
#[verifier::ext_equal]
pub struct SweepView {
    pub paths: Seq<Seq<char>>,
    pub tried: int,
    pub removed: int,
    pub failed: bool,
}

impl View for StaleSweep {
    type V = SweepView;

    open spec fn view(&self) -> SweepView {
        SweepView {
            paths: texts(self.paths@),
            tried: self.tried as int,
            removed: self.removed as int,
            failed: self.failed,
        }
    }
}

/// A sweep of which nothing has been done yet.
pub open spec fn new_sweep(paths: Seq<Seq<char>>) -> SweepView {
    SweepView { paths, tried: 0, removed: 0, failed: false }
}

impl SweepView {
    /// The counts agree with the list of files.
    pub open spec fn valid(self) -> bool {
        0 <= self.removed <= self.tried <= self.paths.len()
    }

    /// The file to remove next: the first that was not tried, unless one could not be
    /// removed.
    pub open spec fn next(self) -> Option<Seq<char>> {
        if !self.failed && self.tried < self.paths.len() {
            Some(self.paths[self.tried])
        } else {
            None
        }
    }

    /// The sweep after the removal of the next file ended. A file that is not there counts
    /// for nothing.
    pub open spec fn after(self, outcome: Removal) -> SweepView {
        SweepView {
            paths: self.paths,
            tried: self.tried + 1,
            removed: self.removed + if outcome == Removal::Removed {
                1int
            } else {
                0
            },
            failed: outcome == Removal::Failed,
        }
    }

    /// The sweep after a number of removals.
    pub open spec fn after_all(self, outcomes: Seq<Removal>) -> SweepView
        decreases outcomes.len(),
    {
        if outcomes.len() == 0 {
            self
        } else {
            self.after_all(outcomes.drop_last()).after(outcomes.last())
        }
    }
}

impl StaleSweep {
    /// The next file to remove, if there is one.
    pub fn next(&self) -> (r: Option<String>)
        ensures
            match r {
                Some(path) => self@.next() == Some(path@),
                None => self@.next() is None,
            },
    {
        if !self.failed && self.tried < self.paths.len() {
            Some(self.paths[self.tried].clone())
        } else {
            None
        }
    }

    /// Takes note of how the removal of the next file ended.
    pub fn record(&mut self, outcome: Removal)
        requires
            old(self)@.valid(),
            old(self)@.next() is Some,
        ensures
            final(self)@ == old(self)@.after(outcome),
            final(self)@.valid(),
    {
        assert(self.tried < self.paths.len());
        self.tried = self.tried + 1;
        match outcome {
            Removal::Removed => {
                self.removed = self.removed + 1;
            },
            Removal::Missing => {},
            Removal::Failed => {
                self.failed = true;
            },
        }
    }
}

/// How many removals removed a file.
pub open spec fn removals(outcomes: Seq<Removal>) -> nat
    decreases outcomes.len(),
{
    if outcomes.len() == 0 {
        0
    } else {
        removals(outcomes.drop_last()) + if outcomes.last() == Removal::Removed {
            1nat
        } else {
            0nat
        }
    }
}

/// A whole sweep: as long as none fails, the files are tried one after the other in the
/// order of the list, each once, until all were tried; the sweep has then counted the
/// removals that removed a file. Behind one that fails nothing more is tried.
pub proof fn sweep_tries_each_file_once(paths: Seq<Seq<char>>, outcomes: Seq<Removal>)
    requires
        outcomes.len() <= paths.len(),
        forall|j: int| 0 <= j < outcomes.len() - 1 ==> outcomes[j] != Removal::Failed,
    ensures
        ({
            let end = new_sweep(paths).after_all(outcomes);
            &&& end.valid()
            &&& end.paths == paths
            &&& end.tried == outcomes.len()
            &&& end.removed == removals(outcomes)
            &&& end.failed <==> outcomes.len() > 0 && outcomes.last() == Removal::Failed
            &&& end.next() is None <==> end.failed || outcomes.len() == paths.len()
        }),
        forall|j: int|
            0 <= j < outcomes.len() ==> (#[trigger] new_sweep(paths).after_all(
                outcomes.take(j),
            )).next() == Some(paths[j]),
    decreases outcomes.len(),
{
    if outcomes.len() > 0 {
        let front = outcomes.drop_last();
        assert forall|j: int| 0 <= j < front.len() - 1 implies front[j] != Removal::Failed by {
            assert(outcomes[j] != Removal::Failed);
        }
        sweep_tries_each_file_once(paths, front);
        if front.len() > 0 {
            assert(front.last() == outcomes[front.len() - 1]);
        }
        assert forall|j: int| 0 <= j < outcomes.len() implies (
        #[trigger] new_sweep(paths).after_all(outcomes.take(j))).next() == Some(paths[j]) by {
            if j < front.len() {
                assert(outcomes.take(j) =~= front.take(j));
            } else {
                assert(outcomes.take(j) =~= front);
            }
        }
    }
}

/// What removing a file comes to where nothing fails: a file that is there is removed.
pub open spec fn removal_on(disk: Map<Seq<char>, Seq<u8>>, path: Seq<char>) -> Removal {
    if disk.contains_key(path) {
        Removal::Removed
    } else {
        Removal::Missing
    }
}

/// The files that are left when those of a list have been removed, one after the other.
pub open spec fn disk_after(disk: Map<Seq<char>, Seq<u8>>, paths: Seq<Seq<char>>) -> Map<
    Seq<char>,
    Seq<u8>,
>
    decreases paths.len(),
{
    if paths.len() == 0 {
        disk
    } else {
        disk_after(disk, paths.drop_last()).remove(paths.last())
    }
}

/// How these removals end.
pub open spec fn removals_on(disk: Map<Seq<char>, Seq<u8>>, paths: Seq<Seq<char>>) -> Seq<Removal>
    decreases paths.len(),
{
    if paths.len() == 0 {
        Seq::empty()
    } else {
        let front = paths.drop_last();
        removals_on(disk, front).push(removal_on(disk_after(disk, front), paths.last()))
    }
}

/// Where the chunks of a list are kept.
pub open spec fn locations(dir: Seq<char>, file_id: Seq<char>, chunks: Seq<u32>) -> Seq<
    Seq<char>,
> {
    chunks.map_values(|i: u32| chunk_location(dir, file_id, i))
}

proof fn lemma_disk_after(disk: Map<Seq<char>, Seq<u8>>, paths: Seq<Seq<char>>)
    ensures
        forall|p: Seq<char>| #[trigger]
            disk_after(disk, paths).contains_key(p) <==> disk.contains_key(p) && !paths.contains(p),
        forall|p: Seq<char>| #[trigger]
            disk_after(disk, paths).contains_key(p) ==> disk_after(disk, paths)[p] == disk[p],
        removals_on(disk, paths).len() == paths.len(),
        forall|j: int|
            0 <= j < paths.len() ==> #[trigger] removals_on(disk, paths)[j] != Removal::Failed,
    decreases paths.len(),
{
    if paths.len() > 0 {
        let front = paths.drop_last();
        lemma_disk_after(disk, front);
        assert forall|p: Seq<char>| #[trigger]
            disk_after(disk, paths).contains_key(p) <==> disk.contains_key(p) && !paths.contains(
                p,
            ) by {
            assert(disk_after(disk, front).contains_key(p) <==> disk.contains_key(p)
                && !front.contains(p));
            if front.contains(p) {
                let i = choose|i: int| 0 <= i < front.len() && front[i] == p;
                assert(paths[i] == p);
            }
            if paths.contains(p) {
                let i = choose|i: int| 0 <= i < paths.len() && paths[i] == p;
                if i < front.len() {
                    assert(front[i] == p);
                }
            }
            if p == paths.last() {
                assert(paths[paths.len() - 1] == p);
            }
        }
        assert forall|p: Seq<char>| #[trigger]
            disk_after(disk, paths).contains_key(p) implies disk_after(disk, paths)[p]
            == disk[p] by {
            assert(disk_after(disk, front).contains_key(p));
        }
        assert forall|j: int| 0 <= j < paths.len() implies #[trigger] removals_on(disk, paths)[j]
            != Removal::Failed by {
            if j < front.len() {
                assert(removals_on(disk, paths)[j] == removals_on(disk, front)[j]);
            }
        }
    }
}

/// The members of `chunks` whose files are there.
pub open spec fn on_disk(
    dir: Seq<char>,
    file_id: Seq<char>,
    disk: Map<Seq<char>, Seq<u8>>,
    chunks: Set<u32>,
) -> Set<u32> {
    chunks.filter(|i: u32| disk.contains_key(chunk_location(dir, file_id, i)))
}

proof fn lemma_removal_count(
    dir: Seq<char>,
    file_id: Seq<char>,
    disk: Map<Seq<char>, Seq<u8>>,
    stale: Seq<u32>,
    chunks: Set<u32>,
)
    requires
        lists_ascending(stale, chunks),
    ensures
        on_disk(dir, file_id, disk, chunks).finite(),
        on_disk(dir, file_id, disk, chunks).len() == removals(
            removals_on(disk, locations(dir, file_id, stale)),
        ),
    decreases stale.len(),
{
    let paths = locations(dir, file_id, stale);
    let there = on_disk(dir, file_id, disk, chunks);
    if stale.len() == 0 {
        assert forall|i: u32| !there.contains(i) by {
            assert(!stale.contains(i));
        }
        assert(there =~= Set::empty());
    } else {
        let front = stale.drop_last();
        let last = stale.last();
        let rest = chunks.remove(last);
        assert forall|i: u32| #[trigger] front.contains(i) <==> rest.contains(i) by {
            if front.contains(i) {
                let p = choose|p: int| 0 <= p < front.len() && front[p] == i;
                assert(stale[p] == i);
                assert(stale.contains(i));
            }
            if rest.contains(i) {
                assert(stale.contains(i));
                let p = choose|p: int| 0 <= p < stale.len() && stale[p] == i;
                assert(front[p] == i);
            }
        }
        lemma_removal_count(dir, file_id, disk, front, rest);
        let front_paths = locations(dir, file_id, front);
        assert(paths.drop_last() =~= front_paths);
        lemma_disk_after(disk, front_paths);
        let place = chunk_location(dir, file_id, last);
        assert(!front_paths.contains(place)) by {
            if front_paths.contains(place) {
                let p = choose|p: int| 0 <= p < front_paths.len() && front_paths[p] == place;
                locations_of_one_file_are_distinct(dir, file_id, front[p], last);
                assert(stale[p] < stale[stale.len() - 1]);
            }
        }
        assert(stale.contains(last)) by {
            assert(stale[stale.len() - 1] == last);
        }
        let outcomes = removals_on(disk, paths);
        assert(outcomes.drop_last() =~= removals_on(disk, front_paths));
        assert(disk_after(disk, front_paths).contains_key(place) <==> disk.contains_key(place));
        let before = on_disk(dir, file_id, disk, rest);
        if disk.contains_key(place) {
            assert(there =~= before.insert(last));
        } else {
            assert(there =~= before);
        }
    }
}

/// The removal of stale chunks, where nothing fails, over all files on disk: it removes as
/// many files as there were of deleted chunks; none of these is left; every other file stays,
/// those of all other chunks among them; and a second time it finds nothing to remove.
pub proof fn sweep_removes_stale_chunks(
    dir: Seq<char>,
    file_id: Seq<char>,
    deleted: Set<u32>,
    stale: Seq<u32>,
    disk: Map<Seq<char>, Seq<u8>>,
)
    requires
        lists_ascending(stale, deleted),
    ensures
        ({
            let paths = locations(dir, file_id, stale);
            let end = new_sweep(paths).after_all(removals_on(disk, paths));
            let left = disk_after(disk, paths);
            let again = new_sweep(paths).after_all(removals_on(left, paths));
            &&& !end.failed && end.next() is None
            &&& end.removed == on_disk(dir, file_id, disk, deleted).len()
            &&& forall|i: u32| #[trigger]
                deleted.contains(i) ==> !left.contains_key(chunk_location(dir, file_id, i))
            &&& forall|i: u32|
                !deleted.contains(i) ==> (left.contains_key(
                    #[trigger] chunk_location(dir, file_id, i),
                ) <==> disk.contains_key(chunk_location(dir, file_id, i)))
            &&& forall|p: Seq<char>|
                !paths.contains(p) ==> (#[trigger] left.contains_key(p) <==> disk.contains_key(p))
            &&& forall|p: Seq<char>| #[trigger] left.contains_key(p) ==> left[p] == disk[p]
            &&& again.removed == 0 && !again.failed && again.next() is None
            &&& disk_after(left, paths) == left
        }),
{
    let paths = locations(dir, file_id, stale);
    let left = disk_after(disk, paths);
    lemma_disk_after(disk, paths);
    lemma_disk_after(left, paths);
    lemma_removal_count(dir, file_id, disk, stale, deleted);
    lemma_removal_count(dir, file_id, left, stale, deleted);
    sweep_tries_each_file_once(paths, removals_on(disk, paths));
    sweep_tries_each_file_once(paths, removals_on(left, paths));
    assert forall|i: u32| #[trigger] deleted.contains(i) implies !left.contains_key(
        chunk_location(dir, file_id, i),
    ) by {
        assert(stale.contains(i));
        let p = choose|p: int| 0 <= p < stale.len() && stale[p] == i;
        assert(paths[p] == chunk_location(dir, file_id, i));
    }
    assert forall|i: u32| !deleted.contains(i) implies (left.contains_key(
        #[trigger] chunk_location(dir, file_id, i),
    ) <==> disk.contains_key(chunk_location(dir, file_id, i))) by {
        let place = chunk_location(dir, file_id, i);
        if paths.contains(place) {
            let p = choose|p: int| 0 <= p < paths.len() && paths[p] == place;
            locations_of_one_file_are_distinct(dir, file_id, stale[p], i);
            assert(stale.contains(i));
        }
    }
    assert(on_disk(dir, file_id, left, deleted) =~= Set::empty());
    assert(disk_after(left, paths) =~= left);
}

/// A chunk is corrupt: it cannot be read, or what is read does not have the digest of the
/// manifest.
pub open spec fn is_corrupt(m: ManifestView, chunk_index: u32, data: Option<Seq<u8>>) -> bool {
    data is None || hash_text(data->0) != m.chunk_hashes[chunk_index as int]
}

/// The corrupt chunks found so far, with another chunk looked at.
pub open spec fn after_look(
    found: Seq<u32>,
    m: ManifestView,
    chunk_index: u32,
    data: Option<Seq<u8>>,
) -> Seq<u32> {
    if is_corrupt(m, chunk_index, data) {
        found.push(chunk_index)
    } else {
        found
    }
}

/// What can be read of a chunk.
pub open spec fn read_of(contents: Map<u32, Seq<u8>>, chunk_index: u32) -> Option<Seq<u8>> {
    if contents.contains_key(chunk_index) {
        Some(contents[chunk_index])
    } else {
        None
    }
}

/// The corrupt chunks found when the chunks of a list have been looked at, one after the
/// other. `contents` has what can be read.
pub open spec fn after_looks(
    m: ManifestView,
    chunks: Seq<u32>,
    contents: Map<u32, Seq<u8>>,
) -> Seq<u32>
    decreases chunks.len(),
{
    if chunks.len() == 0 {
        Seq::empty()
    } else {
        after_look(
            after_looks(m, chunks.drop_last(), contents),
            m,
            chunks.last(),
            read_of(contents, chunks.last()),
        )
    }
}

/// Looking at all unchanged chunks finds exactly those that are corrupt, each once and in
/// ascending order.
pub proof fn looks_find_corrupt_chunks(
    m: ManifestView,
    unchanged: Set<u32>,
    kept: Seq<u32>,
    contents: Map<u32, Seq<u8>>,
)
    requires
        lists_ascending(kept, unchanged),
    ensures
        lists_ascending(
            after_looks(m, kept, contents),
            unchanged.filter(|i: u32| is_corrupt(m, i, read_of(contents, i))),
        ),
    decreases kept.len(),
{
    let bad = |i: u32| is_corrupt(m, i, read_of(contents, i));
    let found = after_looks(m, kept, contents);
    let wanted = unchanged.filter(bad);
    if kept.len() == 0 {
        assert forall|i: u32| #[trigger] found.contains(i) <==> wanted.contains(i) by {
            assert(!kept.contains(i));
        }
    } else {
        let front = kept.drop_last();
        let last = kept.last();
        let rest = unchanged.remove(last);
        assert forall|i: u32| #[trigger] front.contains(i) <==> rest.contains(i) by {
            if front.contains(i) {
                let p = choose|p: int| 0 <= p < front.len() && front[p] == i;
                assert(kept[p] == i);
                assert(kept.contains(i));
            }
            if rest.contains(i) {
                assert(kept.contains(i));
                let p = choose|p: int| 0 <= p < kept.len() && kept[p] == i;
                assert(front[p] == i);
            }
        }
        looks_find_corrupt_chunks(m, rest, front, contents);
        let before = after_looks(m, front, contents);
        let wanted_before = rest.filter(bad);
        assert(kept.contains(last)) by {
            assert(kept[kept.len() - 1] == last);
        }
        assert forall|p: int| 0 <= p < before.len() implies #[trigger] before[p] < last by {
            assert(before.contains(before[p]));
            assert(wanted_before.contains(before[p]));
            assert(front.contains(before[p]));
            let q = choose|q: int| 0 <= q < front.len() && front[q] == before[p];
            assert(kept[q] < kept[kept.len() - 1]);
        }
        assert forall|i: u32| #[trigger] found.contains(i) <==> wanted.contains(i) by {
            assert(before.contains(i) <==> wanted_before.contains(i));
            if found.contains(i) {
                let p = choose|p: int| 0 <= p < found.len() && found[p] == i;
                if p < before.len() {
                    assert(before[p] == i);
                }
            }
            if before.contains(i) {
                let p = choose|p: int| 0 <= p < before.len() && before[p] == i;
                assert(found[p] == i);
            }
            if i == last && bad(last) {
                assert(found[before.len() as int] == i);
            }
        }
    }
}

/// Applies a patch to the local chunks of a node: deleted chunks are removed, unchanged ones
/// stay, changed ones are fetched separately.
#[derive(Debug)]
pub struct PatchApplicator {
    pub data_dir: String,
    pub file_id: String,
}

impl PatchApplicator {
    /// An applicator for a file whose chunks are in `data_dir`.
    pub fn new(data_dir: String, file_id: &str) -> (r: Self)
        ensures
            r.data_dir == data_dir,
            r.file_id@ == file_id@,
    {
        PatchApplicator { data_dir, file_id: file_id.to_owned() }
    }

    /// Where a chunk is kept.
    pub fn chunk_path(&self, chunk_index: u32) -> (r: String)
        ensures
            r@ == chunk_location(self.data_dir@, self.file_id@, chunk_index),
    {
        chunk_path(self.data_dir.as_str(), self.file_id.as_str(), chunk_index)
    }

    /// Begins the removal of the chunks that the new version does not have: one file per
    /// deleted chunk, in ascending order of the chunks.
    pub fn delete_stale_chunks(&self, patch: &DeltaPatch) -> (r: StaleSweep)
        ensures
            r@.valid(),
            exists|stale: Seq<u32>| #[trigger]
                lists_ascending(stale, patch@.deleted) && r@ == new_sweep(
                    locations(self.data_dir@, self.file_id@, stale),
                ),
    {
        let stale = patch.chunks_to_delete();
        let mut paths: Vec<String> = Vec::new();
        let mut i: usize = 0;
        while i < stale.len()
            invariant
                i <= stale@.len(),
                paths@.len() == i,
                forall|j: int|
                    0 <= j < i ==> (#[trigger] paths@[j])@ == chunk_location(
                        self.data_dir@,
                        self.file_id@,
                        stale@[j],
                    ),
            decreases stale@.len() - i,
        {
            paths.push(self.chunk_path(stale[i]));
            i = i + 1;
        }
        assert(lists_ascending(stale@, patch@.deleted));
        let sweep = StaleSweep { paths, tried: 0, removed: 0, failed: false };
        assert(sweep@ =~= new_sweep(locations(self.data_dir@, self.file_id@, stale@)));
        sweep
    }

    /// Takes note of an unchanged chunk: it is corrupt if it could not be read (`data` is
    /// `None`), or if what was read does not have the digest of the manifest.
    pub fn verify_unchanged(
        manifest: &Manifest,
        chunk_index: u32,
        data: Option<&[u8]>,
        corrupt: &mut Vec<u32>,
    )
        requires
            data is Some ==> chunk_index < manifest.chunk_hashes@.len(),
        ensures
            final(corrupt)@ == after_look(
                old(corrupt)@,
                manifest@,
                chunk_index,
                match data {
                    Some(bytes) => Some(bytes@),
                    None => None,
                },
            ),
    {
        let bad: bool = match data {
            Some(bytes) => manifest.verify_chunk(chunk_index, bytes).is_err(),
            None => true,
        };
        if bad {
            corrupt.push(chunk_index);
        }
    }
}

} // verus!
