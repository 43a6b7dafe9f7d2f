//! Downloading: which chunks are fetched in a round, from whom, and what counts as received.

pub use crate::paths::chunk_path;

use vstd::arithmetic::power2::{
    lemma2_to64, lemma2_to64_rest, lemma_pow2_strictly_increases, lemma_pow2_unfold, pow2,
};
use vstd::prelude::*;
use vstd::string::*;

use crate::bitmap::{
    complete_means_holds_all, empty_bitmap, lists_missing, BitmapView, ChunkBitmap,
};
use crate::erasure::at_most;
use crate::error::DistError;
use crate::hash::{digest_verdict, hash_text};
use crate::manifest::{
    chunk_bounds, chunk_data, chunk_end, chunk_start, manifest_of, recorded_count_bounds,
    Manifest, ManifestView,
};
use crate::paths::{chunk_location, locations_of_one_file_are_distinct};
use crate::peer::chunk_server::{response_of, response_round_trip, STATUS_OK};
use crate::proto::wire::{from_be_u32, from_be_u64, read_u32, read_u64};
use crate::proto::{infos_of, PeerInfo};
use crate::sorting::{arranged, comes_before, rank, ranks};
use crate::text::{decimal, push_decimal};
use crate::tracker::job::JobView;
use crate::tracker::scheduler::{
    chunks_of, rarest_first, rarity_order_ascends, replicas, PeerView,
};

verus! {

/// How many times the tracker is asked for the peers of a chunk before it is given up for
/// the round.
pub const MAX_ATTEMPTS: u32 = 3;

/// How many peers the tracker is asked for.
pub const PEERS_PER_QUERY: usize = 5;

/// The pause between two rounds, in milliseconds.
pub const ROUND_PAUSE_MS: u64 = 50;

/// What a download runs on.
#[derive(Debug)]
pub struct DownloaderConfig {
    pub node_id: String,
    pub job_id: String,
    pub rack_id: String,
    pub tracker_addr: String,
    pub data_dir: String,
    pub manifest: Manifest,
    pub concurrency: usize,
}

/// `list` holds the same chunks as `missing`, in any order.
pub open spec fn reorders(list: Seq<u32>, missing: Seq<u32>) -> bool {
    &&& list.len() == missing.len()
    &&& forall|c: u32| #[trigger] list.contains(c) <==> missing.contains(c)
}

/// The order in which missing chunks are fetched: as the tracker ranked them, if it did, and
/// ascending otherwise. A ranking that does not hold the missing chunks is ignored.
pub fn fetch_order(missing: Vec<u32>, ranked: Option<Vec<(u32, u32)>>) -> (r: Vec<u32>)
    requires
        forall|i: int, j: int| 0 <= i < j < missing@.len() ==> missing@[i] < missing@[j],
    ensures
        r@ == match ranked {
            Some(pairs) => if reorders(chunks_of(pairs@), missing@) {
                chunks_of(pairs@)
            } else {
                missing@
            },
            None => missing@,
        },
        reorders(r@, missing@),
{
    let pairs = match ranked {
        Some(pairs) => pairs,
        None => return missing,
    };
    let mut list: Vec<u32> = Vec::new();
    let mut keys: Vec<u128> = Vec::new();
    let mut i: usize = 0;
    while i < pairs.len()
        invariant
            i <= pairs@.len(),
            list@ == chunks_of(pairs@).take(i as int),
            keys@.len() == i,
            forall|j: int| 0 <= j < i ==> keys@[j] == list@[j],
        decreases pairs@.len() - i,
    {
        list.push(pairs[i].0);
        keys.push(pairs[i].0 as u128);
        i = i + 1;
        assert(list@ =~= chunks_of(pairs@).take(i as int));
    }
    assert(list@ =~= chunks_of(pairs@));
    if list.len() != missing.len() {
        return missing;
    }
    let order = rank(&keys);
    let mut k: usize = 0;
    while k < order.len()
        invariant
            k <= order@.len(),
            ranks(order@, keys@),
            keys@.len() == list@.len(),
            list@.len() == missing@.len(),
            list@ == chunks_of(pairs@),
            ranked == Some(pairs),
            forall|j: int| 0 <= j < list@.len() ==> keys@[j] == list@[j],
            forall|a: int, b: int| 0 <= a < b < missing@.len() ==> missing@[a] < missing@[b],
            forall|j: int| 0 <= j < k ==> arranged(list@, order@)[j] == #[trigger] missing@[j],
        decreases order@.len() - k,
    {
        if list[order[k]] != missing[k] {
            proof {
                lemma_not_reordered(list@, keys@, order@, missing@, k as int);
            }
            return missing;
        }
        k = k + 1;
    }
    proof {
        lemma_reordered(list@, keys@, order@, missing@);
    }
    list
}

proof fn lemma_reordered(list: Seq<u32>, keys: Seq<u128>, order: Seq<usize>, missing: Seq<u32>)
    requires
        ranks(order, keys),
        keys.len() == list.len(),
        list.len() == missing.len(),
        list.len() <= usize::MAX,
        forall|j: int| 0 <= j < list.len() ==> arranged(list, order)[j] == #[trigger] missing[j],
    ensures
        reorders(list, missing),
{
    assert forall|c: u32| #[trigger] list.contains(c) <==> missing.contains(c) by {
        if list.contains(c) {
            let j = choose|j: int| 0 <= j < list.len() && list[j] == c;
            assert(order.contains(j as usize));
            let i = choose|i: int| 0 <= i < order.len() && order[i] == j as usize;
            assert(missing[i] == c);
        }
        if missing.contains(c) {
            let i = choose|i: int| 0 <= i < missing.len() && missing[i] == c;
            assert(list[order[i] as int] == c);
        }
    }
}

proof fn lemma_not_reordered(
    list: Seq<u32>,
    keys: Seq<u128>,
    order: Seq<usize>,
    missing: Seq<u32>,
    k: int,
)
    requires
        ranks(order, keys),
        keys.len() == list.len(),
        list.len() == missing.len(),
        list.len() <= usize::MAX,
        forall|j: int| 0 <= j < list.len() ==> keys[j] == list[j],
        forall|a: int, b: int| 0 <= a < b < missing.len() ==> missing[a] < missing[b],
        0 <= k < list.len(),
        forall|j: int| 0 <= j < k ==> arranged(list, order)[j] == #[trigger] missing[j],
        list[order[k] as int] != missing[k],
    ensures
        !reorders(list, missing),
{
    if reorders(list, missing) {
        let sorted = arranged(list, order);
        // All chunks of the list are different, because those of `missing` are.
        assert(missing.no_duplicates());
        assert(list.to_set() =~= missing.to_set()) by {
            assert forall|c: u32| list.to_set().contains(c) <==> missing.to_set().contains(c) by {
                assert(list.contains(c) <==> missing.contains(c));
            }
        }
        missing.unique_seq_to_set();
        list.lemma_no_dup_set_cardinality();
        assert(list.no_duplicates());
        let c = sorted[k];
        assert(list.contains(c)) by {
            assert(list[order[k] as int] == c);
        }
        assert(missing.contains(c));
        let p = choose|p: int| 0 <= p < missing.len() && missing[p] == c;
        if p < k {
            assert(sorted[p] == missing[p]);
            assert(comes_before(keys, order[p], order[k]));
            assert(list[order[p] as int] == list[order[k] as int]);
            assert(order[p] == order[k]);
        } else {
            let d = missing[k];
            assert(missing.contains(d));
            assert(list.contains(d));
            let q = choose|q: int| 0 <= q < list.len() && list[q] == d;
            assert(keys.len() == list.len());
            assert(order.contains(q as usize));
            let s = choose|s: int| 0 <= s < order.len() && order[s] == q as usize;
            assert(sorted[s] == d);
            assert(missing[k] < missing[p]);
            if s < k {
                assert(missing[s] == d);
            } else if s > k {
                assert(comes_before(keys, order[k], order[s]));
            }
        }
    }
}

/// The chunks that a node still has to fetch; nothing once it holds all of them.
pub fn next_round(bitmap: &ChunkBitmap) -> (r: Option<Vec<u32>>)
    ensures
        match r {
            Some(missing) => !bitmap@.is_complete() && lists_missing(missing@, bitmap@.bits),
            None => bitmap@.is_complete(),
        },
{
    if bitmap.is_complete() {
        return None;
    }
    Some(bitmap.missing())
}

/// The chunks of one round: twice as many as can be fetched at a time.
pub fn round_chunks(order: &Vec<u32>, concurrency: usize) -> (r: Vec<u32>)
    requires
        2 * concurrency <= usize::MAX,
    ensures
        r@ == at_most(order@, 2 * concurrency),
{
    let limit: usize = concurrency * 2;
    let n: usize = if limit < order.len() {
        limit
    } else {
        order.len()
    };
    let mut out: Vec<u32> = Vec::new();
    out.extend_from_slice(&order.as_slice()[0..n]);
    assert(out@ =~= at_most(order@, 2 * concurrency));
    out
}

/// The pause after an attempt, in milliseconds: 200 after the first, and twice as long after
/// each further one.
pub fn backoff_ms(attempt: u32) -> (r: u64)
    requires
        attempt <= 56,
    ensures
        r == 200 * pow2(attempt as nat),
{
    let mut ms: u64 = 200;
    let mut i: u32 = 0;
    proof {
        lemma2_to64();
        lemma2_to64_rest();
    }
    while i < attempt
        invariant
            i <= attempt <= 56,
            ms == 200 * pow2(i as nat),
            200 * pow2(56) <= u64::MAX,
        decreases attempt - i,
    {
        proof {
            lemma_pow2_unfold((i + 1) as nat);
            if i + 1 < 56 {
                lemma_pow2_strictly_increases((i + 1) as nat, 56);
            }
        }
        ms = ms * 2;
        i = i + 1;
    }
    ms
}

/// Where the fetching of one chunk stands.
#[derive(Debug)]
pub enum FetchStage {
    /// The tracker is to be asked for peers.
    Asking,
    /// A peer of the list is to be tried.
    Trying { peers: Vec<PeerInfo>, next: usize },
    /// The attempt failed; a pause follows.
    Pausing,
    /// The chunk is there.
    Succeeded,
    /// All attempts failed.
    Exhausted,
}

/// The fetching of one chunk: up to three times the tracker is asked for peers, and each of
/// them is tried until one delivers.
#[derive(Debug)]
pub struct ChunkFetch {
    pub attempt: u32,
    pub stage: FetchStage,
}

/// Where the fetching of one chunk stands.
pub enum StageView {
    Asking,
    Trying { peers: Seq<PeerView>, next: int },
    Pausing,
    Succeeded,
    Exhausted,
}

/// The content of a fetch.
pub struct FetchView {
    pub attempt: int,
    pub stage: StageView,
}

impl View for ChunkFetch {
    type V = FetchView;

    open spec fn view(&self) -> FetchView {
        FetchView {
            attempt: self.attempt as int,
            stage: match self.stage {
                FetchStage::Asking => StageView::Asking,
                FetchStage::Trying { peers, next } => StageView::Trying {
                    peers: infos_of(peers@),
                    next: next as int,
                },
                FetchStage::Pausing => StageView::Pausing,
                FetchStage::Succeeded => StageView::Succeeded,
                FetchStage::Exhausted => StageView::Exhausted,
            },
        }
    }
}

/// What is to be done next for a chunk.
#[derive(Debug)]
pub enum FetchAction {
    /// Ask the tracker for peers.
    AskTracker,
    /// Download the chunk from this peer.
    Download(PeerInfo),
    /// Wait this many milliseconds.
    Pause(u64),
    /// Nothing more; the chunk is there, or it is not.
    Finish(bool),
}

/// How it ended.
#[derive(Debug)]
pub enum FetchEvent {
    /// The tracker did not answer, or refused.
    QueryFailed,
    /// The tracker named these peers.
    Peers(Vec<PeerInfo>),
    /// The chunk was received, verified and stored.
    Downloaded,
    /// It was not.
    DownloadFailed,
    /// The pause is over.
    Paused,
}

impl FetchView {
    /// The fetch is at a point that it can reach.
    pub open spec fn valid(self) -> bool {
        &&& 0 <= self.attempt <= MAX_ATTEMPTS
        &&& self.attempt == MAX_ATTEMPTS <==> self.stage is Exhausted
        &&& self.stage matches StageView::Trying { peers, next } ==> 0 <= next < peers.len()
    }

    /// The event is one that can follow.
    pub open spec fn expects(self, event: FetchEvent) -> bool {
        match self.stage {
            StageView::Asking => event is QueryFailed || event is Peers,
            StageView::Trying { .. } => event is Downloaded || event is DownloadFailed,
            StageView::Pausing => event is Paused,
            _ => false,
        }
    }

    /// Where the fetch stands after an event.
    pub open spec fn after(self, event: FetchEvent) -> FetchView {
        match (self.stage, event) {
            (StageView::Asking, FetchEvent::Peers(list)) => if list@.len() == 0 {
                FetchView { stage: StageView::Pausing, ..self }
            } else {
                FetchView {
                    stage: StageView::Trying { peers: infos_of(list@), next: 0 },
                    ..self
                }
            },
            (StageView::Trying { peers, next }, FetchEvent::Downloaded) => FetchView {
                stage: StageView::Succeeded,
                ..self
            },
            (StageView::Trying { peers, next }, FetchEvent::DownloadFailed) => if next + 1
                < peers.len() {
                FetchView { stage: StageView::Trying { peers, next: next + 1 }, ..self }
            } else {
                FetchView { stage: StageView::Pausing, ..self }
            },
            (StageView::Pausing, _) => if self.attempt + 1 < MAX_ATTEMPTS {
                FetchView { attempt: self.attempt + 1, stage: StageView::Asking }
            } else {
                FetchView { attempt: self.attempt + 1, stage: StageView::Exhausted }
            },
            _ => FetchView { stage: StageView::Pausing, ..self },
        }
    }
}

impl ChunkFetch {
    /// Begins to fetch a chunk.
    pub fn new() -> (r: Self)
        ensures
            r@ == (FetchView { attempt: 0, stage: StageView::Asking }),
            r@.valid(),
    {
        ChunkFetch { attempt: 0, stage: FetchStage::Asking }
    }

    /// What is to be done next.
    pub fn action(&self) -> (r: FetchAction)
        requires
            self@.valid(),
        ensures
            match self@.stage {
                StageView::Asking => r is AskTracker,
                StageView::Trying { peers, next } => r matches FetchAction::Download(peer)
                    && peer@ == peers[next],
                StageView::Pausing => r == FetchAction::Pause(
                    (200 * pow2(self@.attempt as nat)) as u64,
                ),
                StageView::Succeeded => r == FetchAction::Finish(true),
                StageView::Exhausted => r == FetchAction::Finish(false),
            },
    {
        match &self.stage {
            FetchStage::Asking => FetchAction::AskTracker,
            FetchStage::Trying { peers, next } => {
                assert(infos_of(peers@)[*next as int] == peers@[*next as int]@);
                FetchAction::Download(peers[*next].clone())
            },
            FetchStage::Pausing => FetchAction::Pause(backoff_ms(self.attempt)),
            FetchStage::Succeeded => FetchAction::Finish(true),
            FetchStage::Exhausted => FetchAction::Finish(false),
        }
    }

    /// Takes in how the last action ended.
    pub fn step(self, event: FetchEvent) -> (r: Self)
        requires
            self@.valid(),
            self@.expects(event),
        ensures
            r@ == self@.after(event),
            r@.valid(),
    {
        let ChunkFetch { attempt, stage } = self;
        match stage {
            FetchStage::Asking => match event {
                FetchEvent::Peers(list) => {
                    if list.len() == 0 {
                        ChunkFetch { attempt, stage: FetchStage::Pausing }
                    } else {
                        ChunkFetch { attempt, stage: FetchStage::Trying { peers: list, next: 0 } }
                    }
                },
                _ => ChunkFetch { attempt, stage: FetchStage::Pausing },
            },
            FetchStage::Trying { peers, next } => match event {
                FetchEvent::Downloaded => ChunkFetch { attempt, stage: FetchStage::Succeeded },
                _ => {
                    if next < peers.len() - 1 {
                        ChunkFetch { attempt, stage: FetchStage::Trying { peers, next: next + 1 } }
                    } else {
                        ChunkFetch { attempt, stage: FetchStage::Pausing }
                    }
                },
            },
            _ => {
                if attempt + 1 < MAX_ATTEMPTS {
                    ChunkFetch { attempt: attempt + 1, stage: FetchStage::Asking }
                } else {
                    ChunkFetch { attempt: attempt + 1, stage: FetchStage::Exhausted }
                }
            },
        }
    }
}

/// How much can still happen to a fetch: attempts that are left, phases that are left of this
/// attempt, and peers that are left to try.
pub open spec fn work_left(f: FetchView) -> (int, int, int) {
    let attempts = MAX_ATTEMPTS - f.attempt;
    match f.stage {
        StageView::Asking => (attempts, 3, 0),
        StageView::Trying { peers, next } => (attempts, 2, peers.len() - next),
        StageView::Pausing => (attempts, 1, 0),
        StageView::Succeeded => (0, 0, 0),
        StageView::Exhausted => (0, 0, 0),
    }
}

/// Every event brings a fetch closer to its end, so it ends, with at most three queries to
/// the tracker.
pub proof fn fetch_makes_progress(f: FetchView, event: FetchEvent)
    requires
        f.valid(),
        f.expects(event),
    ensures
        ({
            let (a, b, c) = work_left(f);
            let (x, y, z) = work_left(f.after(event));
            &&& 0 <= x && 0 <= y && 0 <= z
            &&& x < a || (x == a && y < b) || (x == a && y == b && z < c)
        }),
        f.after(event).valid(),
        f.after(event).attempt >= f.attempt,
{
}

/// A chunk counts as fetched exactly when a download succeeded: nothing else leads there.
pub proof fn fetch_succeeds_by_download(f: FetchView, event: FetchEvent)
    requires
        f.valid(),
        f.expects(event),
    ensures
        f.after(event).stage is Succeeded <==> event is Downloaded,
{
}

/// A peer that fails is followed by the next one on the list, without a pause and without
/// another query; only behind the last one comes a pause.
pub proof fn failed_peer_is_followed_by_next(f: FetchView)
    requires
        f.valid(),
        f.stage is Trying,
    ensures
        ({
            let next = f.after(FetchEvent::DownloadFailed);
            if f.stage->next + 1 < f.stage->peers.len() {
                next.stage == (StageView::Trying {
                    peers: f.stage->peers,
                    next: f.stage->next + 1,
                })
            } else {
                next.stage is Pausing
            }
        }),
        f.after(FetchEvent::DownloadFailed).attempt == f.attempt,
{
}

/// The manifest has a place for the chunk: it starts within the file.
pub open spec fn chunk_in_file(m: ManifestView, chunk_index: u32) -> bool {
    chunk_start(chunk_index as int, m.chunk_size as int) <= m.total_size
}

/// How many bytes a chunk has.
pub open spec fn chunk_len(m: ManifestView, chunk_index: u32) -> int {
    chunk_end(chunk_index as int, m.chunk_size as int, m.total_size as int) - chunk_start(
        chunk_index as int,
        m.chunk_size as int,
    )
}

/// Whether the manifest has a place for the chunk, and a digest for it.
pub fn knows_chunk(manifest: &Manifest, chunk_index: u32) -> (r: bool)
    ensures
        r == (chunk_in_file(manifest@, chunk_index) && chunk_index
            < manifest@.chunk_hashes.len()),
{
    assert(chunk_index * manifest.chunk_size <= u32::MAX * u64::MAX) by (nonlinear_arith)
        requires
            chunk_index <= u32::MAX,
            manifest.chunk_size <= u64::MAX,
    ;
    let start: u128 = chunk_index as u128 * manifest.chunk_size as u128;
    start <= manifest.total_size as u128 && (chunk_index as usize) < manifest.chunk_hashes.len()
}

/// How far the transfer of a chunk from a peer has come.
#[derive(Debug)]
enum TransferStage {
    /// The status of the response is to be read.
    Status,
    /// The length of the chunk is to be read.
    Length,
    /// The content of the chunk, of this length, is to be read.
    Content { len: u64 },
    /// The chunk has the digest of the manifest, and is to be stored.
    Storing { data: Vec<u8> },
}

/// The transfer of a chunk from a peer: the response is read and checked piece by piece.
#[derive(Debug)]
pub struct Transfer {
    peer_id: String,
    chunk_index: u32,
    stage: TransferStage,
}

/// How far the transfer of a chunk has come.
pub enum TransferStageView {
    Status,
    Length,
    Content { len: int },
    Storing { data: Seq<u8> },
}

/// The content of a transfer.
pub struct TransferView {
    pub peer_id: Seq<char>,
    pub chunk_index: u32,
    pub stage: TransferStageView,
}

impl View for Transfer {
    type V = TransferView;

    closed spec fn view(&self) -> TransferView {
        TransferView {
            peer_id: self.peer_id@,
            chunk_index: self.chunk_index,
            stage: match self.stage {
                TransferStage::Status => TransferStageView::Status,
                TransferStage::Length => TransferStageView::Length,
                TransferStage::Content { len } => TransferStageView::Content { len: len as int },
                TransferStage::Storing { data } => TransferStageView::Storing { data: data@ },
            },
        }
    }
}

impl TransferView {
    /// The transfer is at a point that it can reach with the manifest `m`. A chunk that is to
    /// be stored has the digest of the manifest.
    pub open spec fn valid(self, m: ManifestView) -> bool {
        &&& chunk_in_file(m, self.chunk_index)
        &&& self.chunk_index < m.chunk_hashes.len()
        &&& match self.stage {
            TransferStageView::Content { len } => len == chunk_len(m, self.chunk_index),
            TransferStageView::Storing { data } => hash_text(data)
                == m.chunk_hashes[self.chunk_index as int],
            _ => true,
        }
    }

    /// How many bytes are to be read next; none if there is nothing to read.
    pub open spec fn wants(self) -> Option<int> {
        match self.stage {
            TransferStageView::Status => Some(4),
            TransferStageView::Length => Some(8),
            TransferStageView::Content { len } => Some(len),
            TransferStageView::Storing { .. } => None,
        }
    }

    /// What becomes of the transfer when the bytes that it wants have been read.
    pub open spec fn after(
        self,
        m: ManifestView,
        bytes: Seq<u8>,
        r: Result<TransferView, DistError>,
    ) -> bool {
        match self.stage {
            TransferStageView::Status => if from_be_u32(bytes) == STATUS_OK {
                r == Ok::<TransferView, DistError>(
                    TransferView { stage: TransferStageView::Length, ..self },
                )
            } else {
                r matches Err(DistError::Proto(text)) && text@ == status_refusal(
                    self.peer_id,
                    from_be_u32(bytes),
                    self.chunk_index,
                )
            },
            TransferStageView::Length => if from_be_u64(bytes) == chunk_len(m, self.chunk_index) {
                r == Ok::<TransferView, DistError>(
                    TransferView {
                        stage: TransferStageView::Content { len: from_be_u64(bytes) },
                        ..self
                    },
                )
            } else {
                r matches Err(DistError::Proto(text)) && text@ == length_refusal(
                    self.chunk_index,
                    chunk_len(m, self.chunk_index),
                    from_be_u64(bytes),
                )
            },
            TransferStageView::Content { len } => match r {
                Ok(next) => {
                    &&& hash_text(bytes) == m.chunk_hashes[self.chunk_index as int]
                    &&& next == (TransferView {
                        stage: TransferStageView::Storing { data: bytes },
                        ..self
                    })
                },
                Err(e) => digest_verdict(
                    Err(e),
                    self.chunk_index,
                    m.chunk_hashes[self.chunk_index as int],
                    hash_text(bytes),
                ),
            },
            TransferStageView::Storing { .. } => false,
        }
    }
}

/// The text with which a response without a chunk is reported.
pub open spec fn status_refusal(peer_id: Seq<char>, status: int, chunk_index: u32) -> Seq<char> {
    "peer "@ + peer_id + " returned error status "@ + decimal(status as nat) + " for chunk "@
        + decimal(chunk_index as nat)
}

/// The text with which a chunk of the wrong length is reported.
pub open spec fn length_refusal(chunk_index: u32, expected: int, got: int) -> Seq<char> {
    "chunk "@ + decimal(chunk_index as nat) + ": expected "@ + decimal(expected as nat)
        + " bytes, got "@ + decimal(got as nat)
}

impl Transfer {
    /// Begins the transfer of a chunk from a peer.
    pub fn new(manifest: &Manifest, peer_id: &str, chunk_index: u32) -> (r: Self)
        requires
            chunk_in_file(manifest@, chunk_index),
            chunk_index < manifest@.chunk_hashes.len(),
        ensures
            r@ == (TransferView {
                peer_id: peer_id@,
                chunk_index,
                stage: TransferStageView::Status,
            }),
            r@.valid(manifest@),
    {
        Transfer { peer_id: peer_id.to_owned(), chunk_index, stage: TransferStage::Status }
    }

    /// How many bytes are to be read next; nothing when the chunk is to be stored.
    pub fn wanted(&self) -> (r: Option<u64>)
        ensures
            match r {
                Some(n) => self@.wants() == Some(n as int),
                None => self@.wants() is None,
            },
    {
        match &self.stage {
            TransferStage::Status => Some(4),
            TransferStage::Length => Some(8),
            TransferStage::Content { len } => Some(*len),
            TransferStage::Storing { .. } => None,
        }
    }

    /// Takes in the bytes that were wanted. A response that is an error, a wrong length and a
    /// wrong digest end the transfer.
    pub fn feed(self, manifest: &Manifest, bytes: Vec<u8>) -> (r: Result<Transfer, DistError>)
        requires
            self@.valid(manifest@),
            self@.wants() == Some(bytes@.len() as int),
        ensures
            self@.after(
                manifest@,
                bytes@,
                match r {
                    Ok(t) => Ok(t@),
                    Err(e) => Err(e),
                },
            ),
            r matches Ok(t) ==> t@.valid(manifest@),
    {
        let Transfer { peer_id, chunk_index, stage } = self;
        match stage {
            TransferStage::Status => {
                let status: u32 = read_u32(bytes.as_slice());
                if status != STATUS_OK {
                    let mut text = "peer ".to_owned();
                    text.append(peer_id.as_str());
                    text.append(" returned error status ");
                    push_decimal(&mut text, status as u64);
                    text.append(" for chunk ");
                    push_decimal(&mut text, chunk_index as u64);
                    assert(text@ =~= status_refusal(peer_id@, status as int, chunk_index));
                    return Err(DistError::Proto(text));
                }
                Ok(Transfer { peer_id, chunk_index, stage: TransferStage::Length })
            },
            TransferStage::Length => {
                let data_len: u64 = read_u64(bytes.as_slice());
                let (start, end) = manifest.chunk_range(chunk_index);
                let expected: u64 = end - start;
                if data_len != expected {
                    let mut text = "chunk ".to_owned();
                    push_decimal(&mut text, chunk_index as u64);
                    text.append(": expected ");
                    push_decimal(&mut text, expected);
                    text.append(" bytes, got ");
                    push_decimal(&mut text, data_len);
                    assert(text@ =~= length_refusal(
                        chunk_index,
                        expected as int,
                        data_len as int,
                    ));
                    return Err(DistError::Proto(text));
                }
                let stage = TransferStage::Content { len: data_len };
                Ok(Transfer { peer_id, chunk_index, stage })
            },
            TransferStage::Content { .. } => {
                match manifest.verify_chunk(chunk_index, bytes.as_slice()) {
                    Ok(()) => {
                        let stage = TransferStage::Storing { data: bytes };
                        Ok(Transfer { peer_id, chunk_index, stage })
                    },
                    Err(e) => Err(e),
                }
            },
            TransferStage::Storing { data } => {
                assert(false);
                Ok(Transfer { peer_id, chunk_index, stage: TransferStage::Storing { data } })
            },
        }
    }

    /// The chunk, when it is to be stored.
    pub fn chunk(&self) -> (r: Option<&Vec<u8>>)
        ensures
            match r {
                Some(bytes) => self@.stage == (TransferStageView::Storing { data: bytes@ }),
                None => !(self@.stage is Storing),
            },
    {
        match &self.stage {
            TransferStage::Storing { data } => Some(data),
            _ => None,
        }
    }

    /// Takes note that the chunk has been stored: it counts as received. Only a chunk with
    /// the digest of the manifest gets here.
    #[allow(unused_variables)]
    pub fn stored(self, manifest: &Manifest, bitmap: &mut ChunkBitmap)
        requires
            self@.valid(manifest@),
            self@.stage is Storing,
            old(bitmap)@.covers(self@.chunk_index),
        ensures
            self@.stage matches TransferStageView::Storing { data } && hash_text(data)
                == manifest@.chunk_hashes[self@.chunk_index as int],
            final(bitmap)@ == old(bitmap)@.marked(self@.chunk_index),
    {
        bitmap.mark_complete(self.chunk_index);
    }
}

/// What an earlier run left behind of a chunk can be taken up: it could be read, and has the
/// digest of the manifest.
pub open spec fn can_resume(m: ManifestView, chunk_index: u32, data: Option<Seq<u8>>) -> bool {
    data is Some && hash_text(data->0) == m.chunk_hashes[chunk_index as int]
}

/// The bitmap when a chunk of an earlier run has been looked at.
pub open spec fn resumed(
    b: BitmapView,
    m: ManifestView,
    chunk_index: u32,
    data: Option<Seq<u8>>,
) -> BitmapView {
    if can_resume(m, chunk_index, data) {
        b.marked(chunk_index)
    } else {
        b
    }
}

/// Takes up a chunk that an earlier run left behind: it counts as received if its content,
/// where it could be read, has the digest of the manifest. Tells whether it does.
pub fn resume_chunk(
    manifest: &Manifest,
    bitmap: &mut ChunkBitmap,
    chunk_index: u32,
    data: Option<&[u8]>,
) -> (r: bool)
    requires
        chunk_index < manifest@.chunk_hashes.len(),
        old(bitmap)@.covers(chunk_index),
    ensures
        ({
            let found = match data {
                Some(bytes) => Some(bytes@),
                None => None,
            };
            &&& r == can_resume(manifest@, chunk_index, found)
            &&& final(bitmap)@ == resumed(old(bitmap)@, manifest@, chunk_index, found)
        }),
{
    match data {
        Some(bytes) => {
            if manifest.verify_chunk(chunk_index, bytes).is_ok() {
                bitmap.mark_complete(chunk_index);
                true
            } else {
                false
            }
        },
        None => false,
    }
}

/// A chunk of the file, served by a peer, arrives: with the manifest of the file, every
/// piece of the response is accepted, and what is to be stored is the chunk.
pub proof fn served_chunk_arrives(
    m: ManifestView,
    data: Seq<u8>,
    peer_id: Seq<char>,
    chunk_index: u32,
    first: Result<TransferView, DistError>,
    second: Result<TransferView, DistError>,
    third: Result<TransferView, DistError>,
)
    requires
        m == manifest_of(m.file_id, m.version, data, m.chunk_size),
        m.chunk_size > 0,
        data.len() <= u64::MAX,
        chunk_index < m.chunk_count,
        ({
            let served = response_of(
                Some(chunk_data(data, chunk_index as int, m.chunk_size as int)),
            );
            let begin = TransferView { peer_id, chunk_index, stage: TransferStageView::Status };
            &&& begin.after(m, served.take(4), first)
            &&& first is Ok ==> first->Ok_0.after(m, served.subrange(4, 12), second)
            &&& second is Ok ==> second->Ok_0.after(m, served.skip(12), third)
        }),
    ensures
        chunk_in_file(m, chunk_index),
        third == Ok::<TransferView, DistError>(
            TransferView {
                peer_id,
                chunk_index,
                stage: TransferStageView::Storing {
                    data: chunk_data(data, chunk_index as int, m.chunk_size as int),
                },
            },
        ),
{
    recorded_count_bounds(data.len() as int, m.chunk_size as int);
    chunk_bounds(chunk_index as int, m.chunk_size as int, data.len() as int);
    response_round_trip(Some(chunk_data(data, chunk_index as int, m.chunk_size as int)));
}

/// What is stored and counted as received has the digest of the manifest, whatever the peer
/// sent: other content ends the transfer with the mismatch.
pub proof fn corrupt_chunk_is_refused(
    t: TransferView,
    m: ManifestView,
    bytes: Seq<u8>,
    r: Result<TransferView, DistError>,
)
    requires
        t.valid(m),
        t.stage is Content,
        t.after(m, bytes, r),
        hash_text(bytes) != m.chunk_hashes[t.chunk_index as int],
    ensures
        r matches Err(DistError::HashMismatch { index, expected, actual }) && index
            == t.chunk_index && expected@ == m.chunk_hashes[index as int] && actual@ == hash_text(
            bytes,
        ),
{
}

/// The ranking by rarity that the tracker gives for the missing chunks is followed: it holds
/// just these chunks, so the rarest are fetched first.
pub proof fn tracker_ranking_is_followed(
    missing: Seq<u32>,
    pairs: Seq<(u32, u32)>,
    job: JobView,
)
    requires
        missing.len() <= usize::MAX,
        rarest_first(pairs, job, missing),
    ensures
        reorders(chunks_of(pairs), missing),
{
    rarity_order_ascends(pairs, job, missing);
    let list = chunks_of(pairs);
    assert forall|c: u32| #[trigger] list.contains(c) <==> missing.contains(c) by {
        if list.contains(c) {
            let i = choose|i: int| 0 <= i < list.len() && list[i] == c;
            assert(missing.contains(pairs[i].0));
        }
        if missing.contains(c) {
            let pair = (c, replicas(job, c) as u32);
            assert(pairs.contains(pair));
            let i = choose|i: int| 0 <= i < pairs.len() && pairs[i] == pair;
            assert(list[i] == c);
        }
    }
}

/// A download in progress: the files on disk, and the bitmap.
#[verifier::ext_equal]
pub struct Progress {
    pub disk: Map<Seq<char>, Seq<u8>>,
    pub bitmap: BitmapView,
}

/// What happens in the course of a download.
pub enum Progression {
    /// A chunk of an earlier run is looked at; `data` is what could be read of it.
    Resume { chunk_index: u32, data: Option<Seq<u8>> },
    /// The chunk of a transfer is written to disk.
    Write { transfer: TransferView },
    /// The writing of a chunk fails, and this is what it leaves in the chunk's place.
    FailWrite { chunk_index: u32, left: Option<Seq<u8>> },
    /// The chunk of a transfer counts as received.
    Count { transfer: TransferView },
}

/// Chunk `index` is on disk, with the digest of the manifest.
pub open spec fn verified_on_disk(
    disk: Map<Seq<char>, Seq<u8>>,
    dir: Seq<char>,
    m: ManifestView,
    index: u32,
) -> bool {
    let place = chunk_location(dir, m.file_id, index);
    &&& index < m.chunk_hashes.len()
    &&& disk.contains_key(place)
    &&& hash_text(disk[place]) == m.chunk_hashes[index as int]
}

/// At every path but those of the chunks of a file, the same is there before and after.
pub open spec fn same_elsewhere(
    before: Map<Seq<char>, Seq<u8>>,
    after: Map<Seq<char>, Seq<u8>>,
    dir: Seq<char>,
    file_id: Seq<char>,
) -> bool {
    forall|path: Seq<char>|
        #![trigger before.contains_key(path)]
        #![trigger after.contains_key(path)]
        (forall|c: u32| path != #[trigger] chunk_location(dir, file_id, c)) ==> {
            &&& before.contains_key(path) <==> after.contains_key(path)
            &&& before.contains_key(path) ==> before[path] == after[path]
        }
}

/// A download that begins: nothing counts as received, whatever is on disk.
pub open spec fn download_begun(disk: Map<Seq<char>, Seq<u8>>, m: ManifestView) -> Progress {
    Progress { disk, bitmap: empty_bitmap(m.chunk_count) }
}

impl Progress {
    /// Every chunk that counts as received is on disk and verified; the bitmap is that of
    /// the file.
    pub open spec fn sound(self, dir: Seq<char>, m: ManifestView) -> bool {
        &&& self.bitmap.chunk_count == m.chunk_count
        &&& self.bitmap.full_length()
        &&& forall|c: u32| #[trigger]
            self.bitmap.holds(c) ==> verified_on_disk(self.disk, dir, m, c)
    }

    /// What can happen next. What is read of a chunk is what is on disk. Only the chunk of a
    /// transfer that has come to its end is written, and it counts only once it is on disk.
    /// A chunk that counts as received is not fetched again.
    pub open spec fn admits(self, dir: Seq<char>, m: ManifestView, e: Progression) -> bool {
        match e {
            Progression::Resume { chunk_index, data } => {
                let place = chunk_location(dir, m.file_id, chunk_index);
                &&& chunk_index < m.chunk_hashes.len()
                &&& data is Some ==> self.disk.contains_key(place) && data->0 == self.disk[place]
            },
            Progression::Write { transfer } => transfer.valid(m) && transfer.stage is Storing,
            Progression::FailWrite { chunk_index, .. } => !self.bitmap.holds(chunk_index),
            Progression::Count { transfer } => {
                let place = chunk_location(dir, m.file_id, transfer.chunk_index);
                &&& transfer.valid(m)
                &&& self.disk.contains_key(place)
                &&& transfer.stage == (TransferStageView::Storing { data: self.disk[place] })
            },
        }
    }

    /// The download afterwards.
    pub open spec fn after(self, dir: Seq<char>, m: ManifestView, e: Progression) -> Progress {
        match e {
            Progression::Resume { chunk_index, data } => Progress {
                bitmap: resumed(self.bitmap, m, chunk_index, data),
                ..self
            },
            Progression::Write { transfer } => Progress {
                disk: self.disk.insert(
                    chunk_location(dir, m.file_id, transfer.chunk_index),
                    transfer.stage->data,
                ),
                ..self
            },
            Progression::FailWrite { chunk_index, left } => {
                let place = chunk_location(dir, m.file_id, chunk_index);
                Progress {
                    disk: match left {
                        Some(bytes) => self.disk.insert(place, bytes),
                        None => self.disk.remove(place),
                    },
                    ..self
                }
            },
            Progression::Count { transfer } => Progress {
                bitmap: self.bitmap.marked(transfer.chunk_index),
                ..self
            },
        }
    }

    /// The download when a number of things have happened.
    pub open spec fn after_all(
        self,
        dir: Seq<char>,
        m: ManifestView,
        events: Seq<Progression>,
    ) -> Progress
        decreases events.len(),
    {
        if events.len() == 0 {
            self
        } else {
            self.after_all(dir, m, events.drop_last()).after(dir, m, events.last())
        }
    }

    /// All of these can happen, one after the other.
    pub open spec fn admits_all(
        self,
        dir: Seq<char>,
        m: ManifestView,
        events: Seq<Progression>,
    ) -> bool {
        forall|i: int|
            0 <= i < events.len() ==> (#[trigger] self.after_all(dir, m, events.take(i))).admits(
                dir,
                m,
                events[i],
            )
    }
}

/// Whatever happens next, what counts as received stays on disk and verified, nothing that
/// counts ceases to, and only files of chunks of this file change.
pub proof fn download_stays_sound(p: Progress, dir: Seq<char>, m: ManifestView, e: Progression)
    requires
        p.sound(dir, m),
        p.admits(dir, m, e),
    ensures
        p.after(dir, m, e).sound(dir, m),
        forall|c: u32| #[trigger]
            p.bitmap.holds(c) ==> p.after(dir, m, e).bitmap.holds(c),
        same_elsewhere(p.disk, p.after(dir, m, e).disk, dir, m.file_id),
{
    let q = p.after(dir, m, e);
    assert forall|c: u32| #[trigger] q.bitmap.holds(c) implies verified_on_disk(
        q.disk,
        dir,
        m,
        c,
    ) by {
        if p.bitmap.holds(c) {
            assert(verified_on_disk(p.disk, dir, m, c));
        }
        let touched = match e {
            Progression::Resume { chunk_index, .. } => chunk_index,
            Progression::Write { transfer } => transfer.chunk_index,
            Progression::FailWrite { chunk_index, .. } => chunk_index,
            Progression::Count { transfer } => transfer.chunk_index,
        };
        if chunk_location(dir, m.file_id, c) == chunk_location(dir, m.file_id, touched) {
            locations_of_one_file_are_distinct(dir, m.file_id, c, touched);
        }
    }
}

/// A download that has come to its end: from any files on disk, whatever happened on the way,
/// every chunk that counts as received is on disk with the digest of the manifest. So once
/// there is no further round, because the bitmap is complete, all chunks of the file are. No
/// file but those of the chunks was touched.
pub proof fn finished_download_is_on_disk(
    disk: Map<Seq<char>, Seq<u8>>,
    dir: Seq<char>,
    m: ManifestView,
    events: Seq<Progression>,
)
    requires
        download_begun(disk, m).admits_all(dir, m, events),
    ensures
        ({
            let end = download_begun(disk, m).after_all(dir, m, events);
            &&& end.sound(dir, m)
            &&& end.bitmap.is_complete() ==> forall|c: u32|
                c < m.chunk_count ==> #[trigger] verified_on_disk(end.disk, dir, m, c)
            &&& same_elsewhere(disk, end.disk, dir, m.file_id)
        }),
    decreases events.len(),
{
    let begin = download_begun(disk, m);
    let end = begin.after_all(dir, m, events);
    if events.len() > 0 {
        let front = events.drop_last();
        assert(events.take(events.len() - 1) =~= front);
        assert forall|i: int| 0 <= i < front.len() implies (#[trigger] begin.after_all(
            dir,
            m,
            front.take(i),
        )).admits(dir, m, front[i]) by {
            assert(front.take(i) =~= events.take(i));
            assert(begin.after_all(dir, m, events.take(i)).admits(dir, m, events[i]));
        }
        finished_download_is_on_disk(disk, dir, m, front);
        let before = begin.after_all(dir, m, front);
        assert(begin.after_all(dir, m, events.take(events.len() - 1)).admits(
            dir,
            m,
            events[events.len() - 1],
        ));
        download_stays_sound(before, dir, m, events.last());
    }
    if end.bitmap.is_complete() {
        complete_means_holds_all(end.bitmap);
        assert forall|c: u32| c < m.chunk_count implies #[trigger] verified_on_disk(
            end.disk,
            dir,
            m,
            c,
        ) by {
            assert(end.bitmap.holds(c));
        }
    }
}

} // verus!
