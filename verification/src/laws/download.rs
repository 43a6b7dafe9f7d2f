//! Laws of downloading: rounds, the fetching of a chunk, its transfer, and what is resumed.

use vstd::arithmetic::power2::{lemma2_to64, lemma_pow2_unfold};
use vstd::prelude::*;

use crate::bitmap::ChunkBitmap;
use crate::error::DistError;
use crate::hash::hash_text;
use crate::laws::bitmap::lemma_all_places;
use crate::manifest::Manifest;
use crate::peer::downloader::{
    backoff_ms, fetch_order, knows_chunk, next_round, resume_chunk, round_chunks, ChunkFetch,
    FetchAction, FetchEvent, StageView, Transfer,
};
use crate::proto::{infos_of, PeerInfo};
use crate::text::decimal;
use crate::tracker::scheduler::chunks_of;

verus! {

/// There is a further round exactly until every chunk has its bit and all bits are set; the
/// missing chunks are those of the clear bits, in ascending order.
pub proof fn rounds_end_with_last_bit(b: &ChunkBitmap, r: Option<Vec<u32>>)
    requires
        call_ensures(next_round, (b,), r),
        b@.bits.len() <= b@.chunk_count,
    ensures
        r is None <==> b@.bits.len() == b@.chunk_count && forall|i: int|
            0 <= i < b@.bits.len() ==> #[trigger] b@.bits[i],
        r is Some ==> {
            &&& forall|i: int, j: int| 0 <= i < j < r->0@.len() ==> r->0@[i] < r->0@[j]
            &&& forall|c: u32| #[trigger]
                r->0@.contains(c) <==> c < b@.bits.len() && !b@.bits[c as int]
        },
{
    lemma_all_places(b@.bits);
    if r is Some {
        let list = r->0@;
        assert forall|c: u32| #[trigger] list.contains(c) implies c < b@.bits.len()
            && !b@.bits[c as int] by {
            let k = choose|k: int| 0 <= k < list.len() && list[k] == c;
            assert(!b@.bits[list[k] as int]);
        }
    }
}

/// The chunks of a round are the first of the order, twice as many as can be fetched at a
/// time, or all if there are fewer.
pub proof fn round_takes_first_chunks(order: &Vec<u32>, concurrency: usize, r: Vec<u32>)
    requires
        call_ensures(round_chunks, (order, concurrency), r),
    ensures
        r@.len() == if 2 * concurrency < order@.len() {
            2 * concurrency as int
        } else {
            order@.len() as int
        },
        forall|i: int| 0 <= i < r@.len() ==> #[trigger] r@[i] == order@[i],
{
}

/// Missing chunks are fetched in the order in which the tracker ranks them, if it ranks just
/// these; otherwise as they are. Either way just the missing chunks are fetched, each once.
pub proof fn ranking_is_followed(
    missing: Vec<u32>,
    ranked: Option<Vec<(u32, u32)>>,
    r: Vec<u32>,
)
    requires
        call_ensures(fetch_order, (missing, ranked), r),
        forall|i: int, j: int| 0 <= i < j < missing@.len() ==> missing@[i] < missing@[j],
    ensures
        r@.len() == missing@.len(),
        forall|c: u32| #[trigger] r@.contains(c) <==> missing@.contains(c),
        r@.no_duplicates(),
        ranked is None ==> r@ == missing@,
        ranked is Some && ranked->0@.len() == missing@.len() && (forall|i: int|
            0 <= i < ranked->0@.len() ==> missing@.contains((#[trigger] ranked->0@[i]).0)) && (
        forall|c: u32| #[trigger]
            missing@.contains(c) ==> exists|k: int|
                0 <= k < ranked->0@.len() && (#[trigger] ranked->0@[k]).0 == c) ==> forall|i: int|
            0 <= i < r@.len() ==> #[trigger] r@[i] == ranked->0@[i].0,
        ranked is Some && (ranked->0@.len() != missing@.len() || (exists|i: int|
            0 <= i < ranked->0@.len() && !missing@.contains((#[trigger] ranked->0@[i]).0)) || (
        exists|c: u32| #[trigger]
            missing@.contains(c) && (forall|k: int|
                0 <= k < ranked->0@.len() ==> (#[trigger] ranked->0@[k]).0 != c))) ==> r@
            == missing@,
{
    assert(missing@.no_duplicates());
    assert(r@.to_set() =~= missing@.to_set()) by {
        assert forall|c: u32| r@.to_set().contains(c) <==> missing@.to_set().contains(c) by {
            assert(r@.contains(c) <==> missing@.contains(c));
        }
    }
    missing@.unique_seq_to_set();
    r@.lemma_no_dup_set_cardinality();
    if ranked is Some {
        let pairs = ranked->0@;
        let list = chunks_of(pairs);
        if pairs.len() == missing@.len() && (forall|i: int|
            0 <= i < pairs.len() ==> missing@.contains((#[trigger] pairs[i]).0)) && (forall|
            c: u32,
        | #[trigger]
            missing@.contains(c) ==> exists|k: int|
                0 <= k < pairs.len() && (#[trigger] pairs[k]).0 == c) {
            assert forall|c: u32| #[trigger] list.contains(c) <==> missing@.contains(c) by {
                if list.contains(c) {
                    let k = choose|k: int| 0 <= k < list.len() && list[k] == c;
                    assert(missing@.contains(pairs[k].0));
                }
                if missing@.contains(c) {
                    let k = choose|k: int|
                        0 <= k < pairs.len() && (#[trigger] pairs[k]).0 == c;
                    assert(list[k] == c);
                }
            }
        }
        if exists|i: int| 0 <= i < pairs.len() && !missing@.contains((#[trigger] pairs[i]).0) {
            let i = choose|i: int|
                0 <= i < pairs.len() && !missing@.contains((#[trigger] pairs[i]).0);
            assert(list[i] == pairs[i].0);
            assert(list.contains(pairs[i].0));
        }
        if exists|c: u32| #[trigger]
            missing@.contains(c) && (forall|k: int|
                0 <= k < pairs.len() ==> (#[trigger] pairs[k]).0 != c) {
            let c = choose|c: u32| #[trigger]
                missing@.contains(c) && (forall|k: int|
                    0 <= k < pairs.len() ==> (#[trigger] pairs[k]).0 != c);
            if list.contains(c) {
                let k = choose|k: int| 0 <= k < list.len() && list[k] == c;
                assert(pairs[k].0 == c);
            }
        }
    }
}

/// The pause doubles with every attempt, from 200 milliseconds on.
pub proof fn pauses_double(attempt: u32, r: u64, next: u64)
    requires
        call_ensures(backoff_ms, (attempt,), r),
        attempt < u32::MAX,
        call_ensures(backoff_ms, ((attempt + 1) as u32,), next),
    ensures
        attempt == 0 ==> r == 200,
        next == 2 * r,
{
    lemma2_to64();
    lemma_pow2_unfold((attempt + 1) as nat);
}

/// A fetch begins with its first attempt, by asking the tracker.
pub proof fn fetch_begins_with_query(f: ChunkFetch, a: FetchAction)
    requires
        call_ensures(ChunkFetch::new, (), f),
        call_ensures(ChunkFetch::action, (&f,), a),
    ensures
        f.attempt == 0,
        a is AskTracker,
{
    assert(f@.attempt == f.attempt);
}

/// The peers that the tracker names are tried one after the other, in the order in which it
/// names them, from the first to the last, as long as none delivers; only then comes a pause.
/// The first that delivers ends the fetch. `states` are those after each failure, `actions`
/// what is done in each, and `ends` where a download from there would lead.
pub proof fn every_peer_is_tried_in_turn(
    start: ChunkFetch,
    list: Vec<PeerInfo>,
    states: Seq<ChunkFetch>,
    actions: Seq<FetchAction>,
    ends: Seq<ChunkFetch>,
    last: Seq<FetchAction>,
)
    requires
        call_ensures(ChunkFetch::action, (&start,), FetchAction::AskTracker),
        call_ensures(ChunkFetch::step, (start, FetchEvent::Peers(list)), states[0]),
        states.len() == list@.len() + 1,
        actions.len() == states.len(),
        ends.len() == list@.len(),
        last.len() == list@.len(),
        forall|i: int|
            0 <= i < list@.len() ==> #[trigger] call_ensures(
                ChunkFetch::step,
                (states[i], FetchEvent::DownloadFailed),
                states[i + 1],
            ),
        forall|i: int|
            0 <= i < states.len() ==> call_ensures(
                ChunkFetch::action,
                (&#[trigger] states[i],),
                actions[i],
            ),
        forall|i: int|
            0 <= i < list@.len() ==> call_ensures(
                ChunkFetch::step,
                (states[i], FetchEvent::Downloaded),
                #[trigger] ends[i],
            ),
        forall|i: int|
            0 <= i < list@.len() ==> call_ensures(
                ChunkFetch::action,
                (&#[trigger] ends[i],),
                last[i],
            ),
    ensures
        forall|i: int|
            0 <= i < list@.len() ==> (#[trigger] actions[i]) is Download && actions[i]->Download_0
                .node_id@ == list@[i].node_id@ && actions[i]->Download_0.peer_addr@
                == list@[i].peer_addr@ && actions[i]->Download_0.rack_id@ == list@[i].rack_id@,
        actions[list@.len() as int] is Pause,
        forall|i: int| 0 <= i < list@.len() ==> #[trigger] last[i] == FetchAction::Finish(true),
        forall|i: int|
            0 <= i < states.len() ==> (#[trigger] states[i]).attempt == start.attempt,
{
    lemma_tried(start, list, states, list@.len() as int);
    assert forall|i: int| 0 <= i < list@.len() implies (#[trigger] actions[i]) is Download
        && actions[i]->Download_0.node_id@ == list@[i].node_id@
        && actions[i]->Download_0.peer_addr@ == list@[i].peer_addr@
        && actions[i]->Download_0.rack_id@ == list@[i].rack_id@ by {
        lemma_tried(start, list, states, i);
        assert(call_ensures(ChunkFetch::action, (&states[i],), actions[i]));
        assert(actions[i]->Download_0@ == infos_of(list@)[i]);
        assert(infos_of(list@)[i] == list@[i]@);
    }
    assert(call_ensures(
        ChunkFetch::action,
        (&states[list@.len() as int],),
        actions[list@.len() as int],
    ));
    assert forall|i: int| 0 <= i < list@.len() implies #[trigger] last[i] == FetchAction::Finish(
        true,
    ) by {
        lemma_tried(start, list, states, i);
        assert(call_ensures(
            ChunkFetch::step,
            (states[i], FetchEvent::Downloaded),
            ends[i],
        ));
        assert(call_ensures(ChunkFetch::action, (&ends[i],), last[i]));
    }
    assert forall|i: int| 0 <= i < states.len() implies (#[trigger] states[i]).attempt
        == start.attempt by {
        lemma_tried(start, list, states, i);
    }
}

proof fn lemma_tried(start: ChunkFetch, list: Vec<PeerInfo>, states: Seq<ChunkFetch>, i: int)
    requires
        call_ensures(ChunkFetch::action, (&start,), FetchAction::AskTracker),
        call_ensures(ChunkFetch::step, (start, FetchEvent::Peers(list)), states[0]),
        states.len() == list@.len() + 1,
        forall|i: int|
            0 <= i < list@.len() ==> #[trigger] call_ensures(
                ChunkFetch::step,
                (states[i], FetchEvent::DownloadFailed),
                states[i + 1],
            ),
        0 <= i <= list@.len(),
    ensures
        states[i]@.attempt == start@.attempt,
        i < list@.len() ==> states[i]@.stage == (StageView::Trying {
            peers: infos_of(list@),
            next: i,
        }),
        i == list@.len() ==> states[i]@.stage is Pausing,
    decreases i,
{
    if i > 0 {
        lemma_tried(start, list, states, i - 1);
        assert(call_ensures(
            ChunkFetch::step,
            (states[i - 1], FetchEvent::DownloadFailed),
            states[i - 1 + 1],
        ));
    }
}

/// A query that fails, and one that names nobody, is followed by a pause in the same attempt.
pub proof fn failed_query_is_followed_by_pause(
    f: ChunkFetch,
    e: FetchEvent,
    g: ChunkFetch,
    a: FetchAction,
)
    requires
        call_ensures(ChunkFetch::action, (&f,), FetchAction::AskTracker),
        call_ensures(ChunkFetch::step, (f, e), g),
        call_ensures(ChunkFetch::action, (&g,), a),
        e is QueryFailed || (e is Peers && e->Peers_0@.len() == 0),
    ensures
        a is Pause,
        g.attempt == f.attempt,
{
    assert(f@.attempt == f.attempt && g@.attempt == g.attempt);
}

/// There are three attempts: a pause, of 200, 400 and 800 milliseconds, is followed by another
/// query after the first and the second, and by the end without the chunk after the third.
pub proof fn three_attempts_are_made(
    f: ChunkFetch,
    a: FetchAction,
    g: ChunkFetch,
    b: FetchAction,
)
    requires
        call_ensures(ChunkFetch::action, (&f,), a),
        a is Pause,
        call_ensures(ChunkFetch::step, (f, FetchEvent::Paused), g),
        call_ensures(ChunkFetch::action, (&g,), b),
    ensures
        f.attempt < 3,
        g.attempt == f.attempt + 1,
        f.attempt == 0 ==> a == FetchAction::Pause(200) && b is AskTracker,
        f.attempt == 1 ==> a == FetchAction::Pause(400) && b is AskTracker,
        f.attempt == 2 ==> a == FetchAction::Pause(800) && b == FetchAction::Finish(false),
{
    lemma2_to64();
    assert(f@.attempt == f.attempt && g@.attempt == g.attempt);
}

/// A fetch ends with the chunk only by a download that succeeded.
pub proof fn chunk_comes_by_download_only(
    f: ChunkFetch,
    before: FetchAction,
    e: FetchEvent,
    g: ChunkFetch,
    a: FetchAction,
)
    requires
        call_ensures(ChunkFetch::action, (&f,), before),
        match before {
            FetchAction::AskTracker => e is QueryFailed || e is Peers,
            FetchAction::Download(_) => e is Downloaded || e is DownloadFailed,
            FetchAction::Pause(_) => e is Paused,
            FetchAction::Finish(_) => false,
        },
        call_ensures(ChunkFetch::step, (f, e), g),
        call_ensures(ChunkFetch::action, (&g,), a),
    ensures
        a == FetchAction::Finish(true) <==> e is Downloaded,
{
}

/// Which chunks can be transferred: those that start within the file and have a digest.
pub proof fn known_chunk_starts_in_file(m: &Manifest, chunk_index: u32, r: bool)
    requires
        call_ensures(knows_chunk, (m, chunk_index), r),
    ensures
        r <==> chunk_index * m.chunk_size <= m.total_size && chunk_index < m.chunk_hashes@.len(),
{
    assert(m@.chunk_hashes.len() == m.chunk_hashes@.len());
}

/// A transfer, piece by piece: four bytes are read first. If they are not all zero the
/// transfer ends with an error; otherwise eight bytes follow, the length with the most
/// significant byte first. If it is not that of the chunk in the file the transfer ends with
/// an error; otherwise so many bytes follow. If they do not have the digest of the manifest
/// the transfer ends with the mismatch; otherwise they are what is to be stored, and once they
/// are, the chunk counts as received and no other does.
pub proof fn transfer_takes_only_the_chunk(
    m: &Manifest,
    peer_id: &str,
    chunk_index: u32,
    begin: Transfer,
    status: Vec<u8>,
    first: Result<Transfer, DistError>,
    length: Vec<u8>,
    second: Result<Transfer, DistError>,
    content: Vec<u8>,
    third: Result<Transfer, DistError>,
    wanted: (Option<u64>, Option<u64>, Option<u64>, Option<u64>),
    chunk: Option<&Vec<u8>>,
    b: &mut ChunkBitmap,
)
    requires
        call_ensures(Transfer::new, (m, peer_id, chunk_index), begin),
        call_ensures(Transfer::wanted, (&begin,), wanted.0),
        status@.len() == 4,
        call_ensures(Transfer::feed, (begin, m, status), first),
        length@.len() == 8,
        first is Ok ==> call_ensures(Transfer::wanted, (&first->Ok_0,), wanted.1) && call_ensures(
            Transfer::feed,
            (first->Ok_0, m, length),
            second,
        ),
        first is Ok && second is Ok ==> call_ensures(
            Transfer::wanted,
            (&second->Ok_0,),
            wanted.2,
        ) && call_ensures(Transfer::feed, (second->Ok_0, m, content), third),
        first is Ok && second is Ok && third is Ok ==> call_ensures(
            Transfer::wanted,
            (&third->Ok_0,),
            wanted.3,
        ) && call_ensures(Transfer::chunk, (&third->Ok_0,), chunk) && call_ensures(
            Transfer::stored,
            (third->Ok_0, m, b),
            (),
        ),
        chunk_index < old(b)@.bits.len() <= old(b)@.chunk_count,
    ensures
        wanted.0 == Some(4u64),
        first is Ok <==> status@[0] == 0 && status@[1] == 0 && status@[2] == 0 && status@[3] == 0,
        first is Err ==> first->Err_0 is Proto && first->Err_0->Proto_0@ == "peer "@ + peer_id@
            + " returned error status "@ + decimal(
            (status@[0] * 0x100_0000 + status@[1] * 0x1_0000 + status@[2] * 0x100
                + status@[3]) as nat,
        ) + " for chunk "@ + decimal(chunk_index as nat),
        first is Ok ==> {
            let said = length@[0] * 0x100_0000_0000_0000 + length@[1] * 0x1_0000_0000_0000
                + length@[2] * 0x100_0000_0000 + length@[3] * 0x1_0000_0000 + length@[4]
                * 0x100_0000 + length@[5] * 0x1_0000 + length@[6] * 0x100 + length@[7];
            let start = chunk_index * m.chunk_size;
            let size = if start + m.chunk_size <= m.total_size {
                m.chunk_size as int
            } else {
                m.total_size - start
            };
            &&& wanted.1 == Some(8u64)
            &&& second is Ok <==> said == size
            &&& second is Err ==> second->Err_0 is Proto && second->Err_0->Proto_0@ == "chunk "@
                + decimal(chunk_index as nat) + ": expected "@ + decimal(size as nat)
                + " bytes, got "@ + decimal(said as nat)
            &&& second is Ok ==> wanted.2 is Some && wanted.2->0 == size
        },
        first is Ok && second is Ok ==> {
            &&& third is Ok <==> hash_text(content@) == m.chunk_hashes@[chunk_index as int]@
            &&& third is Err ==> third->Err_0 is HashMismatch && third->Err_0->index == chunk_index
                && third->Err_0->expected@ == m.chunk_hashes@[chunk_index as int]@
                && third->Err_0->actual@ == hash_text(content@)
        },
        first is Ok && second is Ok && third is Ok ==> {
            &&& wanted.3 is None
            &&& chunk is Some && chunk->0@ == content@
            &&& final(b)@.bits.len() == old(b)@.bits.len()
            &&& final(b)@.chunk_count == old(b)@.chunk_count
            &&& final(b)@.bits[chunk_index as int]
            &&& forall|i: int|
                0 <= i < old(b)@.bits.len() && i != chunk_index ==> #[trigger] final(b)@.bits[i]
                    == old(b)@.bits[i]
        },
{
    assert(m@.chunk_hashes[chunk_index as int] == m.chunk_hashes@[chunk_index as int]@);
    assert(length@.take(4) =~= seq![length@[0], length@[1], length@[2], length@[3]]);
    assert(length@.skip(4) =~= seq![length@[4], length@[5], length@[6], length@[7]]);
}

/// A chunk of an earlier run counts as received exactly if it could be read and has the digest
/// of the manifest; no other bit changes.
pub proof fn resumed_chunk_has_its_digest(
    m: &Manifest,
    b: &mut ChunkBitmap,
    chunk_index: u32,
    data: Option<&[u8]>,
    r: bool,
)
    requires
        call_ensures(resume_chunk, (m, b, chunk_index, data), r),
        chunk_index < m.chunk_hashes@.len(),
        chunk_index < old(b)@.bits.len() <= old(b)@.chunk_count,
    ensures
        r <==> data is Some && hash_text(data->0@) == m.chunk_hashes@[chunk_index as int]@,
        final(b)@.bits.len() == old(b)@.bits.len(),
        final(b)@.chunk_count == old(b)@.chunk_count,
        final(b)@.bits[chunk_index as int] == (r || old(b)@.bits[chunk_index as int]),
        forall|i: int|
            0 <= i < old(b)@.bits.len() && i != chunk_index ==> #[trigger] final(b)@.bits[i]
                == old(b)@.bits[i],
{
    assert(m@.chunk_hashes[chunk_index as int] == m.chunk_hashes@[chunk_index as int]@);
}

} // verus!
