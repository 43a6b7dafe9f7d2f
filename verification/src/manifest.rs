//! The manifest: how a model file is cut into chunks, and the digest of each chunk.

pub use crate::bitmap::ChunkBitmap;

use vstd::prelude::*;

use crate::error::DistError;
use crate::hash::{check_digest, digest_verdict, hash_bytes, hash_text};

verus! {

/// File-level metadata that every node has before a transfer begins: the single
/// source of truth for structure and integrity.
#[derive(Debug, PartialEq, Eq)]
pub struct Manifest {
    pub file_id: String,
    pub version: String,
    pub total_size: u64,
    pub chunk_size: u64,
    pub chunk_count: u32,
    /// SHA-256 digest text per chunk, by chunk index.
    pub chunk_hashes: Vec<String>,
}

/// The content of a manifest.
#[verifier::ext_equal]
pub struct ManifestView {
    pub file_id: Seq<char>,
    pub version: Seq<char>,
    pub total_size: u64,
    pub chunk_size: u64,
    pub chunk_count: u32,
    pub chunk_hashes: Seq<Seq<char>>,
}

impl View for Manifest {
    type V = ManifestView;

    open spec fn view(&self) -> ManifestView {
        ManifestView {
            file_id: self.file_id@,
            version: self.version@,
            total_size: self.total_size,
            chunk_size: self.chunk_size,
            chunk_count: self.chunk_count,
            chunk_hashes: texts(self.chunk_hashes@),
        }
    }
}

/// The characters of each string of a list.
pub open spec fn texts(list: Seq<String>) -> Seq<Seq<char>> {
    list.map_values(|s: String| s@)
}

/// How many chunks of `chunk_size` bytes it takes to hold `total_size` bytes.
pub open spec fn chunk_total(total_size: int, chunk_size: int) -> int {
    (total_size + chunk_size - 1) / chunk_size
}

/// The count of chunks that a manifest records. The field for it has 32 bits: a count that
/// does not fit is cut to its low bits, and the manifest then describes so many chunks.
pub open spec fn recorded_count(total_size: int, chunk_size: int) -> u32 {
    (chunk_total(total_size, chunk_size) % 0x1_0000_0000) as u32
}

/// Where chunk `index` starts.
pub open spec fn chunk_start(index: int, chunk_size: int) -> int {
    index * chunk_size
}

/// Where chunk `index` ends: it is full, or it is cut off by the end of the file.
pub open spec fn chunk_end(index: int, chunk_size: int, total_size: int) -> int {
    if chunk_start(index, chunk_size) + chunk_size <= total_size {
        chunk_start(index, chunk_size) + chunk_size
    } else {
        total_size
    }
}

/// The content of chunk `index` of a file.
pub open spec fn chunk_data(data: Seq<u8>, index: int, chunk_size: int) -> Seq<u8> {
    data.subrange(
        chunk_start(index, chunk_size),
        chunk_end(index, chunk_size, data.len() as int),
    )
}

/// A manifest can describe all of a file of this size in chunks of this size: the number of
/// chunks fits in the field for it.
pub open spec fn chunkable(total_size: int, chunk_size: int) -> bool {
    &&& chunk_size > 0
    &&& chunk_total(total_size, chunk_size) <= u32::MAX
}

/// The digest texts of the chunks that a manifest of the file describes, in order.
pub open spec fn chunk_digests(data: Seq<u8>, chunk_size: int) -> Seq<Seq<char>> {
    Seq::new(
        recorded_count(data.len() as int, chunk_size) as nat,
        |i: int| hash_text(chunk_data(data, i, chunk_size)),
    )
}

/// The manifest of a file with the given content.
pub open spec fn manifest_of(
    file_id: Seq<char>,
    version: Seq<char>,
    data: Seq<u8>,
    chunk_size: u64,
) -> ManifestView {
    ManifestView {
        file_id,
        version,
        total_size: data.len() as u64,
        chunk_size,
        chunk_count: recorded_count(data.len() as int, chunk_size as int),
        chunk_hashes: chunk_digests(data, chunk_size as int),
    }
}

/// The chunks of a file follow each other without gap or overlap; all but the last are
/// full, and none is empty.
pub proof fn chunk_bounds(index: int, chunk_size: int, total_size: int)
    requires
        chunk_size > 0,
        0 <= index < chunk_total(total_size, chunk_size),
        0 <= total_size,
    ensures
        0 <= chunk_start(index, chunk_size) < chunk_end(index, chunk_size, total_size)
            <= total_size,
        index + 1 < chunk_total(total_size, chunk_size) ==> chunk_end(
            index,
            chunk_size,
            total_size,
        ) == chunk_start(index + 1, chunk_size) == chunk_start(index, chunk_size) + chunk_size,
        index + 1 == chunk_total(total_size, chunk_size) ==> chunk_end(
            index,
            chunk_size,
            total_size,
        ) == total_size,
{
    let n = chunk_total(total_size, chunk_size);
    let x = total_size + chunk_size - 1;
    assert(n * chunk_size <= x < n * chunk_size + chunk_size) by (nonlinear_arith)
        requires
            n == x / chunk_size,
            chunk_size > 0,
    ;
    assert(index * chunk_size + chunk_size <= n * chunk_size) by (nonlinear_arith)
        requires
            index + 1 <= n,
            chunk_size > 0,
    ;
    assert(0 <= index * chunk_size) by (nonlinear_arith)
        requires
            0 <= index,
            chunk_size > 0,
    ;
    assert((index + 1) * chunk_size == index * chunk_size + chunk_size) by (nonlinear_arith);
    if index + 1 < n {
        assert((index + 1) * chunk_size + chunk_size <= n * chunk_size) by (nonlinear_arith)
            requires
                index + 2 <= n,
                chunk_size > 0,
        ;
    }
}

/// The chunks up to `count`, put back together.
pub open spec fn joined_chunks(data: Seq<u8>, chunk_size: int, count: int) -> Seq<u8>
    decreases count,
{
    if count <= 0 {
        Seq::empty()
    } else {
        joined_chunks(data, chunk_size, count - 1) + chunk_data(data, count - 1, chunk_size)
    }
}

proof fn lemma_joined_prefix(data: Seq<u8>, chunk_size: int, count: int)
    requires
        chunk_size > 0,
        0 <= count <= chunk_total(data.len() as int, chunk_size),
    ensures
        count > 0 ==> joined_chunks(data, chunk_size, count) == data.take(
            chunk_end(count - 1, chunk_size, data.len() as int),
        ),
        count == 0 ==> joined_chunks(data, chunk_size, count) == Seq::<u8>::empty(),
    decreases count,
{
    if count > 0 {
        lemma_joined_prefix(data, chunk_size, count - 1);
        chunk_bounds(count - 1, chunk_size, data.len() as int);
        if count > 1 {
            chunk_bounds(count - 2, chunk_size, data.len() as int);
        }
        assert(joined_chunks(data, chunk_size, count) =~= data.take(
            chunk_end(count - 1, chunk_size, data.len() as int),
        ));
    }
}

/// The chunks of a file, put together in order, are the file.
pub proof fn chunks_cover_file(data: Seq<u8>, chunk_size: int)
    requires
        chunk_size > 0,
    ensures
        joined_chunks(data, chunk_size, chunk_total(data.len() as int, chunk_size)) == data,
{
    let n = chunk_total(data.len() as int, chunk_size);
    let x = data.len() + chunk_size - 1;
    assert(0 <= n && (n == 0 ==> x < chunk_size)) by (nonlinear_arith)
        requires
            n == x / chunk_size,
            chunk_size > 0,
            x >= 0,
    ;
    lemma_joined_prefix(data, chunk_size, n);
    if n > 0 {
        chunk_bounds(n - 1, chunk_size, data.len() as int);
    }
    assert(joined_chunks(data, chunk_size, n) =~= data);
}

fn chunks_needed(total_size: u64, chunk_size: u64) -> (r: u32)
    requires
        chunk_size > 0,
    ensures
        r == recorded_count(total_size as int, chunk_size as int),
{
    let full: u64 = total_size / chunk_size;
    let rest: u64 = total_size % chunk_size;
    proof {
        lemma_rounded_up(total_size as int, chunk_size as int);
    }
    let count: u64 = if rest > 0 {
        full + 1
    } else {
        full
    };
    (count % 0x1_0000_0000) as u32
}

/// No more chunks are recorded than the file has, and just as many where the count fits.
pub proof fn recorded_count_bounds(total_size: int, chunk_size: int)
    requires
        chunk_size > 0,
        0 <= total_size,
    ensures
        0 <= recorded_count(total_size, chunk_size) <= chunk_total(total_size, chunk_size),
        chunkable(total_size, chunk_size) ==> recorded_count(total_size, chunk_size)
            == chunk_total(total_size, chunk_size),
{
    lemma_rounded_up(total_size, chunk_size);
}

/// The manifest of a file describes all of it, where the number of chunks fits: its chunks,
/// put together in order, are the file.
pub proof fn manifest_describes_file(
    file_id: Seq<char>,
    version: Seq<char>,
    data: Seq<u8>,
    chunk_size: u64,
)
    requires
        chunkable(data.len() as int, chunk_size as int),
    ensures
        ({
            let m = manifest_of(file_id, version, data, chunk_size);
            &&& m.chunk_count == chunk_total(data.len() as int, chunk_size as int)
            &&& m.chunk_hashes.len() == m.chunk_count
            &&& joined_chunks(data, chunk_size as int, m.chunk_count as int) == data
        }),
{
    recorded_count_bounds(data.len() as int, chunk_size as int);
    chunks_cover_file(data, chunk_size as int);
}

/// The quotient, rounded up, is the quotient and one more if there is a rest.
pub proof fn lemma_rounded_up(n: int, d: int)
    requires
        d > 0,
        n >= 0,
    ensures
        (n + d - 1) / d == n / d + if n % d > 0 {
            1int
        } else {
            0
        },
        n / d >= 0,
        n % d > 0 ==> n / d < n,
{
    let q = n / d;
    let r = n % d;
    let x = n + d - 1;
    assert(n == q * d + r && 0 <= r < d && q >= 0) by (nonlinear_arith)
        requires
            q == n / d,
            r == n % d,
            d > 0,
            n >= 0,
    ;
    assert(q * d >= q) by (nonlinear_arith)
        requires
            q >= 0,
            d >= 1,
    ;
    if r > 0 {
        assert(x / d == q + 1) by (nonlinear_arith)
            requires
                x == q * d + r + d - 1,
                0 < r < d,
        ;
    } else {
        assert(x / d == q) by (nonlinear_arith)
            requires
                x == q * d + d - 1,
                d > 0,
        ;
    }
}

fn chunk_range_inner(index: u32, chunk_size: u64, total_size: u64) -> (r: (u64, u64))
    requires
        chunk_start(index as int, chunk_size as int) <= u64::MAX,
    ensures
        r.0 == chunk_start(index as int, chunk_size as int),
        r.1 == chunk_end(index as int, chunk_size as int, total_size as int),
{
    let start: u64 = index as u64 * chunk_size;
    let end: u64 = if start <= total_size && chunk_size <= total_size - start {
        start + chunk_size
    } else {
        total_size
    };
    (start, end)
}

impl Clone for Manifest {
    fn clone(&self) -> (r: Self)
        ensures
            r@ == self@,
    {
        let chunk_hashes = self.chunk_hashes.clone();
        assert(texts(chunk_hashes@) =~= texts(self.chunk_hashes@));
        Manifest {
            file_id: self.file_id.clone(),
            version: self.version.clone(),
            total_size: self.total_size,
            chunk_size: self.chunk_size,
            chunk_count: self.chunk_count,
            chunk_hashes,
        }
    }
}

impl Manifest {
    /// Builds the manifest of a file held in memory: cuts it into chunks and hashes each.
    pub fn build(file_id: &str, version: &str, data: &[u8], chunk_size: u64) -> (r: Result<
        Manifest,
        DistError,
    >)
        requires
            chunk_size > 0,
        ensures
            r matches Ok(m) && m@ == manifest_of(file_id@, version@, data@, chunk_size),
    {
        let len: usize = data.len();
        let total_size: u64 = len as u64;
        let mut builder = ManifestBuilder::new(file_id, version, total_size, chunk_size);
        let mut i: u32 = 0;
        while i < builder.manifest.chunk_count
            invariant
                total_size == len,
                len == data@.len(),
                chunk_size > 0,
                builder@.chunk_count == recorded_count(data@.len() as int, chunk_size as int),
                builder@.file_id == file_id@,
                builder@.version == version@,
                builder@.total_size == total_size,
                builder@.chunk_size == chunk_size,
                builder@.chunk_hashes == chunk_digests(data@, chunk_size as int).take(i as int),
                i <= builder@.chunk_count,
            decreases builder@.chunk_count - i,
        {
            proof {
                recorded_count_bounds(total_size as int, chunk_size as int);
                chunk_bounds(i as int, chunk_size as int, total_size as int);
            }
            let (start, end) = chunk_range_inner(i, chunk_size, total_size);
            builder.push_chunk(&data[start as usize..end as usize]);
            i = i + 1;
            assert(builder@.chunk_hashes =~= chunk_digests(data@, chunk_size as int).take(
                i as int,
            ));
        }
        assert(builder@.chunk_hashes =~= chunk_digests(data@, chunk_size as int));
        Ok(builder.finish())
    }

    /// The byte range of chunk `index`: where it starts, and where it ends.
    pub fn chunk_range(&self, index: u32) -> (r: (u64, u64))
        requires
            chunk_start(index as int, self.chunk_size as int) <= u64::MAX,
        ensures
            r.0 == chunk_start(index as int, self.chunk_size as int),
            r.1 == chunk_end(index as int, self.chunk_size as int, self.total_size as int),
    {
        chunk_range_inner(index, self.chunk_size, self.total_size)
    }

    /// Holds received chunk data against the digest that the manifest records.
    pub fn verify_chunk(&self, index: u32, data: &[u8]) -> (r: Result<(), DistError>)
        requires
            index < self.chunk_hashes@.len(),
        ensures
            digest_verdict(r, index, self@.chunk_hashes[index as int], hash_text(data@)),
    {
        let actual = hash_bytes(data);
        check_digest(index, &self.chunk_hashes[index as usize], actual)
    }
}

/// A manifest in the making: chunks are handed in one at a time, in order, so that a
/// file need not be held in memory.
pub struct ManifestBuilder {
    manifest: Manifest,
}

impl View for ManifestBuilder {
    type V = ManifestView;

    closed spec fn view(&self) -> ManifestView {
        self.manifest@
    }
}

impl ManifestBuilder {
    /// Starts the manifest of a file of `total_size` bytes.
    pub fn new(file_id: &str, version: &str, total_size: u64, chunk_size: u64) -> (r: Self)
        requires
            chunk_size > 0,
        ensures
            r@ == (ManifestView {
                file_id: file_id@,
                version: version@,
                total_size,
                chunk_size,
                chunk_count: recorded_count(total_size as int, chunk_size as int),
                chunk_hashes: Seq::empty(),
            }),
    {
        let chunk_count = chunks_needed(total_size, chunk_size);
        let chunk_hashes: Vec<String> = Vec::new();
        assert(texts(chunk_hashes@) =~= Seq::<Seq<char>>::empty());
        ManifestBuilder {
            manifest: Manifest {
                file_id: file_id.to_owned(),
                version: version.to_owned(),
                total_size,
                chunk_size,
                chunk_count,
                chunk_hashes,
            },
        }
    }

    /// How many bytes the next chunk has; nothing when all chunks were handed in.
    pub fn next_len(&self) -> (r: Option<u64>)
        requires
            self@.chunk_size > 0,
            self@.chunk_count == recorded_count(self@.total_size as int, self@.chunk_size as int),
        ensures
            match r {
                Some(n) => {
                    let i = self@.chunk_hashes.len() as int;
                    &&& i < self@.chunk_count
                    &&& n == chunk_end(i, self@.chunk_size as int, self@.total_size as int)
                        - chunk_start(i, self@.chunk_size as int)
                },
                None => self@.chunk_hashes.len() >= self@.chunk_count,
            },
    {
        let i: usize = self.manifest.chunk_hashes.len();
        if i >= self.manifest.chunk_count as usize {
            return None;
        }
        proof {
            recorded_count_bounds(self@.total_size as int, self@.chunk_size as int);
            chunk_bounds(i as int, self@.chunk_size as int, self@.total_size as int);
        }
        let (start, end) = chunk_range_inner(
            i as u32,
            self.manifest.chunk_size,
            self.manifest.total_size,
        );
        Some(end - start)
    }

    /// Records the digest of the next chunk.
    pub fn push_chunk(&mut self, data: &[u8])
        ensures
            final(self)@ == (ManifestView {
                chunk_hashes: old(self)@.chunk_hashes.push(hash_text(data@)),
                ..old(self)@
            }),
    {
        let digest = hash_bytes(data);
        self.manifest.chunk_hashes.push(digest);
        assert(self@.chunk_hashes =~= old(self)@.chunk_hashes.push(hash_text(data@)));
    }

    /// The manifest, with the digests recorded so far.
    pub fn finish(self) -> (r: Manifest)
        ensures
            r@ == self@,
    {
        self.manifest
    }
}

/// The digest texts of chunks handed in one after the other.
pub open spec fn pushed(start: ManifestView, pieces: Seq<Seq<u8>>) -> ManifestView
    decreases pieces.len(),
{
    if pieces.len() == 0 {
        start
    } else {
        let before = pushed(start, pieces.drop_last());
        ManifestView {
            chunk_hashes: before.chunk_hashes.push(hash_text(pieces.last())),
            ..before
        }
    }
}

proof fn lemma_pushed(start: ManifestView, pieces: Seq<Seq<u8>>)
    ensures
        pushed(start, pieces) == (ManifestView {
            chunk_hashes: start.chunk_hashes + Seq::new(
                pieces.len(),
                |i: int| hash_text(pieces[i]),
            ),
            ..start
        }),
    decreases pieces.len(),
{
    if pieces.len() > 0 {
        lemma_pushed(start, pieces.drop_last());
    }
    assert(pushed(start, pieces).chunk_hashes =~= start.chunk_hashes + Seq::new(
        pieces.len(),
        |i: int| hash_text(pieces[i]),
    ));
}

/// Streaming a file chunk by chunk gives the same manifest as building it in one go:
/// `start` is the manifest in the making before the first chunk, and `pieces` are the
/// chunks of the file in order, as many as the manifest records.
pub proof fn streaming_equals_building(
    file_id: Seq<char>,
    version: Seq<char>,
    data: Seq<u8>,
    chunk_size: u64,
    start: ManifestView,
    pieces: Seq<Seq<u8>>,
)
    requires
        chunk_size > 0,
        start == (ManifestView {
            file_id,
            version,
            total_size: data.len() as u64,
            chunk_size,
            chunk_count: recorded_count(data.len() as int, chunk_size as int),
            chunk_hashes: Seq::empty(),
        }),
        pieces.len() == start.chunk_count,
        forall|i: int|
            0 <= i < pieces.len() ==> pieces[i] == chunk_data(data, i, chunk_size as int),
    ensures
        pushed(start, pieces) == manifest_of(file_id, version, data, chunk_size),
{
    lemma_pushed(start, pieces);
    assert(pushed(start, pieces).chunk_hashes =~= chunk_digests(data, chunk_size as int));
}

/// A manifest accepts the chunks of the file that it was built from.
pub proof fn built_manifest_accepts_its_chunks(
    file_id: Seq<char>,
    version: Seq<char>,
    data: Seq<u8>,
    chunk_size: u64,
    index: u32,
    r: Result<(), DistError>,
)
    requires
        chunk_size > 0,
        index < manifest_of(file_id, version, data, chunk_size).chunk_count,
        digest_verdict(
            r,
            index,
            manifest_of(file_id, version, data, chunk_size).chunk_hashes[index as int],
            hash_text(chunk_data(data, index as int, chunk_size as int)),
        ),
    ensures
        r is Ok,
{
}

} // verus!
