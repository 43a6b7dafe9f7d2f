//! Laws of digests, manifests, and the places of chunks on disk.

use vstd::prelude::*;

use crate::error::DistError;
use crate::hash::{hash_bytes, hash_text, hex_text, hex_text_injective, sha256_digest};
use crate::manifest::{
    chunk_total, recorded_count_bounds, Manifest, ManifestBuilder,
};
use crate::paths::chunk_path;
use crate::text::{decimal, push_decimal, push_padded6, str_eq, zero_padded};

verus! {

/// The digest text has 64 hexadecimal digits, and is read back as the SHA-256 digest: each two
/// of them stand for a byte, the digits 0 to 9 and the letters a to f for their values.
pub proof fn digest_text_is_sha256(data: &[u8], r: String)
    requires
        call_ensures(hash_bytes, (data,), r),
    ensures
        r@.len() == 64,
        r@.len() == 2 * sha256_digest(data@).len(),
        forall|i: int|
            0 <= i < sha256_digest(data@).len() ==> #[trigger] sha256_digest(data@)[i] == 16 * (
            if r@[2 * i] <= '9' {
                r@[2 * i] as int - '0' as int
            } else {
                r@[2 * i] as int - 'a' as int + 10
            }) + (if r@[2 * i + 1] <= '9' {
                r@[2 * i + 1] as int - '0' as int
            } else {
                r@[2 * i + 1] as int - 'a' as int + 10
            }),
        forall|i: int|
            0 <= i < 64 ==> ('0' <= #[trigger] r@[i] && r@[i] <= '9') || ('a' <= r@[i] && r@[i]
                <= 'f'),
        r@ == hash_text(data@),
{
    let digest = sha256_digest(data@);
    assert(hex_text(digest).len() == 2 * digest.len());
    assert forall|i: int| 0 <= i < digest.len() implies #[trigger] digest[i] == 16 * (if r@[2
        * i] <= '9' {
        r@[2 * i] as int - '0' as int
    } else {
        r@[2 * i] as int - 'a' as int + 10
    }) + (if r@[2 * i + 1] <= '9' {
        r@[2 * i + 1] as int - '0' as int
    } else {
        r@[2 * i + 1] as int - 'a' as int + 10
    }) by {
        assert((2 * i) / 2 == i && (2 * i + 1) / 2 == i);
        assert((2 * i) % 2 == 0 && (2 * i + 1) % 2 == 1);
    }
}

/// Two contents have the same digest text exactly when they have the same SHA-256 digest.
pub proof fn digest_texts_compare_digests(a: Seq<u8>, b: Seq<u8>)
    ensures
        hash_text(a) == hash_text(b) <==> sha256_digest(a) == sha256_digest(b),
{
    if hash_text(a) == hash_text(b) {
        hex_text_injective(sha256_digest(a), sha256_digest(b));
    }
}

/// The manifest of a file names the file as it was given, and for each chunk, up to the count,
/// the digest of the bytes from `i * chunk_size` on, `chunk_size` of them or up to the end of
/// the file.
pub proof fn built_manifest_describes_chunks(
    file_id: &str,
    version: &str,
    data: &[u8],
    chunk_size: u64,
    r: Result<Manifest, DistError>,
)
    requires
        call_ensures(Manifest::build, (file_id, version, data, chunk_size), r),
        chunk_size > 0,
        data@.len() <= u64::MAX,
    ensures
        r is Ok,
        r->Ok_0.file_id@ == file_id@,
        r->Ok_0.version@ == version@,
        r->Ok_0.total_size == data@.len(),
        r->Ok_0.chunk_size == chunk_size,
        r->Ok_0.chunk_hashes@.len() == r->Ok_0.chunk_count,
        r->Ok_0.chunk_count == (data@.len() + chunk_size - 1) / chunk_size as int % 0x1_0000_0000,
        data@.len() <= u32::MAX * chunk_size ==> r->Ok_0.chunk_count * chunk_size >= data@.len()
            && data@.len() > (r->Ok_0.chunk_count - 1) * chunk_size,
        forall|i: int|
            0 <= i < r->Ok_0.chunk_count ==> (#[trigger] r->Ok_0.chunk_hashes@[i])@ == hash_text(
                data@.subrange(
                    i * chunk_size,
                    if i * chunk_size + chunk_size <= data@.len() {
                        i * chunk_size + chunk_size
                    } else {
                        data@.len() as int
                    },
                ),
            ),
{
    let m = r->Ok_0;
    assert(m@.chunk_hashes.len() == m.chunk_hashes@.len());
    assert forall|i: int| 0 <= i < m.chunk_count implies (#[trigger] m.chunk_hashes@[i])@
        == hash_text(
        data@.subrange(
            i * chunk_size,
            if i * chunk_size + chunk_size <= data@.len() {
                i * chunk_size + chunk_size
            } else {
                data@.len() as int
            },
        ),
    ) by {
        assert(m@.chunk_hashes[i] == m.chunk_hashes@[i]@);
    }
    if data@.len() <= u32::MAX * chunk_size {
        lemma_count_fits(data@.len() as int, chunk_size as int);
        recorded_count_bounds(data@.len() as int, chunk_size as int);
        lemma_count_covers(data@.len() as int, chunk_size as int);
    }
}

proof fn lemma_count_covers(n: int, d: int)
    requires
        d > 0,
        n >= 0,
    ensures
        chunk_total(n, d) * d >= n,
        n > (chunk_total(n, d) - 1) * d,
{
    let q = chunk_total(n, d);
    let x = n + d - 1;
    assert(q * d <= x < q * d + d) by (nonlinear_arith)
        requires
            q == x / d,
            d > 0,
    ;
    assert((q - 1) * d == q * d - d) by (nonlinear_arith);
}

proof fn lemma_count_fits(n: int, d: int)
    requires
        d > 0,
        0 <= n <= u32::MAX * d,
    ensures
        chunk_total(n, d) <= u32::MAX,
{
    lemma_count_covers(n, d);
    let q = chunk_total(n, d);
    assert(q - 1 < u32::MAX) by (nonlinear_arith)
        requires
            (q - 1) * d < n,
            n <= u32::MAX * d,
            d > 0,
    ;
}

/// The range of a chunk starts at `index * chunk_size` and is `chunk_size` bytes long, or ends
/// with the file.
pub proof fn chunk_range_is_cut_at_end(m: &Manifest, index: u32, r: (u64, u64))
    requires
        call_ensures(Manifest::chunk_range, (m, index), r),
    ensures
        r.0 == index * m.chunk_size,
        r.0 + m.chunk_size <= m.total_size ==> r.1 == r.0 + m.chunk_size,
        r.0 + m.chunk_size > m.total_size ==> r.1 == m.total_size,
{
}

/// A chunk is accepted exactly when it has the digest text that the manifest records for it;
/// otherwise the mismatch is reported, with the chunk and both texts.
pub proof fn chunk_is_checked_by_digest(
    m: &Manifest,
    index: u32,
    data: &[u8],
    r: Result<(), DistError>,
)
    requires
        call_ensures(Manifest::verify_chunk, (m, index, data), r),
        index < m.chunk_hashes@.len(),
    ensures
        r is Ok <==> hash_text(data@) == m.chunk_hashes@[index as int]@,
        r is Err ==> {
            &&& r->Err_0 is HashMismatch
            &&& r->Err_0->index == index
            &&& r->Err_0->expected@ == m.chunk_hashes@[index as int]@
            &&& r->Err_0->actual@ == hash_text(data@)
        },
{
    assert(m@.chunk_hashes[index as int] == m.chunk_hashes@[index as int]@);
}

/// A manifest in the making starts with what it was given and no digest; the next chunk to be
/// handed in is the one behind those that were, and as long as it is in the file.
pub proof fn streaming_asks_for_next_chunk(
    file_id: &str,
    version: &str,
    total_size: u64,
    chunk_size: u64,
    b: ManifestBuilder,
    next: Option<u64>,
    m: Manifest,
)
    requires
        call_ensures(ManifestBuilder::new, (file_id, version, total_size, chunk_size), b),
        call_ensures(ManifestBuilder::next_len, (&b,), next),
        call_ensures(ManifestBuilder::finish, (b,), m),
        chunk_size > 0,
        total_size <= u32::MAX * chunk_size,
    ensures
        m.file_id@ == file_id@,
        m.version@ == version@,
        m.total_size == total_size,
        m.chunk_size == chunk_size,
        m.chunk_hashes@.len() == 0,
        m.chunk_count == (total_size + chunk_size - 1) / chunk_size as int % 0x1_0000_0000,
        m.chunk_count * chunk_size >= total_size && total_size > (m.chunk_count - 1) * chunk_size,
        total_size == 0 ==> next is None,
        total_size > 0 ==> next == Some(
            if chunk_size <= total_size {
                chunk_size
            } else {
                total_size
            },
        ),
{
    assert(m@.chunk_hashes.len() == m.chunk_hashes@.len());
    lemma_count_fits(total_size as int, chunk_size as int);
    recorded_count_bounds(total_size as int, chunk_size as int);
    lemma_count_covers(total_size as int, chunk_size as int);
    let n = m.chunk_count;
    if total_size > 0 {
        assert(n > 0) by (nonlinear_arith)
            requires
                n * chunk_size >= total_size,
                total_size > 0,
                chunk_size > 0,
                n >= 0,
        ;
        assert(0 * chunk_size == 0) by (nonlinear_arith);
    } else {
        assert(n == 0) by (nonlinear_arith)
            requires
                0 > (n - 1) * chunk_size,
                chunk_size > 0,
                n >= 0,
        ;
    }
}

/// While a manifest is in the making, the next chunk is the one behind those that were handed
/// in, as long as there is one, and as many bytes of it as are in the file.
pub proof fn streaming_goes_through_all_chunks(b: ManifestBuilder, next: Option<u64>, m: Manifest)
    requires
        call_ensures(ManifestBuilder::next_len, (&b,), next),
        call_ensures(ManifestBuilder::finish, (b,), m),
    ensures
        next is Some <==> m.chunk_hashes@.len() < m.chunk_count,
        next is Some ==> ({
            let start = m.chunk_hashes@.len() * m.chunk_size;
            next->0 == if start + m.chunk_size <= m.total_size {
                m.chunk_size as int
            } else {
                m.total_size - start
            }
        }),
{
    assert(m@.chunk_hashes.len() == m.chunk_hashes@.len());
}

/// Handing in a chunk adds its digest behind the others.
pub proof fn streamed_chunk_is_hashed(
    b: &mut ManifestBuilder,
    data: &[u8],
    before: Manifest,
    after: Manifest,
)
    requires
        call_ensures(ManifestBuilder::push_chunk, (b, data), ()),
        call_ensures(ManifestBuilder::finish, (*old(b),), before),
        call_ensures(ManifestBuilder::finish, (*final(b),), after),
    ensures
        after.chunk_hashes@.len() == before.chunk_hashes@.len() + 1,
        after.chunk_hashes@[before.chunk_hashes@.len() as int]@ == hash_text(data@),
        forall|i: int|
            0 <= i < before.chunk_hashes@.len() ==> (#[trigger] after.chunk_hashes@[i])@
                == before.chunk_hashes@[i]@,
        after.file_id@ == before.file_id@,
        after.version@ == before.version@,
        after.total_size == before.total_size,
        after.chunk_size == before.chunk_size,
        after.chunk_count == before.chunk_count,
{
    assert(after@.chunk_hashes.len() == after.chunk_hashes@.len());
    assert(before@.chunk_hashes.len() == before.chunk_hashes@.len());
    assert forall|i: int| 0 <= i < before.chunk_hashes@.len() implies (
    #[trigger] after.chunk_hashes@[i])@ == before.chunk_hashes@[i]@ by {
        assert(after@.chunk_hashes[i] == before@.chunk_hashes[i]);
    }
    assert(after@.chunk_hashes[before.chunk_hashes@.len() as int]
        == after.chunk_hashes@[before.chunk_hashes@.len() as int]@);
}

/// Decimal notation is what it is: below ten one digit, and otherwise that of the tens with
/// the digit of the ones behind it.
pub proof fn decimal_has_ones_last(n: nat)
    ensures
        decimal(n).len() >= 1,
        decimal(n).last() as int == '0' as int + n % 10,
        n < 10 ==> decimal(n).len() == 1,
        n >= 10 ==> decimal(n).drop_last() == decimal(n / 10),
{
    if n >= 10 {
        assert(decimal(n).drop_last() =~= decimal(n / 10));
    }
}

/// Writing a number appends its decimal notation.
pub proof fn number_is_appended(out: &mut String, n: u64)
    requires
        call_ensures(push_decimal, (out, n), ()),
    ensures
        final(out)@.len() > old(out)@.len(),
        final(out)@.take(old(out)@.len() as int) == old(out)@,
        final(out)@.last() as int == '0' as int + n % 10,
        n < 10 ==> final(out)@.len() == old(out)@.len() + 1,
        final(out)@ == old(out)@ + decimal(n as nat),
{
    decimal_has_ones_last(n as nat);
    assert(final(out)@.take(old(out)@.len() as int) =~= old(out)@);
}

/// Six places take a number with zeros in front, and a longer one as it is.
pub proof fn number_is_padded(out: &mut String, n: u32)
    requires
        call_ensures(push_padded6, (out, n), ()),
    ensures
        ({
            let digits = decimal(n as nat);
            let added = final(out)@.skip(old(out)@.len() as int);
            &&& final(out)@.take(old(out)@.len() as int) == old(out)@
            &&& digits.len() >= 6 ==> added == digits
            &&& digits.len() < 6 ==> added.len() == 6 && added.skip(6 - digits.len()) == digits
                && forall|i: int| 0 <= i < 6 - digits.len() ==> #[trigger] added[i] == '0'
        }),
{
    let digits = decimal(n as nat);
    let added = final(out)@.skip(old(out)@.len() as int);
    assert(added =~= zero_padded(digits, 6));
    assert(final(out)@.take(old(out)@.len() as int) =~= old(out)@);
    if digits.len() < 6 {
        assert(added.skip(6 - digits.len()) =~= digits);
    }
}

/// Strings are compared by their characters.
pub proof fn strings_compare_by_characters(a: &str, b: &str, r: bool)
    requires
        call_ensures(str_eq, (a, b), r),
    ensures
        r <==> a@ == b@,
{
}

/// A chunk is kept below the directory under the name of the file, `.chunk.` and its number in
/// six places; a name that starts with the separator stands for itself.
pub proof fn chunk_is_kept_under_its_number(dir: &str, file_id: &str, index: u32, r: String)
    requires
        call_ensures(chunk_path, (dir, file_id, index), r),
    ensures
        ({
            let digits = decimal(index as nat);
            let number = if digits.len() < 6 {
                Seq::new((6 - digits.len()) as nat, |i: int| '0') + digits
            } else {
                digits
            };
            let name = file_id@ + ".chunk."@ + number;
            &&& file_id@.len() > 0 && file_id@[0] == '/' ==> r@ == name
            &&& (file_id@.len() == 0 || file_id@[0] != '/') && dir@.len() > 0 && dir@.last() != '/'
                ==> r@ == dir@ + "/"@ + name
            &&& (file_id@.len() == 0 || file_id@[0] != '/') && (dir@.len() == 0 || dir@.last()
                == '/') ==> r@ == dir@ + name
        }),
{
    reveal_strlit(".chunk.");
    let digits = decimal(index as nat);
    assert((file_id@ + ".chunk."@)[0] == if file_id@.len() > 0 {
        file_id@[0]
    } else {
        '.'
    });
}

/// A copy of a manifest says the same.
pub proof fn copied_manifest_says_the_same(m: &Manifest, r: Manifest)
    requires
        call_ensures(<Manifest as Clone>::clone, (m,), r),
    ensures
        r.file_id@ == m.file_id@,
        r.version@ == m.version@,
        r.total_size == m.total_size,
        r.chunk_size == m.chunk_size,
        r.chunk_count == m.chunk_count,
        r.chunk_hashes@.len() == m.chunk_hashes@.len(),
        forall|i: int|
            0 <= i < m.chunk_hashes@.len() ==> (#[trigger] r.chunk_hashes@[i])@
                == m.chunk_hashes@[i]@,
{
    assert(r@.file_id == r.file_id@);
    assert(r@.chunk_hashes.len() == r.chunk_hashes@.len());
    assert(m@.chunk_hashes.len() == m.chunk_hashes@.len());
    assert forall|i: int| 0 <= i < m.chunk_hashes@.len() implies (#[trigger] r.chunk_hashes@[i])@
        == m.chunk_hashes@[i]@ by {
        assert(r@.chunk_hashes[i] == r.chunk_hashes@[i]@);
        assert(m@.chunk_hashes[i] == m.chunk_hashes@[i]@);
    }
}

} // verus!
