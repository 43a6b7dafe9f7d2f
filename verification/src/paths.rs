//! Where the chunks of a file are kept: one file per chunk, in a directory.

use vstd::prelude::*;
use vstd::string::*;

use crate::text::{decimal, decimal_injective, digit_char, push_padded6, zero_padded};

verus! {

/// The name of the file that holds chunk `index`.
pub open spec fn chunk_file_name(file_id: Seq<char>, index: u32) -> Seq<char> {
    file_id + ".chunk."@ + zero_padded(decimal(index as nat), 6)
}

/// A path with `/` as separator: `name` below `dir`. A name that starts with the separator
/// stands for itself.
pub open spec fn joined(dir: Seq<char>, name: Seq<char>) -> Seq<char> {
    if name.len() > 0 && name[0] == '/' {
        name
    } else if dir.len() == 0 || dir.last() == '/' {
        dir + name
    } else {
        dir + "/"@ + name
    }
}

/// Where chunk `index` of a file is kept.
pub open spec fn chunk_location(dir: Seq<char>, file_id: Seq<char>, index: u32) -> Seq<char> {
    joined(dir, chunk_file_name(file_id, index))
}

fn join_path(dir: &str, name: &str) -> (r: String)
    ensures
        r@ == joined(dir@, name@),
{
    if name.unicode_len() > 0 && name.get_char(0) == '/' {
        return name.to_owned();
    }
    let mut path = dir.to_owned();
    let n: usize = dir.unicode_len();
    if n > 0 && dir.get_char(n - 1) != '/' {
        path.append("/");
    }
    path.append(name);
    path
}

/// The path of the file that holds chunk `chunk_index` of the file `file_id`.
pub fn chunk_path(data_dir: &str, file_id: &str, chunk_index: u32) -> (r: String)
    ensures
        r@ == chunk_location(data_dir@, file_id@, chunk_index),
{
    let mut name = file_id.to_owned();
    name.append(".chunk.");
    push_padded6(&mut name, chunk_index);
    join_path(data_dir, name.as_str())
}

proof fn lemma_decimal_digits(n: nat)
    ensures
        decimal(n).len() >= 1,
        forall|i: int| 0 <= i < decimal(n).len() ==> #[trigger] decimal(n)[i] != '.',
        n > 0 ==> decimal(n)[0] != '0',
        n == 0 ==> decimal(n) == seq!['0'],
    decreases n,
{
    if n >= 10 {
        lemma_decimal_digits(n / 10);
        assert(decimal(n)[0] == decimal(n / 10)[0]);
        assert forall|i: int| 0 <= i < decimal(n).len() implies #[trigger] decimal(n)[i] != '.' by {
            if i < decimal(n / 10).len() {
                assert(decimal(n)[i] == decimal(n / 10)[i]);
            } else {
                assert(decimal(n)[i] == digit_char((n % 10) as int));
            }
        }
    } else {
        assert(decimal(n)[0] == digit_char(n as int));
    }
}

proof fn lemma_padded_injective(a: nat, b: nat)
    requires
        zero_padded(decimal(a), 6) == zero_padded(decimal(b), 6),
    ensures
        a == b,
{
    let x = zero_padded(decimal(a), 6);
    lemma_decimal_digits(a);
    lemma_decimal_digits(b);
    let p = x.len() - decimal(a).len();
    let q = x.len() - decimal(b).len();
    assert(x[p] == decimal(a)[0]);
    assert(x[q] == decimal(b)[0]);
    assert(decimal(a) =~= x.skip(p));
    assert(decimal(b) =~= x.skip(q));
    if p < q {
        assert(x[p] == '0');
        assert(x[q - 1] == '0');
        assert(decimal(a)[0] == '0');
    } else if q < p {
        assert(x[q] == '0');
    }
    decimal_injective(a, b);
}

proof fn lemma_name_parts(file_id: Seq<char>, index: u32)
    ensures
        ({
            let name = chunk_file_name(file_id, index);
            let digits = zero_padded(decimal(index as nat), 6);
            &&& name.len() == file_id.len() + 7 + digits.len()
            &&& digits.len() >= 6
            &&& name[file_id.len() as int + 6] == '.'
            &&& forall|i: int|
                file_id.len() + 7 <= i < name.len() ==> #[trigger] name[i] != '.'
            &&& name.take(file_id.len() as int) == file_id
            &&& name.skip(file_id.len() as int + 7) == digits
        }),
{
    reveal_strlit(".chunk.");
    lemma_decimal_digits(index as nat);
    let name = chunk_file_name(file_id, index);
    let digits = zero_padded(decimal(index as nat), 6);
    assert(name.take(file_id.len() as int) =~= file_id);
    assert(name.skip(file_id.len() as int + 7) =~= digits);
    assert forall|i: int| file_id.len() + 7 <= i < name.len() implies #[trigger] name[i] != '.' by {
        let j = i - file_id.len() - 7;
        assert(name[i] == digits[j]);
        let pad = digits.len() - decimal(index as nat).len();
        if j >= pad {
            assert(digits[j] == decimal(index as nat)[j - pad]);
        }
    }
}

/// No two chunks of one file, and no chunks of two files, have the same file name.
pub proof fn chunk_file_names_are_distinct(a: Seq<char>, i: u32, b: Seq<char>, j: u32)
    requires
        chunk_file_name(a, i) == chunk_file_name(b, j),
    ensures
        a == b,
        i == j,
{
    lemma_name_parts(a, i);
    lemma_name_parts(b, j);
    let name = chunk_file_name(a, i);
    if a.len() < b.len() {
        assert(name[b.len() as int + 6] != '.');
    } else if b.len() < a.len() {
        assert(name[a.len() as int + 6] != '.');
    }
    lemma_padded_injective(i as nat, j as nat);
}

/// In one directory every chunk of every file has a place of its own, provided that the
/// names of the files do not start with the path separator.
pub proof fn chunk_locations_are_distinct(
    dir: Seq<char>,
    a: Seq<char>,
    i: u32,
    b: Seq<char>,
    j: u32,
)
    requires
        a.len() > 0 ==> a[0] != '/',
        b.len() > 0 ==> b[0] != '/',
        chunk_location(dir, a, i) == chunk_location(dir, b, j),
    ensures
        a == b,
        i == j,
{
    reveal_strlit(".chunk.");
    let x = chunk_file_name(a, i);
    let y = chunk_file_name(b, j);
    assert(x[0] != '/' && y[0] != '/');
    let prefix = if dir.len() == 0 || dir.last() == '/' {
        dir
    } else {
        dir + "/"@
    };
    assert(chunk_location(dir, a, i) == prefix + x);
    assert(chunk_location(dir, b, j) == prefix + y);
    assert((prefix + x).skip(prefix.len() as int) =~= x);
    assert((prefix + y).skip(prefix.len() as int) =~= y);
    chunk_file_names_are_distinct(a, i, b, j);
}

/// Every chunk of a file has a place of its own, whatever the name of the file.
pub proof fn locations_of_one_file_are_distinct(dir: Seq<char>, file_id: Seq<char>, i: u32, j: u32)
    requires
        chunk_location(dir, file_id, i) == chunk_location(dir, file_id, j),
    ensures
        i == j,
{
    reveal_strlit(".chunk.");
    let x = chunk_file_name(file_id, i);
    let y = chunk_file_name(file_id, j);
    assert(x.len() > 0 && y.len() > 0);
    assert(x[0] == y[0]) by {
        if file_id.len() > 0 {
            assert(x[0] == file_id[0] && y[0] == file_id[0]);
        } else {
            assert(x[0] == '.' && y[0] == '.');
        }
    }
    if x[0] != '/' {
        let prefix = if dir.len() == 0 || dir.last() == '/' {
            dir
        } else {
            dir + "/"@
        };
        assert(chunk_location(dir, file_id, i) == prefix + x);
        assert(chunk_location(dir, file_id, j) == prefix + y);
        assert((prefix + x).skip(prefix.len() as int) =~= x);
        assert((prefix + y).skip(prefix.len() as int) =~= y);
    }
    chunk_file_names_are_distinct(file_id, i, file_id, j);
}

} // verus!
