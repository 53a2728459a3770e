pub mod bytes;
pub mod chunk;
pub mod cipher;
pub mod error;
pub mod order;

pub use chunk::Chunk;
pub use error::Error;

use vstd::prelude::*;

use crate::bytes::{copy_bytes, copy_range, push_bytes};
use crate::chunk::KEY_LENGTH;
use crate::cipher::{aes_dec, aes_enc, random_key_bytes};
use crate::order::{lemma_sorted_perm_eq, sort_by_index, sort_chunks};
use vstd::std_specs::vec::vec_index;

verus! {

/// The key carried by each chunk, in chunk order.
pub open spec fn keys_of(chs: Seq<Chunk>) -> Seq<Seq<u8>> {
    chs.map_values(|c: Chunk| c.key@)
}

/// The cascade of encryptions of `d`: first under `keys[0]`, last under
/// the final key, so the outermost ciphertext layer belongs to the last
/// key.
pub open spec fn enc_cascade(keys: Seq<Seq<u8>>, d: Seq<u8>) -> Seq<u8>
    decreases keys.len(),
{
    if keys.len() == 0 {
        d
    } else {
        aes_enc(keys.last(), enc_cascade(keys.drop_last(), d))
    }
}

/// The cascade of decryptions of `d`: first under the last key, last under
/// `keys[0]` — the exact reverse of `enc_cascade`.
pub open spec fn dec_cascade(keys: Seq<Seq<u8>>, d: Seq<u8>) -> Seq<u8>
    decreases keys.len(),
{
    if keys.len() == 0 {
        d
    } else {
        dec_cascade(keys.drop_last(), aes_dec(keys.last(), d))
    }
}

/// The slice of `input` assigned to fragment `i` of `n`: fragments
/// `0..n-2` each take `input.len() / n` bytes, and the last fragment
/// absorbs every remaining byte.
pub open spec fn piece(input: Seq<u8>, n: int, i: int) -> Seq<u8>
    recommends
        1 <= n <= input.len(),
        0 <= i < n,
{
    let base = input.len() as int / n;
    if i == n - 1 {
        input.subrange(i * base, input.len() as int)
    } else {
        input.subrange(i * base, (i + 1) * base)
    }
}

/// The pieces of `input` split into `n` fragments, in index order.
pub open spec fn pieces_of(input: Seq<u8>, n: int) -> Seq<Seq<u8>> {
    Seq::new(n as nat, |i: int| piece(input, n, i))
}

/// The concatenation of a sequence of byte strings, in order.
pub open spec fn concat_all(ds: Seq<Seq<u8>>) -> Seq<u8>
    decreases ds.len(),
{
    if ds.len() == 0 {
        Seq::empty()
    } else {
        concat_all(ds.drop_last()) + ds.last()
    }
}

/// A coherent cascade collection carrying the plaintexts `ds`: `n` chunks
/// in index order, every one declaring `n` siblings and carrying a 16-byte
/// key, each payload being the full cascade encryption — one layer per
/// key, in key order — of that chunk's plaintext `ds[i]`, and small enough
/// for the cipher layer. This is what `combine_chunks` can always undo,
/// whatever the plaintexts are.
pub open spec fn cascade_collection(chs: Seq<Chunk>, n: int, ds: Seq<Seq<u8>>) -> bool {
    &&& 1 <= n
    &&& chs.len() == n
    &&& ds.len() == n
    &&& forall|i: int| 0 <= i < n ==> (#[trigger] chs[i]).total_chunks as int == n
    &&& forall|i: int| 0 <= i < n ==> (#[trigger] chs[i]).index as int == i
    &&& forall|i: int| 0 <= i < n ==> (#[trigger] chs[i]).key@.len() == KEY_LENGTH
    &&& forall|i: int|
        0 <= i < n ==> (#[trigger] chs[i]).data@ == enc_cascade(keys_of(chs), ds[i])
    &&& forall|i: int| 0 <= i < n ==> (#[trigger] chs[i]).data@.len() + 16 <= i32::MAX
}

/// What a complete fragment collection for `input` looks like: a cascade
/// collection whose plaintexts are exactly the slices of `input` split
/// into `n` pieces.
pub open spec fn valid_encoding(chs: Seq<Chunk>, n: int, input: Seq<u8>) -> bool {
    &&& n <= input.len()
    &&& cascade_collection(chs, n, pieces_of(input, n))
}

/// The payloads of a combine input after sorting by index and reversing
/// the whole cascade, concatenated in index order.
pub open spec fn combined_bytes(chs: Seq<Chunk>) -> Seq<u8> {
    let sorted = sort_by_index(chs);
    concat_all(sorted.map_values(|c: Chunk| dec_cascade(keys_of(sorted), c.data@)))
}

proof fn lemma_concat_pieces_prefix(input: Seq<u8>, n: int, k: int)
    requires
        1 <= n <= input.len(),
        0 <= k < n,
    ensures
        concat_all(pieces_of(input, n).take(k)) == input.subrange(0, k * (input.len() as int / n)),
    decreases k,
{
    let base = input.len() as int / n;
    broadcast use vstd::arithmetic::div_mod::lemma_fundamental_div_mod;
    assert(n * base + input.len() as int % n == input.len() as int);
    if k == 0 {
        assert(concat_all(pieces_of(input, n).take(0)) =~= input.subrange(0, 0));
    } else {
        lemma_concat_pieces_prefix(input, n, k - 1);
        assert(pieces_of(input, n).take(k).drop_last() =~= pieces_of(input, n).take(k - 1));
        assert(pieces_of(input, n).take(k).last() == piece(input, n, k - 1));
        assert(k * base <= n * base) by (nonlinear_arith)
            requires
                k <= n,
                base >= 0,
        ;
        assert((k - 1) * base + base == k * base) by (nonlinear_arith);
        assert((k - 1) * base >= 0) by (nonlinear_arith)
            requires
                k >= 1,
                base >= 0,
        ;
        assert(input.subrange(0, (k - 1) * base) + input.subrange((k - 1) * base, k * base)
            =~= input.subrange(0, k * base));
    }
}

/// Splitting an input into `n` fragments loses nothing and reorders
/// nothing: the first `n - 1` pieces each hold `input.len() / n` bytes,
/// the last holds all remaining bytes, and in order they concatenate back
/// to the input exactly.
pub proof fn lemma_partition_covers(input: Seq<u8>, n: int)
    requires
        1 <= n <= input.len(),
    ensures
        pieces_of(input, n).len() == n,
        forall|i: int|
            0 <= i < n - 1 ==> (#[trigger] piece(input, n, i)).len() == input.len() as int / n,
        piece(input, n, n - 1).len() == input.len() - (n - 1) * (input.len() as int / n),
        forall|i: int| 0 <= i < n ==> (#[trigger] piece(input, n, i)).len() <= input.len(),
        concat_all(pieces_of(input, n)) == input,
    decreases n,
{
    let base = input.len() as int / n;
    broadcast use vstd::arithmetic::div_mod::lemma_fundamental_div_mod;
    assert(n * base + input.len() as int % n == input.len() as int);
    assert(base >= 0) by (nonlinear_arith)
        requires
            n >= 1,
            n * base + input.len() as int % n == input.len() as int,
            0 <= input.len() as int % n < n,
            n <= input.len(),
    ;
    assert forall|i: int| 0 <= i < n - 1 implies (#[trigger] piece(input, n, i)).len() == base by {
        assert(0 <= i * base && (i + 1) * base <= n * base) by (nonlinear_arith)
            requires
                0 <= i,
                i + 1 <= n,
                base >= 0,
        ;
        assert((i + 1) * base == i * base + base) by (nonlinear_arith);
    }
    assert(base <= n * base) by (nonlinear_arith)
        requires
            n >= 1,
            base >= 0,
    ;
    lemma_concat_pieces_prefix(input, n, n - 1);
    assert(pieces_of(input, n).drop_last() =~= pieces_of(input, n).take(n - 1));
    assert(pieces_of(input, n).last() == piece(input, n, n - 1));
    assert(0 <= (n - 1) * base && (n - 1) * base <= n * base) by (nonlinear_arith)
        requires
            n >= 1,
            base >= 0,
    ;
    assert(input.subrange(0, (n - 1) * base) + input.subrange((n - 1) * base, input.len() as int)
        =~= input);
}

/// Produces one fresh 16-byte key per intended fragment from the secure
/// random source, in fragment order. Fails only when the source fails.
pub fn generate_keys(n: u64) -> (r: Result<Vec<Vec<u8>>, Error>)
    ensures
        r is Ok ==> r.unwrap()@.len() == n,
        r is Ok ==> forall|i: int|
            0 <= i < n ==> (#[trigger] r.unwrap()@[i])@.len() == KEY_LENGTH,
        r is Err ==> r == Err::<Vec<Vec<u8>>, Error>(Error::RandBytesFailure),
{
    let mut keys: Vec<Vec<u8>> = Vec::new();
    let mut i: u64 = 0;
    while i < n
        invariant
            i <= n,
            keys@.len() == i,
            forall|j: int| 0 <= j < i ==> (#[trigger] keys@[j])@.len() == KEY_LENGTH,
        decreases n - i,
    {
        match random_key_bytes() {
            Some(k) => keys.push(k),
            None => {
                return Err(Error::RandBytesFailure);
            },
        }
        i = i + 1;
    }
    Ok(keys)
}

/// Partitions `input` into `n_chunks` contiguous slices in order: all but
/// the last hold `input.len() / n_chunks` bytes and the last absorbs the
/// remainder. Fails exactly when the input holds fewer bytes than the
/// requested number of fragments; the requested count must be at least
/// one.
pub fn split_file(n_chunks: u64, input: &[u8]) -> (r: Result<Vec<Vec<u8>>, Error>)
    requires
        1 <= n_chunks,
    ensures
        r is Err <==> input@.len() < n_chunks,
        r is Err ==> r == Err::<Vec<Vec<u8>>, Error>(Error::InputSmallerThanNumberOfChunks),
        r is Ok ==> r.unwrap()@.len() == n_chunks,
        r is Ok ==> forall|i: int|
            0 <= i < n_chunks ==> (#[trigger] r.unwrap()@[i])@ == piece(
                input@,
                n_chunks as int,
                i,
            ),
{
    let len = input.len();
    if (len as u64) < n_chunks {
        return Err(Error::InputSmallerThanNumberOfChunks);
    }
    let n = n_chunks as usize;
    assert(n == n_chunks);
    let base = len / n;
    proof {
        broadcast use vstd::arithmetic::div_mod::lemma_fundamental_div_mod;
        assert(n * base + len as int % n as int == len);
    }
    let mut out: Vec<Vec<u8>> = Vec::new();
    let mut buffer_idx: usize = 0;
    let mut i: usize = 0;
    while i < n
        invariant
            1 <= n <= len,
            len == input@.len(),
            base == len as int / n as int,
            n * base <= len,
            i <= n,
            i < n ==> buffer_idx == i * base,
            buffer_idx <= len,
            out@.len() == i,
            forall|j: int|
                0 <= j < i ==> (#[trigger] out@[j])@ == piece(input@, n as int, j),
        decreases n - i,
    {
        let end: usize = if i == n - 1 {
            len
        } else {
            proof {
                assert((i + 1) * base <= n * base) by (nonlinear_arith)
                    requires
                        i + 1 <= n,
                        base >= 0,
                ;
                assert(i * base + base == (i + 1) * base) by (nonlinear_arith);
            }
            buffer_idx + base
        };
        proof {
            assert(i * base <= (i + 1) * base <= n * base) by (nonlinear_arith)
                requires
                    0 <= i,
                    i + 1 <= n,
                    base >= 0,
            ;
        }
        let p = copy_range(input, buffer_idx, end);
        out.push(p);
        buffer_idx = end;
        proof {
            if i + 1 < n {
                assert((i + 1) * base == i * base + base) by (nonlinear_arith);
            } else {
                assert(buffer_idx == len);
                assert((i + 1) * base <= n * base) by (nonlinear_arith)
                    requires
                        i + 1 <= n,
                        base >= 0,
                ;
            }
        }
        i = i + 1;
    }
    Ok(out)
}

/// Splits `input` into `n_chunks` fragments and binds them together:
/// generates one key per fragment, assigns each fragment its slice of the
/// input and the key generated at its own index, then encrypts every
/// fragment's payload once under every key, layer by layer in key order.
/// The machine-size bound on the input leaves room for the 1-to-16 bytes
/// of padding that each of the `n_chunks` cipher layers may add.
pub fn generate_chunks(n_chunks: u64, input: &[u8]) -> (r: Result<Vec<Chunk>, Error>)
    requires
        1 <= n_chunks,
        n_chunks <= input@.len() ==> input@.len() + 16 * (n_chunks as int) + 16 <= i32::MAX,
    ensures
        r is Ok ==> valid_encoding(r.unwrap()@, n_chunks as int, input@),
        r is Err ==> r == Err::<Vec<Chunk>, Error>(Error::RandBytesFailure) || r == Err::<
            Vec<Chunk>,
            Error,
        >(Error::InputSmallerThanNumberOfChunks) || r == Err::<Vec<Chunk>, Error>(
            Error::CipherFailure,
        ),
        r == Err::<Vec<Chunk>, Error>(Error::InputSmallerThanNumberOfChunks) ==> input@.len()
            < n_chunks,
        input@.len() < n_chunks ==> r == Err::<Vec<Chunk>, Error>(Error::RandBytesFailure) || r
            == Err::<Vec<Chunk>, Error>(Error::InputSmallerThanNumberOfChunks),
{
    let keys = match generate_keys(n_chunks) {
        Ok(k) => k,
        Err(e) => {
            return Err(e);
        },
    };
    let mut pieces = match split_file(n_chunks, input) {
        Ok(p) => p,
        Err(e) => {
            return Err(e);
        },
    };
    let ghost kview = keys@.map_values(|k: Vec<u8>| k@);
    let il = input.len();
    assert(n_chunks <= il);
    let n = n_chunks as usize;
    assert(n == n_chunks);
    proof {
        lemma_partition_covers(input@, n as int);
    }
    let mut chunks: Vec<Chunk> = Vec::new();
    let mut i: usize = 0;
    while i < n
        invariant
            n == n_chunks,
            1 <= n <= input@.len(),
            i <= n,
            keys@.len() == n,
            kview == keys@.map_values(|k: Vec<u8>| k@),
            forall|j: int| 0 <= j < n ==> (#[trigger] keys@[j])@.len() == KEY_LENGTH,
            pieces@.len() == n - i,
            forall|j: int|
                0 <= j < n - i ==> (#[trigger] pieces@[j])@ == piece(input@, n as int, i + j),
            chunks@.len() == i,
            forall|j: int|
                0 <= j < i ==> (#[trigger] chunks@[j]).total_chunks == n_chunks && chunks@[j].index as int == j && chunks@[j].key@ == kview[j] && chunks@[j].data@ == piece(
                    input@,
                    n as int,
                    j,
                ),
        decreases n - i,
    {
        let ghost prev = pieces@;
        let d = pieces.remove(0);
        proof {
            assert(pieces@ =~= prev.skip(1));
        }
        let k = copy_bytes(vstd::std_specs::vec::vec_index(&keys, i).as_slice());
        chunks.push(Chunk { total_chunks: n_chunks, index: i as u64, key: k, data: d });
        i = i + 1;
    }
    let mut layer: usize = 0;
    while layer < n
        invariant
            n == n_chunks,
            1 <= n <= input@.len(),
            input@.len() + 16 * (n as int) + 16 <= i32::MAX,
            layer <= n,
            keys@.len() == n,
            kview == keys@.map_values(|k: Vec<u8>| k@),
            forall|j: int| 0 <= j < n ==> (#[trigger] keys@[j])@.len() == KEY_LENGTH,
            chunks@.len() == n,
            forall|j: int|
                0 <= j < n ==> (#[trigger] chunks@[j]).total_chunks == n_chunks && chunks@[j].index as int == j && chunks@[j].key@ == kview[j],
            forall|j: int|
                0 <= j < n ==> (#[trigger] chunks@[j]).data@ == enc_cascade(
                    kview.take(layer as int),
                    piece(input@, n as int, j),
                ),
            forall|j: int|
                0 <= j < n ==> (#[trigger] chunks@[j]).data@.len() <= input@.len() + 16 * (
                layer as int),
        decreases n - layer,
    {
        let key = copy_bytes(vstd::std_specs::vec::vec_index(&keys, layer).as_slice());
        let mut next: Vec<Chunk> = Vec::new();
        let mut j: usize = 0;
        while j < n
            invariant
                n == n_chunks,
                1 <= n <= input@.len(),
                input@.len() + 16 * (n as int) + 16 <= i32::MAX,
                layer < n,
                j <= n,
                kview.len() == n,
                key@ == kview[layer as int],
                key@.len() == KEY_LENGTH,
                chunks@.len() == n,
                forall|m: int|
                    0 <= m < n ==> (#[trigger] chunks@[m]).total_chunks == n_chunks && chunks@[m].index as int == m && chunks@[m].key@ == kview[m],
                forall|m: int|
                    0 <= m < n ==> (#[trigger] chunks@[m]).data@ == enc_cascade(
                        kview.take(layer as int),
                        piece(input@, n as int, m),
                    ),
                forall|m: int|
                    0 <= m < n ==> (#[trigger] chunks@[m]).data@.len() <= input@.len() + 16 * (
                    layer as int),
                next@.len() == j,
                forall|m: int|
                    0 <= m < j ==> (#[trigger] next@[m]).total_chunks == n_chunks && next@[m].index as int == m && next@[m].key@ == kview[m],
                forall|m: int|
                    0 <= m < j ==> (#[trigger] next@[m]).data@ == enc_cascade(
                        kview.take(layer + 1),
                        piece(input@, n as int, m),
                    ),
                forall|m: int|
                    0 <= m < j ==> (#[trigger] next@[m]).data@.len() <= input@.len() + 16 * (
                    layer + 1),
            decreases n - j,
        {
            let c = vstd::std_specs::vec::vec_index(&chunks, j);
            let nd = match crate::cipher::aes_encrypt_raw(key.as_slice(), c.data.as_slice()) {
                Some(v) => v,
                None => {
                    return Err(Error::CipherFailure);
                },
            };
            proof {
                assert(kview.take(layer + 1).drop_last() =~= kview.take(layer as int));
                assert(kview.take(layer + 1).last() == kview[layer as int]);
                assert(nd@ == enc_cascade(kview.take(layer + 1), piece(input@, n as int, j as int)));
            }
            let ck = copy_bytes(c.key.as_slice());
            next.push(Chunk { total_chunks: c.total_chunks, index: c.index, key: ck, data: nd });
            j = j + 1;
        }
        chunks = next;
        layer = layer + 1;
    }
    proof {
        assert(kview.take(n as int) =~= kview);
        assert(keys_of(chunks@) =~= kview);
        assert forall|i: int| 0 <= i < n implies (#[trigger] chunks@[i]).data@ == enc_cascade(
            keys_of(chunks@),
            pieces_of(input@, n as int)[i],
        ) by {
            assert(pieces_of(input@, n as int)[i] == piece(input@, n as int, i));
        }
        assert(valid_encoding(chunks@, n_chunks as int, input@));
    }
    Ok(chunks)
}

/// Reassembles the original input from a complete fragment collection:
/// fails if the number of chunks disagrees with the count they declare,
/// sorts them by index (the input order carries no meaning), unwinds the
/// cascade key by key in descending index order, and concatenates the
/// fully decrypted payloads in index order. Handed any permutation of the
/// collection that a split produced, it returns the original input
/// bit-for-bit. The collection must be non-empty: with no chunk there is
/// no declared count to check against. A collection that is not a split's
/// output is decrypted all the same; what cannot be unpadded is reported
/// as a cipher failure, the rest comes back as silently garbled bytes.
#[verifier::loop_isolation(false)]
pub fn combine_chunks(chunks: Vec<Chunk>) -> (r: Result<Vec<u8>, Error>)
    requires
        chunks@.len() >= 1,
    ensures
        r == Err::<Vec<u8>, Error>(Error::WrongNumberOfChunks) <==> chunks@.len() != chunks@[0].total_chunks as int,
        r is Err ==> r == Err::<Vec<u8>, Error>(Error::WrongNumberOfChunks) || r == Err::<
            Vec<u8>,
            Error,
        >(Error::CipherFailure),
        r is Ok ==> r.unwrap()@ == combined_bytes(chunks@),
        forall|ds: Seq<Seq<u8>>, chs: Seq<Chunk>|
            chunks@.to_multiset() == chs.to_multiset() && #[trigger] cascade_collection(
                chs,
                chunks@.len() as int,
                ds,
            ) ==> r is Ok && r.unwrap()@ == concat_all(ds),
        forall|input: Seq<u8>, chs: Seq<Chunk>|
            chunks@.to_multiset() == chs.to_multiset() && #[trigger] valid_encoding(
                chs,
                chunks@.len() as int,
                input,
            ) ==> r is Ok && r.unwrap()@ == input,
{
    proof {
        broadcast use vstd::seq_lib::group_to_multiset_ensures;
        broadcast use vstd::multiset::group_multiset_axioms;
    }
    let ghost input0 = chunks@;
    let n = chunks.len();
    let ghost nn = n as int;
    if (n as u64) != vec_index(&chunks, 0).total_chunks {
        proof {
            assert forall|ds: Seq<Seq<u8>>, chs: Seq<Chunk>|
                input0.to_multiset() == chs.to_multiset() && #[trigger] cascade_collection(
                    chs,
                    nn,
                    ds,
                ) implies false by {
                broadcast use vstd::seq_lib::group_to_multiset_ensures;
                broadcast use vstd::multiset::group_multiset_axioms;

                assert(input0.contains(input0[0]));
                assert(chs.to_multiset().count(input0[0]) > 0);
                assert(chs.contains(input0[0]));
                let k = choose|k: int| 0 <= k < chs.len() && chs[k] == input0[0];
                assert(chs[k].total_chunks as int == nn);
            }
            assert forall|input: Seq<u8>, chs: Seq<Chunk>|
                input0.to_multiset() == chs.to_multiset() && #[trigger] valid_encoding(
                    chs,
                    nn,
                    input,
                ) implies false by {
                assert(cascade_collection(chs, nn, pieces_of(input, nn)));
            }
        }
        return Err(Error::WrongNumberOfChunks);
    }
    let sorted = sort_chunks(chunks);
    let ghost s0 = sorted@;
    let ghost kv = keys_of(s0);
    proof {
        assert forall|ds: Seq<Seq<u8>>, chs: Seq<Chunk>|
            input0.to_multiset() == chs.to_multiset() && #[trigger] cascade_collection(
                chs,
                nn,
                ds,
            ) implies s0 == chs by {
            assert forall|a: int, b: int| 0 <= a < b < chs.len() implies (#[trigger] chs[a]).index
                < (#[trigger] chs[b]).index by {
                assert(chs[a].index as int == a);
                assert(chs[b].index as int == b);
            }
            lemma_sorted_perm_eq(s0, chs);
        }
    }
    let max_data_len: usize = (i32::MAX as usize) - 16;
    let mut i: usize = 0;
    while i < n
        invariant
            n == s0.len(),
            sorted@ == s0,
            i <= n,
            forall|m: int| 0 <= m < i ==> (#[trigger] s0[m]).data@.len() + 16 <= i32::MAX,
            forall|m: int| 0 <= m < i ==> (#[trigger] s0[m]).key@.len() == KEY_LENGTH,
        decreases n - i,
    {
        let c = vec_index(&sorted, i);
        if c.data.len() > max_data_len || c.key.len() != KEY_LENGTH {
            proof {
                assert forall|ds: Seq<Seq<u8>>, chs: Seq<Chunk>|
                    input0.to_multiset() == chs.to_multiset() && #[trigger] cascade_collection(
                        chs,
                        nn,
                        ds,
                    ) implies false by {
                    assert(s0 == chs);
                    assert(chs[i as int].data@.len() + 16 <= i32::MAX);
                    assert(chs[i as int].key@.len() == KEY_LENGTH);
                }
                assert forall|input: Seq<u8>, chs: Seq<Chunk>|
                    input0.to_multiset() == chs.to_multiset() && #[trigger] valid_encoding(
                        chs,
                        nn,
                        input,
                    ) implies false by {
                    assert(cascade_collection(chs, nn, pieces_of(input, nn)));
                }
            }
            return Err(Error::CipherFailure);
        }
        i = i + 1;
    }
    let mut cur = sorted;
    proof {
        assert(kv.take(nn) =~= kv);
        assert forall|ds: Seq<Seq<u8>>, chs: Seq<Chunk>, m: int|
            input0.to_multiset() == chs.to_multiset() && #[trigger] cascade_collection(
                chs,
                nn,
                ds,
            ) && 0 <= m < n implies (#[trigger] cur@[m]).data@ == enc_cascade(
            kv.take(nn),
            ds[m],
        ) by {
            assert(s0 == chs);
            assert(chs[m].data@ == enc_cascade(keys_of(chs), ds[m]));
        }
    }
    let mut j: usize = n;
    while j > 0
        invariant
            1 <= n,
            nn == n as int,
            n == s0.len(),
            j <= n,
            kv == keys_of(s0),
            kv.len() == n,
            cur@.len() == n,
            forall|m: int|
                0 <= m < n ==> (#[trigger] cur@[m]).total_chunks == s0[m].total_chunks && cur@[m].index
                    == s0[m].index && cur@[m].key@ == s0[m].key@,
            forall|m: int| 0 <= m < n ==> (#[trigger] cur@[m]).data@.len() + 16 <= i32::MAX,
            forall|m: int|
                0 <= m < n ==> dec_cascade(kv.take(j as int), (#[trigger] cur@[m]).data@)
                    == dec_cascade(kv, s0[m].data@),
            forall|ds: Seq<Seq<u8>>, chs: Seq<Chunk>, m: int|
                #![trigger cascade_collection(chs, nn, ds), cur@[m]]
                input0.to_multiset() == chs.to_multiset() && cascade_collection(chs, nn, ds) && 0
                    <= m < n ==> s0 == chs && cur@[m].data@ == enc_cascade(
                    kv.take(j as int),
                    ds[m],
                ),
        decreases j,
    {
        let key = copy_bytes(vec_index(&cur, j - 1).key.as_slice());
        proof {
            assert(key@ == kv[j - 1]);
            assert(kv.take(j as int).drop_last() =~= kv.take(j - 1));
            assert(kv.take(j as int).last() == kv[j - 1]);
        }
        let mut next: Vec<Chunk> = Vec::new();
        let mut m: usize = 0;
        while m < n
            invariant
                1 <= n,
                nn == n as int,
                n == s0.len(),
                1 <= j <= n,
                kv == keys_of(s0),
                kv.len() == n,
                key@ == kv[j - 1],
                cur@.len() == n,
                forall|q: int|
                    0 <= q < n ==> (#[trigger] cur@[q]).total_chunks == s0[q].total_chunks && cur@[q].index
                        == s0[q].index && cur@[q].key@ == s0[q].key@,
                forall|q: int| 0 <= q < n ==> (#[trigger] cur@[q]).data@.len() + 16 <= i32::MAX,
                forall|q: int|
                    0 <= q < n ==> dec_cascade(kv.take(j as int), (#[trigger] cur@[q]).data@)
                        == dec_cascade(kv, s0[q].data@),
                forall|ds: Seq<Seq<u8>>, chs: Seq<Chunk>, q: int|
                    #![trigger cascade_collection(chs, nn, ds), cur@[q]]
                    input0.to_multiset() == chs.to_multiset() && cascade_collection(chs, nn, ds)
                        && 0 <= q < n ==> s0 == chs && cur@[q].data@ == enc_cascade(
                        kv.take(j as int),
                        ds[q],
                    ),
                m <= n,
                next@.len() == m,
                forall|q: int|
                    0 <= q < m ==> (#[trigger] next@[q]).total_chunks == s0[q].total_chunks
                        && next@[q].index == s0[q].index && next@[q].key@ == s0[q].key@,
                forall|q: int| 0 <= q < m ==> (#[trigger] next@[q]).data@.len() + 16 <= i32::MAX,
                forall|q: int|
                    0 <= q < m ==> dec_cascade(kv.take(j - 1), (#[trigger] next@[q]).data@)
                        == dec_cascade(kv, s0[q].data@),
                forall|ds: Seq<Seq<u8>>, chs: Seq<Chunk>, q: int|
                    #![trigger cascade_collection(chs, nn, ds), next@[q]]
                    input0.to_multiset() == chs.to_multiset() && cascade_collection(chs, nn, ds)
                        && 0 <= q < m ==> s0 == chs && next@[q].data@ == enc_cascade(
                        kv.take(j - 1),
                        ds[q],
                    ),
            decreases n - m,
        {
            let c = vec_index(&cur, m);
            let ghost dold = c.data@;
            let nd = match crate::cipher::aes_decrypt_raw(key.as_slice(), c.data.as_slice()) {
                Some(v) => v,
                None => {
                    proof {
                        assert forall|ds: Seq<Seq<u8>>, chs: Seq<Chunk>|
                            input0.to_multiset() == chs.to_multiset()
                                && #[trigger] cascade_collection(chs, nn, ds) implies false by {
                            assert(cur@[m as int].data@ == enc_cascade(
                                kv.take(j as int),
                                ds[m as int],
                            ));
                            assert(enc_cascade(kv.take(j as int), ds[m as int]) == aes_enc(
                                kv[j - 1],
                                enc_cascade(kv.take(j - 1), ds[m as int]),
                            ));
                        }
                        assert forall|input: Seq<u8>, chs: Seq<Chunk>|
                            input0.to_multiset() == chs.to_multiset() && #[trigger] valid_encoding(
                                chs,
                                nn,
                                input,
                            ) implies false by {
                            assert(cascade_collection(chs, nn, pieces_of(input, nn)));
                        }
                    }
                    return Err(Error::CipherFailure);
                },
            };
            proof {
                assert(dec_cascade(kv.take(j - 1), nd@) == dec_cascade(kv, s0[m as int].data@)) by {
                    assert(nd@ == aes_dec(kv[j - 1], dold));
                    assert(dec_cascade(kv.take(j as int), dold) == dec_cascade(
                        kv.take(j - 1),
                        aes_dec(kv[j - 1], dold),
                    ));
                }
                assert forall|ds: Seq<Seq<u8>>, chs: Seq<Chunk>|
                    input0.to_multiset() == chs.to_multiset() && #[trigger] cascade_collection(
                        chs,
                        nn,
                        ds,
                    ) implies nd@ == enc_cascade(kv.take(j - 1), ds[m as int]) by {
                    assert(cur@[m as int].data@ == enc_cascade(kv.take(j as int), ds[m as int]));
                    assert(dold == aes_enc(
                        kv[j - 1],
                        enc_cascade(kv.take(j - 1), ds[m as int]),
                    ));
                }
            }
            let ck = copy_bytes(c.key.as_slice());
            next.push(Chunk { total_chunks: c.total_chunks, index: c.index, key: ck, data: nd });
            m = m + 1;
        }
        cur = next;
        j = j - 1;
    }
    proof {
        assert(kv.take(0) =~= Seq::<Seq<u8>>::empty());
        assert forall|m: int| 0 <= m < n implies (#[trigger] cur@[m]).data@ == dec_cascade(
            kv,
            s0[m].data@,
        ) by {
            assert(dec_cascade(kv.take(0), cur@[m].data@) == dec_cascade(kv, s0[m].data@));
        }
    }
    let mut out: Vec<u8> = Vec::new();
    let ghost dmap = cur@.map_values(|c: Chunk| c.data@);
    let mut i2: usize = 0;
    while i2 < n
        invariant
            n == s0.len(),
            cur@.len() == n,
            i2 <= n,
            dmap == cur@.map_values(|c: Chunk| c.data@),
            out@ == concat_all(dmap.take(i2 as int)),
        decreases n - i2,
    {
        push_bytes(&mut out, vec_index(&cur, i2).data.as_slice());
        proof {
            assert(dmap.take(i2 + 1).drop_last() =~= dmap.take(i2 as int));
            assert(dmap.take(i2 + 1).last() == dmap[i2 as int]);
        }
        i2 = i2 + 1;
    }
    proof {
        assert(dmap.take(nn) =~= dmap);
        assert(out@ == combined_bytes(input0)) by {
            assert(dmap =~= s0.map_values(|c: Chunk| dec_cascade(keys_of(s0), c.data@)));
        }
        assert forall|ds: Seq<Seq<u8>>, chs: Seq<Chunk>|
            input0.to_multiset() == chs.to_multiset() && #[trigger] cascade_collection(
                chs,
                nn,
                ds,
            ) implies out@ == concat_all(ds) by {
            assert(s0 == chs);
            assert forall|m: int| 0 <= m < n implies dmap[m] == ds[m] by {
                assert(cur@[m].data@ == enc_cascade(kv.take(0), ds[m]));
                assert(kv.take(0) =~= Seq::<Seq<u8>>::empty());
            }
            assert(dmap =~= ds);
        }
        assert forall|input: Seq<u8>, chs: Seq<Chunk>|
            input0.to_multiset() == chs.to_multiset() && #[trigger] valid_encoding(chs, nn, input)
            implies out@ == input by {
            assert(cascade_collection(chs, nn, pieces_of(input, nn)));
            assert(out@ == concat_all(pieces_of(input, nn)));
            lemma_partition_covers(input, nn);
        }
    }
    Ok(out)
}

/// Round-trip law: for any input of at least `n_chunks` bytes, splitting
/// into `n_chunks` fragments and combining the resulting collection
/// returns the input bit-for-bit. The only failures are the split path's
/// own: once `generate_chunks` has produced a collection, `combine_chunks`
/// is proved to accept it and to reproduce the input.
pub fn split_then_combine(n_chunks: u64, input: &[u8]) -> (r: Result<Vec<u8>, Error>)
    requires
        1 <= n_chunks,
        n_chunks <= input@.len() ==> input@.len() + 16 * (n_chunks as int) + 16 <= i32::MAX,
    ensures
        r is Ok ==> r.unwrap()@ == input@,
        input@.len() < n_chunks ==> r is Err,
        r == Err::<Vec<u8>, Error>(Error::InputSmallerThanNumberOfChunks) ==> input@.len()
            < n_chunks,
        r is Err ==> r == Err::<Vec<u8>, Error>(Error::RandBytesFailure) || r == Err::<
            Vec<u8>,
            Error,
        >(Error::InputSmallerThanNumberOfChunks) || r == Err::<Vec<u8>, Error>(
            Error::CipherFailure,
        ),
{
    let chunks = match generate_chunks(n_chunks, input) {
        Ok(c) => c,
        Err(e) => {
            return Err(e);
        },
    };
    combine_chunks(chunks)
}

} // verus!
