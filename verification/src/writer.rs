//! The chunk writer's model: positioned writes into a preallocated byte
//! buffer, and the proof that writing every chunk of an upload, in any
//! order, fills the buffer with exactly the concatenation of the chunk
//! payloads in index order.
//!
//! The caller performs the same positioned writes on the real upload file,
//! at offsets that never overlap because each chunk owns the byte range
//! starting at `chunk_index * chunk_size`.

use vstd::arithmetic::div_mod::{lemma_fundamental_div_mod, lemma_fundamental_div_mod_converse};
use vstd::prelude::*;
use vstd::seq_lib::*;
use vstd::set_lib::{lemma_int_range, lemma_len_subset, set_int_range};

use crate::upload::{lemma_chunk_count_bounds, spec_chunk_count, spec_chunk_size_at};

verus! {

/// The bytes of `file` after writing `data` at byte offset `offset`: the
/// write replaces that range and touches nothing else.
pub open spec fn spec_write_at(file: Seq<u8>, offset: int, data: Seq<u8>) -> Seq<u8> {
    Seq::new(
        file.len(),
        |p: int|
            if offset <= p < offset + data.len() {
                data[p - offset]
            } else {
                file[p]
            },
    )
}

/// Write `data` into `file` at byte offset `offset`, without any shared
/// cursor: the model of a positioned write into the preallocated upload
/// file.
pub fn write_chunk_bytes(file: &mut Vec<u8>, offset: usize, data: &[u8])
    requires
        offset + data@.len() <= old(file)@.len(),
    ensures
        final(file)@ == spec_write_at(old(file)@, offset as int, data@),
{
    let flen = file.len();
    let mut k: usize = 0;
    while k < data.len()
        invariant
            k <= data@.len(),
            offset + data@.len() <= file@.len(),
            flen == file@.len(),
            file@.len() == old(file)@.len(),
            forall|p: int|
                0 <= p < file@.len() ==> file@[p] == if offset <= p < offset + k {
                    data@[p - offset]
                } else {
                    old(file)@[p]
                },
        decreases data@.len() - k,
    {
        file.set(offset + k, data[k]);
        k += 1;
    }
    assert(file@ =~= spec_write_at(old(file)@, offset as int, data@));
}

/// The concatenation of all payloads in index order.
pub open spec fn spec_concat(payloads: Seq<Seq<u8>>) -> Seq<u8>
    decreases payloads.len(),
{
    if payloads.len() == 0 {
        Seq::empty()
    } else {
        payloads[0] + spec_concat(payloads.drop_first())
    }
}

/// Whether `payloads` is one payload per chunk of an upload of `file_size`
/// bytes in `chunk_size` pieces, each of its chunk's logical size.
pub open spec fn spec_valid_payloads(
    chunk_size: int,
    file_size: int,
    payloads: Seq<Seq<u8>>,
) -> bool {
    &&& payloads.len() == spec_chunk_count(chunk_size, file_size)
    &&& forall|i: int|
        0 <= i < payloads.len() ==> (#[trigger] payloads[i]).len() == spec_chunk_size_at(
            chunk_size,
            file_size,
            payloads.len() as int,
            i,
        )
}

/// The bytes of `file` after performing the positioned write of each chunk
/// named by `order`, first to last.
pub open spec fn spec_apply_writes(
    file: Seq<u8>,
    chunk_size: int,
    payloads: Seq<Seq<u8>>,
    order: Seq<int>,
) -> Seq<u8>
    decreases order.len(),
{
    if order.len() == 0 {
        file
    } else {
        spec_apply_writes(
            spec_write_at(file, order[0] * chunk_size, payloads[order[0]]),
            chunk_size,
            payloads,
            order.drop_first(),
        )
    }
}

/// Positioned writes never change the length.
proof fn lemma_apply_writes_len(
    file: Seq<u8>,
    chunk_size: int,
    payloads: Seq<Seq<u8>>,
    order: Seq<int>,
)
    ensures
        spec_apply_writes(file, chunk_size, payloads, order).len() == file.len(),
    decreases order.len(),
{
    if order.len() > 0 {
        lemma_apply_writes_len(
            spec_write_at(file, order[0] * chunk_size, payloads[order[0]]),
            chunk_size,
            payloads,
            order.drop_first(),
        );
    }
}

/// Chunk `j`'s byte range lies inside the file: it starts at `j * chunk_size`
/// and ends by `file_size`.
proof fn lemma_chunk_range(chunk_size: int, file_size: int, n: int, j: int)
    requires
        chunk_size >= 1,
        file_size >= 0,
        n == spec_chunk_count(chunk_size, file_size),
        0 <= j < n,
    ensures
        0 <= j * chunk_size,
        j * chunk_size + spec_chunk_size_at(chunk_size, file_size, n, j) <= file_size,
        spec_chunk_size_at(chunk_size, file_size, n, j) >= 1,
{
    lemma_chunk_count_bounds(chunk_size, file_size);
    assert(j * chunk_size >= 0) by (nonlinear_arith)
        requires
            j >= 0,
            chunk_size >= 1,
    ;
    if j + 1 == n {
        assert((n - 1) * chunk_size < file_size);
    } else {
        assert((j + 1) * chunk_size <= (n - 1) * chunk_size) by (nonlinear_arith)
            requires
                j + 1 <= n - 1,
                chunk_size >= 1,
        ;
        assert((j + 1) * chunk_size == j * chunk_size + chunk_size) by (nonlinear_arith);
        assert((n - 1) * chunk_size < file_size);
    }
}

/// Law: distinct chunks own disjoint byte ranges — the lower-numbered chunk
/// ends by the time the higher-numbered one starts — so writes of different
/// chunks can never touch the same byte, whatever their order.
pub proof fn lemma_chunk_ranges_disjoint(chunk_size: int, file_size: int, n: int, j1: int, j2: int)
    requires
        chunk_size >= 1,
        file_size >= 0,
        n == spec_chunk_count(chunk_size, file_size),
        0 <= j1 < n,
        0 <= j2 < n,
        j1 < j2,
    ensures
        j1 * chunk_size + spec_chunk_size_at(chunk_size, file_size, n, j1) <= j2 * chunk_size,
{
    assert(j1 + 1 < n);
    assert((j1 + 1) * chunk_size == j1 * chunk_size + chunk_size) by (nonlinear_arith);
    assert((j1 + 1) * chunk_size <= j2 * chunk_size) by (nonlinear_arith)
        requires
            j1 + 1 <= j2,
            chunk_size >= 1,
    ;
}

/// A sequence of writes that never names chunk `j` leaves chunk `j`'s byte
/// range as it was.
proof fn lemma_untouched_chunk(
    file: Seq<u8>,
    chunk_size: int,
    file_size: int,
    payloads: Seq<Seq<u8>>,
    order: Seq<int>,
    j: int,
    k: int,
)
    requires
        chunk_size >= 1,
        file_size >= 0,
        file.len() == file_size,
        spec_valid_payloads(chunk_size, file_size, payloads),
        forall|a: int| 0 <= a < order.len() ==> 0 <= #[trigger] order[a] < payloads.len(),
        !order.contains(j),
        0 <= j < payloads.len(),
        0 <= k < spec_chunk_size_at(chunk_size, file_size, payloads.len() as int, j),
    ensures
        spec_apply_writes(file, chunk_size, payloads, order)[j * chunk_size + k] == file[j
            * chunk_size + k],
    decreases order.len(),
{
    let n = payloads.len() as int;
    lemma_chunk_range(chunk_size, file_size, n, j);
    if order.len() > 0 {
        let j0 = order[0];
        assert(order.contains(j0));
        let file1 = spec_write_at(file, j0 * chunk_size, payloads[j0]);
        lemma_chunk_range(chunk_size, file_size, n, j0);
        if j0 < j {
            lemma_chunk_ranges_disjoint(chunk_size, file_size, n, j0, j);
        } else {
            lemma_chunk_ranges_disjoint(chunk_size, file_size, n, j, j0);
        }
        assert(file1[j * chunk_size + k] == file[j * chunk_size + k]);
        assert(!order.drop_first().contains(j)) by {
            if order.drop_first().contains(j) {
                let a = choose|a: int|
                    0 <= a < order.drop_first().len() && order.drop_first()[a] == j;
                assert(order[a + 1] == j);
            }
        }
        lemma_untouched_chunk(file1, chunk_size, file_size, payloads, order.drop_first(), j, k);
    }
}

/// Once chunk `j`'s write has been performed, its byte range holds its
/// payload, whatever other chunks are written before or after.
proof fn lemma_written_chunk(
    file: Seq<u8>,
    chunk_size: int,
    file_size: int,
    payloads: Seq<Seq<u8>>,
    order: Seq<int>,
    j: int,
    k: int,
)
    requires
        chunk_size >= 1,
        file_size >= 0,
        file.len() == file_size,
        spec_valid_payloads(chunk_size, file_size, payloads),
        order.no_duplicates(),
        forall|a: int| 0 <= a < order.len() ==> 0 <= #[trigger] order[a] < payloads.len(),
        order.contains(j),
        0 <= k < spec_chunk_size_at(chunk_size, file_size, payloads.len() as int, j),
    ensures
        spec_apply_writes(file, chunk_size, payloads, order)[j * chunk_size + k] == payloads[j][k],
    decreases order.len(),
{
    let n = payloads.len() as int;
    assert(0 <= j < n) by {
        let a = choose|a: int| 0 <= a < order.len() && order[a] == j;
    }
    lemma_chunk_range(chunk_size, file_size, n, j);
    let j0 = order[0];
    assert(order.contains(j0));
    let file1 = spec_write_at(file, j0 * chunk_size, payloads[j0]);
    if j0 == j {
        assert(file1[j * chunk_size + k] == payloads[j][k]);
        assert(!order.drop_first().contains(j)) by {
            if order.drop_first().contains(j) {
                let a = choose|a: int|
                    0 <= a < order.drop_first().len() && order.drop_first()[a] == j;
                assert(order[a + 1] == j);
            }
        }
        lemma_untouched_chunk(file1, chunk_size, file_size, payloads, order.drop_first(), j, k);
    } else {
        assert(order.drop_first().contains(j)) by {
            let a = choose|a: int| 0 <= a < order.len() && order[a] == j;
            assert(order.drop_first()[a - 1] == j);
        }
        lemma_written_chunk(file1, chunk_size, file_size, payloads, order.drop_first(), j, k);
    }
}

/// The concatenation of valid payloads has the file's size, and its byte at
/// `p` comes from chunk `p / chunk_size`.
proof fn lemma_concat_index(chunk_size: int, file_size: int, payloads: Seq<Seq<u8>>)
    requires
        chunk_size >= 1,
        file_size >= 0,
        spec_valid_payloads(chunk_size, file_size, payloads),
    ensures
        spec_concat(payloads).len() == file_size,
        forall|p: int|
            0 <= p < file_size ==> #[trigger] spec_concat(payloads)[p] == payloads[p / chunk_size][p
                - (p / chunk_size) * chunk_size],
    decreases payloads.len(),
{
    let n = payloads.len() as int;
    lemma_chunk_count_bounds(chunk_size, file_size);
    if n == 0 {
        assert(file_size == 0);
    } else if n == 1 {
        assert(0 * chunk_size == 0) by (nonlinear_arith);
        assert(payloads[0].len() == file_size);
        assert(spec_concat(payloads.drop_first()) =~= Seq::<u8>::empty()) by {
            assert(payloads.drop_first().len() == 0);
        }
        assert(spec_concat(payloads) =~= payloads[0]);
        assert forall|p: int| 0 <= p < file_size implies #[trigger] spec_concat(payloads)[p]
            == payloads[p / chunk_size][p - (p / chunk_size) * chunk_size] by {
            lemma_chunk_range(chunk_size, file_size, n, 0);
            assert(1 * chunk_size == chunk_size) by (nonlinear_arith);
            assert(p < chunk_size);
            lemma_fundamental_div_mod_converse(p, chunk_size, 0, p);
        }
    } else {
        let rest = payloads.drop_first();
        lemma_fundamental_div_mod(file_size, chunk_size);
        let q = file_size / chunk_size;
        let r = file_size % chunk_size;
        lemma_chunk_range(chunk_size, file_size, n, 0);
        assert(file_size - chunk_size >= 0) by {
            lemma_chunk_ranges_disjoint(chunk_size, file_size, n, 0, 1);
            lemma_chunk_range(chunk_size, file_size, n, 1);
        }
        assert((q - 1) * chunk_size == chunk_size * q - chunk_size) by (nonlinear_arith);
        lemma_fundamental_div_mod_converse(file_size - chunk_size, chunk_size, q - 1, r);
        assert(spec_chunk_count(chunk_size, file_size - chunk_size) == n - 1);
        assert(spec_valid_payloads(chunk_size, file_size - chunk_size, rest)) by {
            assert forall|i: int| 0 <= i < rest.len() implies (#[trigger] rest[i]).len()
                == spec_chunk_size_at(chunk_size, file_size - chunk_size, n - 1, i) by {
                assert(rest[i] == payloads[i + 1]);
                assert(payloads[i + 1].len() == spec_chunk_size_at(chunk_size, file_size, n, i + 1));
                assert((i + 1) * chunk_size == i * chunk_size + chunk_size) by (nonlinear_arith);
            }
        }
        lemma_concat_index(chunk_size, file_size - chunk_size, rest);
        assert(payloads[0].len() == chunk_size);
        assert(spec_concat(payloads).len() == file_size);
        assert forall|p: int| 0 <= p < file_size implies #[trigger] spec_concat(payloads)[p]
            == payloads[p / chunk_size][p - (p / chunk_size) * chunk_size] by {
            if p < chunk_size {
                assert(spec_concat(payloads)[p] == payloads[0][p]);
                lemma_fundamental_div_mod_converse(p, chunk_size, 0, p);
            } else {
                assert(spec_concat(payloads)[p] == spec_concat(rest)[p - chunk_size]);
                let p1 = p - chunk_size;
                assert(spec_concat(rest)[p1] == rest[p1 / chunk_size][p1 - (p1 / chunk_size)
                    * chunk_size]);
                lemma_fundamental_div_mod(p, chunk_size);
                let qp = p / chunk_size;
                let rp = p % chunk_size;
                assert(qp >= 1) by (nonlinear_arith)
                    requires
                        p == chunk_size * qp + rp,
                        0 <= rp < chunk_size,
                        p >= chunk_size,
                        chunk_size >= 1,
                ;
                assert((qp - 1) * chunk_size == chunk_size * qp - chunk_size) by (nonlinear_arith);
                lemma_fundamental_div_mod_converse(p1, chunk_size, qp - 1, rp);
                assert((n - 1) * chunk_size == chunk_size * n - chunk_size) by (nonlinear_arith);
                assert(n * chunk_size == chunk_size * n) by (nonlinear_arith);
                assert(p1 < (n - 1) * chunk_size);
                assert(qp - 1 < n - 1) by (nonlinear_arith)
                    requires
                        (qp - 1) * chunk_size + rp == p1,
                        0 <= rp,
                        p1 < (n - 1) * chunk_size,
                        chunk_size >= 1,
                ;
                assert(rest[qp - 1] == payloads[qp]);
                assert(qp * chunk_size == chunk_size * qp) by (nonlinear_arith);
                assert(p1 - (qp - 1) * chunk_size == p - qp * chunk_size);
            }
        }
    }
}

/// A duplicate-free order of every chunk names each chunk exactly once.
proof fn lemma_order_covers_all(order: Seq<int>, n: int, j: int)
    requires
        order.no_duplicates(),
        order.len() == n,
        forall|a: int| 0 <= a < order.len() ==> 0 <= #[trigger] order[a] < n,
        0 <= j < n,
    ensures
        order.contains(j),
{
    if !order.contains(j) {
        order.unique_seq_to_set();
        let range = set_int_range(0, n);
        lemma_int_range(0, n);
        let smaller = range.remove(j);
        assert(order.to_set().subset_of(smaller)) by {
            assert forall|x: int| order.to_set().contains(x) implies smaller.contains(x) by {
                assert(order.contains(x));
            }
        }
        lemma_len_subset(order.to_set(), smaller);
        assert(smaller.len() == n - 1);
        assert(false);
    }
}

/// Law: after every chunk of an upload has been written — each exactly once,
/// in whatever order the chunks arrived — the upload file holds byte for
/// byte the concatenation of the chunk payloads in index order.
pub proof fn lemma_completed_upload_is_concatenation(
    file: Seq<u8>,
    chunk_size: int,
    file_size: int,
    payloads: Seq<Seq<u8>>,
    order: Seq<int>,
)
    requires
        chunk_size >= 1,
        file_size >= 0,
        file.len() == file_size,
        spec_valid_payloads(chunk_size, file_size, payloads),
        order.no_duplicates(),
        order.len() == payloads.len(),
        forall|a: int| 0 <= a < order.len() ==> 0 <= #[trigger] order[a] < payloads.len(),
    ensures
        spec_apply_writes(file, chunk_size, payloads, order) == spec_concat(payloads),
{
    let n = payloads.len() as int;
    let result = spec_apply_writes(file, chunk_size, payloads, order);
    lemma_apply_writes_len(file, chunk_size, payloads, order);
    lemma_concat_index(chunk_size, file_size, payloads);
    lemma_chunk_count_bounds(chunk_size, file_size);
    assert forall|p: int| 0 <= p < file_size implies result[p] == spec_concat(payloads)[p] by {
        lemma_fundamental_div_mod(p, chunk_size);
        let j = p / chunk_size;
        let k = p % chunk_size;
        assert(k == p - j * chunk_size) by (nonlinear_arith)
            requires
                p == chunk_size * j + k,
        ;
        assert(j >= 0) by (nonlinear_arith)
            requires
                p == chunk_size * j + k,
                0 <= k < chunk_size,
                p >= 0,
                chunk_size >= 1,
        ;
        assert(j < n) by {
            if j >= n {
                assert(chunk_size * j >= chunk_size * n) by (nonlinear_arith)
                    requires
                        j >= n,
                        chunk_size >= 1,
                ;
                assert(n * chunk_size == chunk_size * n) by (nonlinear_arith);
            }
        }
        assert(k < spec_chunk_size_at(chunk_size, file_size, n, j)) by {
            if j + 1 == n {
                assert(j * chunk_size == chunk_size * j) by (nonlinear_arith);
            }
        }
        lemma_order_covers_all(order, n, j);
        lemma_written_chunk(file, chunk_size, file_size, payloads, order, j, k);
    }
    assert(result =~= spec_concat(payloads));
}

} // verus!
