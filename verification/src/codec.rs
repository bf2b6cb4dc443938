//! The byte encoding of the sidecar record.
//!
//! A session's durable metadata is one record
//! `{"chunkSize":<n>,"fileSize":<n>,"chunks":{"0":<s>,...}}` where each
//! status is `0` (not started), `1` (ongoing) or `2` (completed). The
//! encoding is canonical: every well-formed record has exactly one byte
//! string, and the decoder accepts exactly those byte strings, so a sidecar
//! that fails to decode is reported as corrupt rather than guessed at.
//!
//! This module builds the codec from a verified decimal layer up: encoding is
//! injective, decoding is sound (whatever it accepts re-encodes to the input)
//! and complete (every encoding of a well-formed record is accepted).

use vstd::arithmetic::div_mod::lemma_fundamental_div_mod;
use vstd::prelude::*;

use crate::errors::UploadError;
use crate::upload::{spec_chunk_count, spec_wf_parts, ChunkStatus};

verus! {

/// Whether `b` is an ASCII decimal digit.
pub open spec fn is_digit(b: u8) -> bool {
    48 <= b <= 57
}

/// Whether every byte of `s` is an ASCII decimal digit.
pub open spec fn all_digits(s: Seq<u8>) -> bool {
    forall|i: int| 0 <= i < s.len() ==> is_digit(#[trigger] s[i])
}

/// The canonical decimal digits of `n`: no leading zero, most significant
/// digit first.
pub open spec fn spec_dec(n: nat) -> Seq<u8>
    decreases n,
{
    if n < 10 {
        seq![(48 + n) as u8]
    } else {
        spec_dec(n / 10).push((48 + n % 10) as u8)
    }
}

/// The numeric value of a digit string, most significant digit first.
pub open spec fn dec_value(s: Seq<u8>) -> int
    decreases s.len(),
{
    if s.len() == 0 {
        0
    } else {
        dec_value(s.drop_last()) * 10 + (s.last() - 48)
    }
}

/// The canonical digits of `n` are digits, at least one of them, and only
/// zero itself starts with the digit zero.
pub proof fn lemma_dec_shape(n: nat)
    ensures
        spec_dec(n).len() >= 1,
        all_digits(spec_dec(n)),
        spec_dec(n)[0] == 48 ==> n == 0,
        n == 0 ==> spec_dec(n) =~= seq![48u8],
    decreases n,
{
    if n >= 10 {
        lemma_dec_shape(n / 10);
        assert(spec_dec(n) == spec_dec(n / 10).push((48 + n % 10) as u8));
        assert(n / 10 >= 1);
        assert(spec_dec(n)[0] == spec_dec(n / 10)[0]);
        assert forall|i: int| 0 <= i < spec_dec(n).len() implies is_digit(#[trigger] spec_dec(n)[i]) by {
            if i < spec_dec(n / 10).len() {
                assert(spec_dec(n)[i] == spec_dec(n / 10)[i]);
            }
        }
    }
}

/// Reading the canonical digits of `n` back gives `n`.
pub proof fn lemma_dec_value_of_dec(n: nat)
    ensures
        dec_value(spec_dec(n)) == n,
    decreases n,
{
    if n < 10 {
        let s = spec_dec(n);
        assert(s =~= seq![(48 + n) as u8]);
        assert(s.last() == (48 + n) as u8);
        assert(s.drop_last() =~= Seq::<u8>::empty());
        assert(dec_value(s.drop_last()) == 0);
        assert(dec_value(s) == 0 * 10 + ((48 + n) as u8 - 48));
    } else {
        lemma_dec_value_of_dec(n / 10);
        assert(spec_dec(n).drop_last() =~= spec_dec(n / 10));
        assert(spec_dec(n).last() == (48 + n % 10) as u8);
        assert(dec_value(spec_dec(n)) == (n / 10) * 10 + n % 10);
        assert((n / 10) * 10 + n % 10 == n) by (nonlinear_arith);
    }
}

/// A digit string that does not start with zero has a positive value.
proof fn lemma_dec_value_positive(s: Seq<u8>)
    requires
        all_digits(s),
        s.len() >= 1,
        s[0] != 48,
    ensures
        dec_value(s) >= 1,
    decreases s.len(),
{
    assert(is_digit(s[0]));
    if s.len() == 1 {
        assert(s.last() == s[0]);
        assert(s.drop_last() =~= Seq::<u8>::empty());
        assert(dec_value(s.drop_last()) == 0);
        assert(dec_value(s) == 0 * 10 + (s[0] - 48));
    } else {
        let s1 = s.drop_last();
        assert(all_digits(s1)) by {
            assert forall|i: int| 0 <= i < s1.len() implies is_digit(#[trigger] s1[i]) by {
                assert(s1[i] == s[i]);
            }
        }
        assert(s1[0] == s[0]);
        lemma_dec_value_positive(s1);
        assert(is_digit(s.last()));
        assert(dec_value(s1) * 10 >= 10) by (nonlinear_arith)
            requires
                dec_value(s1) >= 1,
        ;
    }
}

/// Digit strings have non-negative values.
pub proof fn lemma_dec_value_nonneg(s: Seq<u8>)
    requires
        all_digits(s),
    ensures
        dec_value(s) >= 0,
    decreases s.len(),
{
    if s.len() > 0 {
        lemma_dec_value_nonneg(s.drop_last());
        assert(is_digit(s.last()));
    }
}

/// Canonical digit strings are exactly the digit strings without a leading
/// zero: reading one back and re-encoding reproduces it.
pub proof fn lemma_dec_canon(s: Seq<u8>)
    requires
        all_digits(s),
        s.len() >= 1,
        s.len() == 1 || s[0] != 48,
    ensures
        dec_value(s) >= 0,
        spec_dec(dec_value(s) as nat) =~= s,
    decreases s.len(),
{
    lemma_dec_value_nonneg(s);
    let v = dec_value(s);
    if s.len() == 1 {
        assert(s.last() == s[0]);
        assert(is_digit(s[0]));
        assert(s.drop_last() =~= Seq::<u8>::empty());
        assert(dec_value(s.drop_last()) == 0);
        assert(v == 0 * 10 + (s[0] - 48));
        assert(v < 10);
        assert(spec_dec(v as nat) =~= s);
    } else {
        let s1 = s.drop_last();
        assert(all_digits(s1)) by {
            assert forall|i: int| 0 <= i < s1.len() implies is_digit(#[trigger] s1[i]) by {
                assert(s1[i] == s[i]);
            }
        }
        assert(s1[0] == s[0]);
        lemma_dec_canon(s1);
        lemma_dec_value_positive(s1);
        let v1 = dec_value(s1);
        let d = (s.last() - 48) as int;
        assert(is_digit(s.last()));
        assert(0 <= d < 10);
        assert(v == v1 * 10 + d);
        assert(v / 10 == v1 && v % 10 == d) by (nonlinear_arith)
            requires
                v == v1 * 10 + d,
                0 <= d < 10,
                v1 >= 1,
        ;
        assert(v >= 10) by (nonlinear_arith)
            requires
                v == v1 * 10 + d,
                d >= 0,
                v1 >= 1,
        ;
        assert(spec_dec(v as nat) == spec_dec((v / 10) as nat).push((48 + v % 10) as u8));
        assert(spec_dec((v / 10) as nat) =~= s1);
        assert(spec_dec(v as nat) =~= s);
    }
}

/// Appending digits never shrinks the value.
pub proof fn lemma_dec_value_extend(s: Seq<u8>, t: Seq<u8>)
    requires
        all_digits(s),
        all_digits(t),
    ensures
        dec_value(s + t) >= dec_value(s),
    decreases t.len(),
{
    lemma_dec_value_nonneg(s);
    if t.len() == 0 {
        assert(s + t =~= s);
    } else {
        let t1 = t.drop_last();
        assert(all_digits(t1)) by {
            assert forall|i: int| 0 <= i < t1.len() implies is_digit(#[trigger] t1[i]) by {
                assert(t1[i] == t[i]);
            }
        }
        lemma_dec_value_extend(s, t1);
        assert((s + t).drop_last() =~= s + t1);
        assert((s + t).last() == t.last());
        assert(is_digit(t.last()));
        assert(dec_value(s + t) == dec_value(s + t1) * 10 + (t.last() - 48));
        assert(dec_value(s + t1) * 10 >= dec_value(s + t1)) by (nonlinear_arith)
            requires
                dec_value(s + t1) >= 0,
        ;
        lemma_dec_value_nonneg(s + t1);
    }
}

/// Whether the canonical digits of value `v` sit at `pos` in `b`, ending at
/// `end` where either the input ends or a non-digit follows. At most one
/// `(v, end)` fits a given position.
pub open spec fn canonical_number_at(b: Seq<u8>, pos: int, v: int, end: int) -> bool {
    &&& 0 <= v <= u64::MAX
    &&& 0 <= pos <= end <= b.len()
    &&& b.subrange(pos, end) =~= spec_dec(v as nat)
    &&& (end == b.len() || !is_digit(b[end]))
}

/// Decode the canonical decimal number starting at `pos`: the maximal digit
/// run there, rejected if it is empty, has a leading zero, or exceeds
/// `u64::MAX`. Exactly the positions where a canonical number sits decode
/// successfully.
#[verifier::loop_isolation(false)]
pub fn parse_number(b: &[u8], pos: usize) -> (r: Option<(u64, usize)>)
    requires
        pos <= b@.len(),
    ensures
        match r {
            Some((v, end)) => canonical_number_at(b@, pos as int, v as int, end as int),
            None => forall|v: int, end: int| !canonical_number_at(b@, pos as int, v, end),
        },
{
    let len = b.len();
    let mut end = pos;
    while end < len && 48 <= b[end] && b[end] <= 57
        invariant
            pos <= end <= len,
            forall|i: int| pos <= i < end ==> is_digit(#[trigger] b@[i]),
        decreases len - end,
    {
        end += 1;
    }
    assert(end == len || !is_digit(b@[end as int]));
    proof {
        // any canonical run at pos stops exactly at end
        assert forall|v: int, e: int| canonical_number_at(b@, pos as int, v, e) implies e
            == end as int by {
            lemma_dec_shape(v as nat);
            let run = b@.subrange(pos as int, e);
            if e > end {
                assert(is_digit(run[end - pos]));
                assert(b@[end as int] == run[end - pos]);
            }
            if e < end {
                assert(is_digit(b@[e]));
            }
        }
    }
    if end == pos {
        proof {
            assert forall|v: int, e: int| !canonical_number_at(b@, pos as int, v, e) by {
                if canonical_number_at(b@, pos as int, v, e) {
                    lemma_dec_shape(v as nat);
                }
            }
        }
        return None;
    }
    if b[pos] == 48 && end > pos + 1 {
        proof {
            assert forall|v: int, e: int| !canonical_number_at(b@, pos as int, v, e) by {
                if canonical_number_at(b@, pos as int, v, e) {
                    lemma_dec_shape(v as nat);
                    let run = b@.subrange(pos as int, e);
                    assert(run[0] == b@[pos as int]);
                }
            }
        }
        return None;
    }
    let mut v: u64 = 0;
    let mut k = pos;
    while k < end
        invariant
            pos <= k <= end <= len,
            len == b@.len(),
            forall|i: int| pos <= i < end ==> is_digit(#[trigger] b@[i]),
            v == dec_value(b@.subrange(pos as int, k as int)),
        decreases end - k,
    {
        let d = b[k] - 48;
        let ghost prefix = b@.subrange(pos as int, k as int);
        let ghost prefix1 = b@.subrange(pos as int, k as int + 1);
        proof {
            assert(prefix1.drop_last() =~= prefix);
            assert(prefix1.last() == b@[k as int]);
        }
        let step = match v.checked_mul(10) {
            Some(x) => x.checked_add(d as u64),
            None => None,
        };
        match step {
            Some(x) => {
                v = x;
            },
            None => {
                proof {
                    // the run's value already exceeds u64::MAX
                    assert(all_digits(prefix1)) by {
                        assert forall|i: int| 0 <= i < prefix1.len() implies is_digit(
                            #[trigger] prefix1[i],
                        ) by {
                            assert(prefix1[i] == b@[pos + i]);
                        }
                    }
                    lemma_dec_value_nonneg(prefix1);
                    assert(dec_value(prefix1) > u64::MAX);
                    assert forall|w: int, e: int| !canonical_number_at(b@, pos as int, w, e) by {
                        if canonical_number_at(b@, pos as int, w, e) {
                            let run = b@.subrange(pos as int, e);
                            assert(e == end as int);
                            lemma_dec_shape(w as nat);
                            lemma_dec_value_of_dec(w as nat);
                            let rest = b@.subrange(k as int + 1, end as int);
                            assert(all_digits(rest)) by {
                                assert forall|i: int| 0 <= i < rest.len() implies is_digit(
                                    #[trigger] rest[i],
                                ) by {
                                    assert(rest[i] == b@[k + 1 + i]);
                                }
                            }
                            assert(run =~= prefix1 + rest);
                            lemma_dec_value_extend(prefix1, rest);
                        }
                    }
                }
                return None;
            },
        }
        k += 1;
    }
    proof {
        let run = b@.subrange(pos as int, end as int);
        assert(all_digits(run));
        assert(run[0] == b@[pos as int]);
        lemma_dec_canon(run);
    }
    Some((v, end))
}

/// Append the canonical decimal digits of `n`.
pub fn push_dec(out: &mut Vec<u8>, n: u64)
    ensures
        final(out)@ == old(out)@ + spec_dec(n as nat),
    decreases n,
{
    if n < 10 {
        out.push(48 + n as u8);
        assert(final(out)@ =~= old(out)@ + spec_dec(n as nat));
    } else {
        push_dec(out, n / 10);
        out.push(48 + (n % 10) as u8);
        assert(final(out)@ =~= old(out)@ + spec_dec(n as nat));
    }
}

/// The bytes of `{"chunkSize":`, the opening of the record.
pub open spec fn lit_head() -> Seq<u8> {
    seq![123u8, 34u8, 99u8, 104u8, 117u8, 110u8, 107u8, 83u8, 105u8, 122u8, 101u8, 34u8, 58u8]
}

/// The bytes of `,"fileSize":`, between the two sizes.
pub open spec fn lit_mid() -> Seq<u8> {
    seq![44u8, 34u8, 102u8, 105u8, 108u8, 101u8, 83u8, 105u8, 122u8, 101u8, 34u8, 58u8]
}

/// The bytes of `,"chunks":{`, opening the status map.
pub open spec fn lit_chunks() -> Seq<u8> {
    seq![44u8, 34u8, 99u8, 104u8, 117u8, 110u8, 107u8, 115u8, 34u8, 58u8, 123u8]
}

/// The bytes of `}}`, closing the status map and the record.
pub open spec fn lit_tail() -> Seq<u8> {
    seq![125u8, 125u8]
}

/// The digit encoding a status: `0` not started, `1` ongoing, `2` completed.
pub open spec fn status_byte(s: ChunkStatus) -> u8 {
    match s {
        ChunkStatus::NotStarted => 48,
        ChunkStatus::Ongoing => 49,
        ChunkStatus::Completed => 50,
    }
}

/// The bytes of one status-map entry, `"<i>":<d>`.
pub open spec fn spec_entry(i: nat, s: ChunkStatus) -> Seq<u8> {
    seq![34u8] + spec_dec(i) + seq![34u8, 58u8, status_byte(s)]
}

/// The bytes of the status-map entries from index `i` on, in index order,
/// separated by commas.
pub open spec fn spec_entries_from(chunks: Seq<ChunkStatus>, i: int) -> Seq<u8>
    decreases chunks.len() - i,
{
    if i < 0 || i >= chunks.len() {
        Seq::empty()
    } else if i + 1 < chunks.len() {
        spec_entry(i as nat, chunks[i]) + seq![44u8] + spec_entries_from(chunks, i + 1)
    } else {
        spec_entry(i as nat, chunks[i])
    }
}

/// Entry `j` of `n`, with its trailing comma unless it is the last.
pub open spec fn spec_entry_block(j: int, s: ChunkStatus, n: int) -> Seq<u8> {
    if j + 1 < n {
        spec_entry(j as nat, s) + seq![44u8]
    } else {
        spec_entry(j as nat, s)
    }
}

/// The bytes of the status-map entries before index `i`, of `n` in all.
pub open spec fn spec_entries_upto(chunks: Seq<ChunkStatus>, n: int, i: int) -> Seq<u8>
    decreases i,
{
    if i <= 0 {
        Seq::empty()
    } else {
        spec_entries_upto(chunks, n, i - 1) + spec_entry_block(i - 1, chunks[i - 1], n)
    }
}

/// The entries before `i` depend only on the statuses before `i`.
proof fn lemma_entries_upto_prefix(s1: Seq<ChunkStatus>, s2: Seq<ChunkStatus>, n: int, i: int)
    requires
        i <= s1.len(),
        i <= s2.len(),
        forall|j: int| 0 <= j < i ==> s1[j] == s2[j],
    ensures
        spec_entries_upto(s1, n, i) == spec_entries_upto(s2, n, i),
    decreases i,
{
    if i > 0 {
        lemma_entries_upto_prefix(s1, s2, n, i - 1);
    }
}

/// The entries before `i` followed by the entries from `i` on are all the
/// entries.
proof fn lemma_entries_upto_from(chunks: Seq<ChunkStatus>, i: int)
    requires
        0 <= i <= chunks.len(),
    ensures
        spec_entries_upto(chunks, chunks.len() as int, i) + spec_entries_from(chunks, i)
            =~= spec_entries_from(chunks, 0),
    decreases i,
{
    let n = chunks.len() as int;
    if i == 0 {
        assert(spec_entries_upto(chunks, n, 0) + spec_entries_from(chunks, 0) =~= spec_entries_from(
            chunks,
            0,
        ));
    } else {
        lemma_entries_upto_from(chunks, i - 1);
        assert(spec_entry_block(i - 1, chunks[i - 1], n) + spec_entries_from(chunks, i)
            =~= spec_entries_from(chunks, i - 1));
        assert(spec_entries_upto(chunks, n, i) + spec_entries_from(chunks, i) =~= (
        spec_entries_upto(chunks, n, i - 1) + spec_entries_from(chunks, i - 1)));
    }
}

/// The canonical byte encoding of a sidecar record given by its components.
pub open spec fn spec_encode_parts(cs: int, fs: int, chunks: Seq<ChunkStatus>) -> Seq<u8> {
    lit_head() + spec_dec(cs as nat) + lit_mid() + spec_dec(fs as nat) + lit_chunks()
        + spec_entries_from(chunks, 0) + lit_tail()
}

/// Whether `b` is the canonical encoding of the well-formed record
/// `(cs, fs, chunks)`.
pub open spec fn is_canonical_encoding(
    b: Seq<u8>,
    cs: int,
    fs: int,
    chunks: Seq<ChunkStatus>,
) -> bool {
    &&& 0 <= cs <= usize::MAX
    &&& 0 <= fs <= u64::MAX
    &&& spec_wf_parts(cs, fs, chunks)
    &&& spec_encode_parts(cs, fs, chunks) == b
}

/// Where each component of an encoding sits: the literal pieces and the two
/// numbers partition the bytes at known offsets.
pub proof fn lemma_encode_parts_shape(b: Seq<u8>, cs: int, fs: int, chunks: Seq<ChunkStatus>)
    requires
        cs >= 0,
        fs >= 0,
        b == spec_encode_parts(cs, fs, chunks),
    ensures
        ({
            let dcs = spec_dec(cs as nat).len() as int;
            let dfs = spec_dec(fs as nat).len() as int;
            let ent = spec_entries_from(chunks, 0).len() as int;
            &&& b.len() == 38 + dcs + dfs + ent
            &&& b.subrange(0, 13) =~= lit_head()
            &&& b.subrange(13, 13 + dcs) =~= spec_dec(cs as nat)
            &&& b.subrange(13 + dcs, 25 + dcs) =~= lit_mid()
            &&& b.subrange(25 + dcs, 25 + dcs + dfs) =~= spec_dec(fs as nat)
            &&& b.subrange(25 + dcs + dfs, 36 + dcs + dfs) =~= lit_chunks()
            &&& b.subrange(36 + dcs + dfs, 36 + dcs + dfs + ent) =~= spec_entries_from(chunks, 0)
            &&& b.subrange(36 + dcs + dfs + ent, 38 + dcs + dfs + ent) =~= lit_tail()
        }),
{
    let dcs = spec_dec(cs as nat).len() as int;
    let dfs = spec_dec(fs as nat).len() as int;
    let ent = spec_entries_from(chunks, 0).len() as int;
    assert(lit_head().len() == 13);
    assert(lit_mid().len() == 12);
    assert(lit_chunks().len() == 11);
    assert(lit_tail().len() == 2);
    assert(b.subrange(0, 13) =~= lit_head());
    assert(b.subrange(13, 13 + dcs) =~= spec_dec(cs as nat));
    assert(b.subrange(13 + dcs, 25 + dcs) =~= lit_mid());
    assert(b.subrange(25 + dcs, 25 + dcs + dfs) =~= spec_dec(fs as nat));
    assert(b.subrange(25 + dcs + dfs, 36 + dcs + dfs) =~= lit_chunks());
    assert(b.subrange(36 + dcs + dfs, 36 + dcs + dfs + ent) =~= spec_entries_from(chunks, 0));
    assert(b.subrange(36 + dcs + dfs + ent, 38 + dcs + dfs + ent) =~= lit_tail());
}

/// Append every byte of `pat`.
fn push_bytes(out: &mut Vec<u8>, pat: &Vec<u8>)
    ensures
        final(out)@ == old(out)@ + pat@,
{
    let mut k: usize = 0;
    while k < pat.len()
        invariant
            k <= pat@.len(),
            out@ == old(out)@ + pat@.subrange(0, k as int),
        decreases pat@.len() - k,
    {
        out.push(pat[k]);
        assert(out@ =~= old(out)@ + pat@.subrange(0, k as int + 1));
        k += 1;
    }
    assert(out@ =~= old(out)@ + pat@);
}

/// The bytes of `{"chunkSize":` as a vector.
fn lit_head_vec() -> (v: Vec<u8>)
    ensures
        v@ =~= lit_head(),
{
    let v: Vec<u8> = vec![123u8, 34u8, 99u8, 104u8, 117u8, 110u8, 107u8, 83u8, 105u8, 122u8, 101u8, 34u8, 58u8];
    v
}

/// The bytes of `,"fileSize":` as a vector.
fn lit_mid_vec() -> (v: Vec<u8>)
    ensures
        v@ =~= lit_mid(),
{
    let v: Vec<u8> = vec![44u8, 34u8, 102u8, 105u8, 108u8, 101u8, 83u8, 105u8, 122u8, 101u8, 34u8, 58u8];
    v
}

/// The bytes of `,"chunks":{` as a vector.
fn lit_chunks_vec() -> (v: Vec<u8>)
    ensures
        v@ =~= lit_chunks(),
{
    let v: Vec<u8> = vec![44u8, 34u8, 99u8, 104u8, 117u8, 110u8, 107u8, 115u8, 34u8, 58u8, 123u8];
    v
}

/// The bytes of `}}` as a vector.
fn lit_tail_vec() -> (v: Vec<u8>)
    ensures
        v@ =~= lit_tail(),
{
    let v: Vec<u8> = vec![125u8, 125u8];
    v
}

/// A subrange splits at any interior point into the two adjacent subranges.
proof fn lemma_subrange_split(s: Seq<u8>, a: int, m: int, c: int)
    requires
        0 <= a <= m <= c <= s.len(),
    ensures
        s.subrange(a, c) =~= s.subrange(a, m) + s.subrange(m, c),
{
}

/// At most one canonical number sits at a given position.
pub proof fn lemma_canonical_number_unique(
    b: Seq<u8>,
    pos: int,
    v1: int,
    e1: int,
    v2: int,
    e2: int,
)
    requires
        canonical_number_at(b, pos, v1, e1),
        canonical_number_at(b, pos, v2, e2),
    ensures
        v1 == v2,
        e1 == e2,
{
    lemma_dec_shape(v1 as nat);
    lemma_dec_shape(v2 as nat);
    let run1 = b.subrange(pos, e1);
    let run2 = b.subrange(pos, e2);
    assert(run1 == spec_dec(v1 as nat));
    assert(run2 == spec_dec(v2 as nat));
    if e1 < e2 {
        assert(b[e1] == run2[e1 - pos]);
        assert(is_digit(spec_dec(v2 as nat)[e1 - pos]));
        assert(false);
    }
    if e2 < e1 {
        assert(b[e2] == run1[e2 - pos]);
        assert(is_digit(spec_dec(v1 as nat)[e2 - pos]));
        assert(false);
    }
    assert(e1 == e2);
    assert(run1 =~= run2);
    lemma_dec_value_of_dec(v1 as nat);
    lemma_dec_value_of_dec(v2 as nat);
}

/// Whether the bytes of `pat` sit at `pos` in `b`.
#[verifier::loop_isolation(false)]
fn match_at(b: &[u8], pos: usize, pat: &Vec<u8>) -> (r: bool)
    requires
        pos <= b@.len(),
    ensures
        r <==> (pos + pat@.len() <= b@.len() && b@.subrange(
            pos as int,
            pos as int + pat@.len() as int,
        ) =~= pat@),
{
    if b.len() - pos < pat.len() {
        return false;
    }
    let mut k: usize = 0;
    while k < pat.len()
        invariant
            k <= pat@.len(),
            forall|j: int| 0 <= j < k ==> b@[pos + j] == pat@[j],
        decreases pat@.len() - k,
    {
        if b[pos + k] != pat[k] {
            proof {
                let sub = b@.subrange(pos as int, pos as int + pat@.len() as int);
                assert(sub[k as int] == b@[pos + k]);
            }
            return false;
        }
        k += 1;
    }
    proof {
        assert(b@.subrange(pos as int, pos as int + pat@.len() as int) =~= pat@);
    }
    true
}

/// Encode a well-formed sidecar record into its canonical bytes.
#[verifier::loop_isolation(false)]
pub fn encode_parts(cs: usize, fs: u64, chunks: &Vec<ChunkStatus>) -> (r: Vec<u8>)
    ensures
        r@ == spec_encode_parts(cs as int, fs as int, chunks@),
{
    let mut out: Vec<u8> = Vec::new();
    let head = lit_head_vec();
    push_bytes(&mut out, &head);
    push_dec(&mut out, cs as u64);
    let mid = lit_mid_vec();
    push_bytes(&mut out, &mid);
    push_dec(&mut out, fs);
    let chunks_lit = lit_chunks_vec();
    push_bytes(&mut out, &chunks_lit);
    let ghost prefix = out@;
    let n = chunks.len();
    let mut i: usize = 0;
    while i < n
        invariant
            i <= n,
            out@ + spec_entries_from(chunks@, i as int) == prefix + spec_entries_from(chunks@, 0),
        decreases n - i,
    {
        let ghost before = out@;
        out.push(34);
        push_dec(&mut out, i as u64);
        out.push(34);
        out.push(58);
        let status = match chunks[i] {
            ChunkStatus::NotStarted => 48u8,
            ChunkStatus::Ongoing => 49u8,
            ChunkStatus::Completed => 50u8,
        };
        out.push(status);
        assert(out@ =~= before + spec_entry(i as nat, chunks@[i as int]));
        if i + 1 < n {
            out.push(44);
            assert(out@ =~= before + (spec_entry(i as nat, chunks@[i as int]) + seq![44u8]));
        }
        assert(out@ + spec_entries_from(chunks@, i as int + 1) =~= before + spec_entries_from(
            chunks@,
            i as int,
        ));
        i += 1;
    }
    let tail = lit_tail_vec();
    push_bytes(&mut out, &tail);
    assert(out@ =~= spec_encode_parts(cs as int, fs as int, chunks@));
    out
}

/// Whether the bytes of `b` from `es` to the end are the entries of `c2`
/// followed by the closing braces.
pub open spec fn entries_layout(b: Seq<u8>, es: int, c2: Seq<ChunkStatus>) -> bool {
    b.subrange(es, b.len() as int) == spec_entries_from(c2, 0) + lit_tail()
}

/// Decode the status-map entries and the closing braces, which must reach the
/// end of the input: exactly `n` entries keyed `0` to `n - 1` in order.
#[verifier::loop_isolation(false)]
#[verifier::rlimit(100)]
fn parse_entries(b: &[u8], es: usize, n: usize) -> (r: Result<Vec<ChunkStatus>, UploadError>)
    requires
        es <= b@.len(),
    ensures
        match r {
            Ok(sts) => {
                &&& sts@.len() == n
                &&& entries_layout(b@, es as int, sts@)
                &&& forall|c2: Seq<ChunkStatus>|
                    c2.len() == n as int && #[trigger] entries_layout(b@, es as int, c2) ==> c2
                        == sts@
            },
            Err(e) => {
                &&& e == UploadError::UploadMetaIsBroken
                &&& forall|c2: Seq<ChunkStatus>|
                    !(c2.len() == n as int && #[trigger] entries_layout(b@, es as int, c2))
            },
        },
{
    let len = b.len();
    let mut sts: Vec<ChunkStatus> = Vec::new();
    let mut pos = es;
    let mut i: usize = 0;
    while i < n
        invariant
            i <= n,
            sts@.len() == i as int,
            es <= pos <= len,
            b@.subrange(es as int, pos as int) =~= spec_entries_upto(sts@, n as int, i as int),
            forall|c2: Seq<ChunkStatus>|
                c2.len() == n as int && #[trigger] entries_layout(b@, es as int, c2) ==> b@
                    .subrange(pos as int, len as int) =~= spec_entries_from(c2, i as int)
                    + lit_tail() && (forall|j: int| 0 <= j < i ==> c2[j] == sts@[j]),
        decreases n - i,
    {
        let mut pat: Vec<u8> = Vec::new();
        pat.push(34);
        push_dec(&mut pat, i as u64);
        pat.push(34);
        pat.push(58);
        proof {
            assert(pat@ =~= seq![34u8] + spec_dec(i as nat) + seq![34u8, 58u8]);
            assert forall|s: ChunkStatus|
                #[trigger] spec_entry(i as nat, s) =~= pat@ + seq![status_byte(s)] by {}
        }
        if !match_at(b, pos, &pat) {
            proof {
                assert forall|c2: Seq<ChunkStatus>|
                    !(c2.len() == n as int && #[trigger] entries_layout(b@, es as int, c2)) by {
                    if c2.len() == n as int && entries_layout(b@, es as int, c2) {
                        let suffix = b@.subrange(pos as int, len as int);
                        let entry = spec_entry(i as nat, c2[i as int]);
                        assert(suffix.len() >= entry.len());
                        assert(b@.subrange(pos as int, pos + pat@.len()) =~= pat@);
                    }
                }
            }
            return Err(UploadError::UploadMetaIsBroken);
        }
        let pos2 = pos + pat.len();
        if pos2 >= len {
            proof {
                assert forall|c2: Seq<ChunkStatus>|
                    !(c2.len() == n as int && #[trigger] entries_layout(b@, es as int, c2)) by {
                    if c2.len() == n as int && entries_layout(b@, es as int, c2) {
                        let suffix = b@.subrange(pos as int, len as int);
                        let entry = spec_entry(i as nat, c2[i as int]);
                        assert(suffix.len() >= entry.len());
                    }
                }
            }
            return Err(UploadError::UploadMetaIsBroken);
        }
        let d = b[pos2];
        proof {
            // any fitting status map has its digit for chunk i exactly here
            assert forall|c2: Seq<ChunkStatus>|
                c2.len() == n as int && #[trigger] entries_layout(b@, es as int, c2) implies
                status_byte(c2[i as int]) == d by {
                let suffix = b@.subrange(pos as int, len as int);
                let entry = spec_entry(i as nat, c2[i as int]);
                assert(suffix[pat@.len() as int] == b@[pos2 as int]);
                assert(entry[pat@.len() as int] == status_byte(c2[i as int]));
            }
        }
        let st = if d == 48 {
            ChunkStatus::NotStarted
        } else if d == 49 {
            ChunkStatus::Ongoing
        } else if d == 50 {
            ChunkStatus::Completed
        } else {
            proof {
                assert forall|c2: Seq<ChunkStatus>|
                    !(c2.len() == n as int && #[trigger] entries_layout(b@, es as int, c2)) by {
                    if c2.len() == n as int && entries_layout(b@, es as int, c2) {
                        assert(status_byte(c2[i as int]) == d);
                    }
                }
            }
            return Err(UploadError::UploadMetaIsBroken);
        };
        let pos3 = pos2 + 1;
        let pos4: usize;
        if i + 1 < n {
            if pos3 >= len || b[pos3] != 44 {
                proof {
                    assert forall|c2: Seq<ChunkStatus>|
                        !(c2.len() == n as int && #[trigger] entries_layout(b@, es as int, c2)) by {
                        if c2.len() == n as int && entries_layout(b@, es as int, c2) {
                            let suffix = b@.subrange(pos as int, len as int);
                            let entry = spec_entry(i as nat, c2[i as int]);
                            assert(suffix[entry.len() as int] == 44);
                            assert(suffix[entry.len() as int] == b@[pos3 as int]);
                        }
                    }
                }
                return Err(UploadError::UploadMetaIsBroken);
            }
            pos4 = pos3 + 1;
        } else {
            pos4 = pos3;
        }
        let ghost old_sts = sts@;
        let ghost old_pos = pos as int;
        sts.push(st);
        proof {
            lemma_entries_upto_prefix(old_sts, sts@, n as int, i as int);
            assert(b@.subrange(old_pos, pos4 as int) =~= spec_entry_block(i as int, st, n as int));
            lemma_subrange_split(b@, es as int, old_pos, pos4 as int);
            assert(b@.subrange(es as int, pos4 as int) =~= spec_entries_upto(
                sts@,
                n as int,
                i as int + 1,
            ));
            assert forall|c2: Seq<ChunkStatus>|
                c2.len() == n as int && #[trigger] entries_layout(b@, es as int, c2) implies b@
                .subrange(pos4 as int, len as int) =~= spec_entries_from(c2, i as int + 1)
                + lit_tail() && (forall|j: int| 0 <= j < i + 1 ==> c2[j] == sts@[j]) by {
                let suffix = b@.subrange(old_pos, len as int);
                let entry = spec_entry(i as nat, c2[i as int]);
                assert(status_byte(c2[i as int]) == d);
                assert(c2[i as int] == st);
                let block = spec_entry_block(i as int, st, n as int);
                let rest = spec_entries_from(c2, i as int + 1) + lit_tail();
                assert(suffix =~= block + rest);
                assert(block.len() == pos4 as int - old_pos);
                assert forall|k: int| 0 <= k < rest.len() implies b@.subrange(
                    pos4 as int,
                    len as int,
                )[k] == rest[k] by {
                    assert(b@.subrange(pos4 as int, len as int)[k] == b@[pos4 + k]);
                    assert(suffix[pos4 - old_pos + k] == b@[pos4 + k]);
                    assert((block + rest)[block.len() as int + k] == rest[k]);
                }
                assert(b@.subrange(pos4 as int, len as int) =~= rest);
            }
        }
        pos = pos4;
        i += 1;
    }
    if len - pos != 2 || b[pos] != 125 || b[pos + 1] != 125 {
        proof {
            assert forall|c2: Seq<ChunkStatus>|
                !(c2.len() == n as int && #[trigger] entries_layout(b@, es as int, c2)) by {
                if c2.len() == n as int && entries_layout(b@, es as int, c2) {
                    let suffix = b@.subrange(pos as int, len as int);
                    assert(spec_entries_from(c2, n as int) =~= Seq::<u8>::empty());
                    assert(suffix =~= lit_tail());
                    assert(suffix[0] == b@[pos as int]);
                    assert(suffix[1] == b@[pos as int + 1]);
                }
            }
        }
        return Err(UploadError::UploadMetaIsBroken);
    }
    proof {
        lemma_entries_upto_from(sts@, n as int);
        assert(spec_entries_from(sts@, n as int) =~= Seq::<u8>::empty());
        assert(b@.subrange(es as int, pos as int) =~= spec_entries_from(sts@, 0));
        assert(b@.subrange(pos as int, len as int) =~= lit_tail());
        lemma_subrange_split(b@, es as int, pos as int, len as int);
        assert(b@.subrange(es as int, len as int) =~= spec_entries_from(sts@, 0) + lit_tail());
        assert forall|c2: Seq<ChunkStatus>|
            c2.len() == n as int && #[trigger] entries_layout(b@, es as int, c2) implies c2 == sts@
            by {
            assert(c2 =~= sts@);
        }
    }
    Ok(sts)
}

/// Decode the canonical bytes of a sidecar record.
///
/// Decoding is sound and complete for the canonical encoding: a success
/// returns the one well-formed record whose encoding is the input, and a
/// failure means no well-formed record encodes to the input.
#[verifier::loop_isolation(false)]
#[verifier::rlimit(60)]
pub fn parse_parts(b: &[u8]) -> (r: Result<(usize, u64, Vec<ChunkStatus>), UploadError>)
    ensures
        match r {
            Ok((cs, fs, chunks)) => {
                &&& spec_wf_parts(cs as int, fs as int, chunks@)
                &&& spec_encode_parts(cs as int, fs as int, chunks@) == b@
                &&& forall|cs2: int, fs2: int, c2: Seq<ChunkStatus>|
                    #[trigger] is_canonical_encoding(b@, cs2, fs2, c2) ==> cs2 == cs as int && fs2
                        == fs as int && c2 == chunks@
            },
            Err(e) => {
                &&& e == UploadError::UploadMetaIsBroken
                &&& forall|cs2: int, fs2: int, c2: Seq<ChunkStatus>|
                    !#[trigger] is_canonical_encoding(b@, cs2, fs2, c2)
            },
        },
{
    let len = b.len();
    let head = lit_head_vec();
    if !match_at(b, 0, &head) {
        proof {
            assert forall|cs2: int, fs2: int, c2: Seq<ChunkStatus>|
                !#[trigger] is_canonical_encoding(b@, cs2, fs2, c2) by {
                if is_canonical_encoding(b@, cs2, fs2, c2) {
                    lemma_encode_parts_shape(b@, cs2, fs2, c2);
                }
            }
        }
        return Err(UploadError::UploadMetaIsBroken);
    }
    let cs_parse = parse_number(b, 13);
    proof {
        // every witness places its chunk-size digits at 13, ended by `,`
        assert forall|cs2: int, fs2: int, c2: Seq<ChunkStatus>|
            #[trigger] is_canonical_encoding(b@, cs2, fs2, c2) implies canonical_number_at(
            b@,
            13,
            cs2,
            13 + spec_dec(cs2 as nat).len() as int,
        ) by {
            lemma_encode_parts_shape(b@, cs2, fs2, c2);
            let dcs = spec_dec(cs2 as nat).len() as int;
            assert(b@.subrange(13 + dcs, 25 + dcs)[0] == b@[13 + dcs]);
            assert(b@[13 + dcs] == 44);
        }
    }
    let (cs64, end_cs) = match cs_parse {
        Some(x) => x,
        None => {
            return Err(UploadError::UploadMetaIsBroken);
        },
    };
    proof {
        // and therefore agrees with the number decoded there
        assert forall|cs2: int, fs2: int, c2: Seq<ChunkStatus>|
            #[trigger] is_canonical_encoding(b@, cs2, fs2, c2) implies cs2 == cs64 as int && 13
            + spec_dec(cs2 as nat).len() == end_cs as int by {
            lemma_canonical_number_unique(
                b@,
                13,
                cs2,
                13 + spec_dec(cs2 as nat).len() as int,
                cs64 as int,
                end_cs as int,
            );
        }
    }
    if cs64 == 0 || cs64 > usize::MAX as u64 {
        return Err(UploadError::UploadMetaIsBroken);
    }
    let cs = cs64 as usize;
    let mid = lit_mid_vec();
    if !match_at(b, end_cs, &mid) {
        proof {
            assert forall|cs2: int, fs2: int, c2: Seq<ChunkStatus>|
                !#[trigger] is_canonical_encoding(b@, cs2, fs2, c2) by {
                if is_canonical_encoding(b@, cs2, fs2, c2) {
                    lemma_encode_parts_shape(b@, cs2, fs2, c2);
                }
            }
        }
        return Err(UploadError::UploadMetaIsBroken);
    }
    let fs_parse = parse_number(b, end_cs + 12);
    proof {
        // every witness places its file-size digits right after, ended by `,`
        assert forall|cs2: int, fs2: int, c2: Seq<ChunkStatus>|
            #[trigger] is_canonical_encoding(b@, cs2, fs2, c2) implies canonical_number_at(
            b@,
            end_cs + 12,
            fs2,
            end_cs + 12 + spec_dec(fs2 as nat).len() as int,
        ) by {
            lemma_encode_parts_shape(b@, cs2, fs2, c2);
            let dcs = spec_dec(cs2 as nat).len() as int;
            let dfs = spec_dec(fs2 as nat).len() as int;
            assert(b@.subrange(25 + dcs + dfs, 36 + dcs + dfs)[0] == b@[25 + dcs + dfs]);
            assert(b@[25 + dcs + dfs] == 44);
        }
    }
    let (fs64, end_fs) = match fs_parse {
        Some(x) => x,
        None => {
            return Err(UploadError::UploadMetaIsBroken);
        },
    };
    proof {
        assert forall|cs2: int, fs2: int, c2: Seq<ChunkStatus>|
            #[trigger] is_canonical_encoding(b@, cs2, fs2, c2) implies fs2 == fs64 as int && end_cs
            + 12 + spec_dec(fs2 as nat).len() == end_fs as int by {
            lemma_canonical_number_unique(
                b@,
                end_cs + 12,
                fs2,
                end_cs + 12 + spec_dec(fs2 as nat).len() as int,
                fs64 as int,
                end_fs as int,
            );
        }
    }
    let chunks_lit = lit_chunks_vec();
    if !match_at(b, end_fs, &chunks_lit) {
        proof {
            assert forall|cs2: int, fs2: int, c2: Seq<ChunkStatus>|
                !#[trigger] is_canonical_encoding(b@, cs2, fs2, c2) by {
                if is_canonical_encoding(b@, cs2, fs2, c2) {
                    lemma_encode_parts_shape(b@, cs2, fs2, c2);
                }
            }
        }
        return Err(UploadError::UploadMetaIsBroken);
    }
    let es = end_fs + 11;
    proof {
        // every witness lays its entries and the closing braces from here on
        assert forall|cs2: int, fs2: int, c2: Seq<ChunkStatus>|
            #[trigger] is_canonical_encoding(b@, cs2, fs2, c2) implies entries_layout(
            b@,
            es as int,
            c2,
        ) && c2.len() == spec_chunk_count(cs64 as int, fs64 as int) by {
            lemma_encode_parts_shape(b@, cs2, fs2, c2);
            let dcs = spec_dec(cs2 as nat).len() as int;
            let dfs = spec_dec(fs2 as nat).len() as int;
            let ent = spec_entries_from(c2, 0).len() as int;
            lemma_subrange_split(b@, es as int, es + ent, len as int);
            assert(b@.subrange(es as int, len as int) =~= spec_entries_from(c2, 0) + lit_tail());
        }
    }
    let q = fs64 / cs64;
    let rem = fs64 % cs64;
    proof {
        lemma_fundamental_div_mod(fs64 as int, cs64 as int);
        assert(q >= 0);
        if rem != 0 {
            assert((cs64 as int) * (q as int) >= q as int) by (nonlinear_arith)
                requires
                    cs64 >= 1,
                    q >= 0,
            ;
        }
    }
    let n64 = if rem != 0 {
        q + 1
    } else {
        q
    };
    if n64 > usize::MAX as u64 {
        proof {
            assert forall|cs2: int, fs2: int, c2: Seq<ChunkStatus>|
                !#[trigger] is_canonical_encoding(b@, cs2, fs2, c2) by {
                if is_canonical_encoding(b@, cs2, fs2, c2) {
                    assert(c2.len() == spec_chunk_count(cs64 as int, fs64 as int));
                    assert(c2.len() <= usize::MAX);
                }
            }
        }
        return Err(UploadError::UploadMetaIsBroken);
    }
    let n = n64 as usize;
    let sts = match parse_entries(b, es, n) {
        Ok(sts) => sts,
        Err(e) => {
            proof {
                assert forall|cs2: int, fs2: int, c2: Seq<ChunkStatus>|
                    !#[trigger] is_canonical_encoding(b@, cs2, fs2, c2) by {
                    if is_canonical_encoding(b@, cs2, fs2, c2) {
                        assert(c2.len() == n as int && entries_layout(b@, es as int, c2));
                    }
                }
            }
            return Err(e);
        },
    };
    proof {
        assert(b@.subrange(es as int, len as int) =~= spec_entries_from(sts@, 0) + lit_tail());
        assert(len as int - 2 - es as int == spec_entries_from(sts@, 0).len()) by {
            assert((spec_entries_from(sts@, 0) + lit_tail()).len() == len as int - es as int);
        }
        lemma_subrange_split(b@, es as int, len as int - 2, len as int);
        assert(b@.subrange(es as int, len as int - 2) =~= spec_entries_from(sts@, 0));
        let ent_len = spec_entries_from(sts@, 0).len() as int;
        assert forall|k: int| 0 <= k < 2 implies b@.subrange(len as int - 2, len as int)[k]
            == lit_tail()[k] by {
            assert(b@.subrange(len as int - 2, len as int)[k] == b@[len - 2 + k]);
            assert(b@.subrange(es as int, len as int)[ent_len + k] == b@[len - 2 + k]);
            assert((spec_entries_from(sts@, 0) + lit_tail())[ent_len + k] == lit_tail()[k]);
        }
        assert(b@.subrange(len as int - 2, len as int) =~= lit_tail());
        assert(b@.subrange(0, 13) =~= lit_head());
        assert(b@.subrange(13, end_cs as int) =~= spec_dec(cs64 as nat));
        assert(b@.subrange(end_cs as int, end_cs as int + 12) =~= lit_mid());
        assert(b@.subrange(end_cs as int + 12, end_fs as int) =~= spec_dec(fs64 as nat));
        assert(b@.subrange(end_fs as int, es as int) =~= lit_chunks());
        lemma_subrange_split(b@, 0, 13, end_cs as int);
        lemma_subrange_split(b@, 0, end_cs as int, end_cs as int + 12);
        lemma_subrange_split(b@, 0, end_cs as int + 12, end_fs as int);
        lemma_subrange_split(b@, 0, end_fs as int, es as int);
        lemma_subrange_split(b@, 0, es as int, len as int - 2);
        lemma_subrange_split(b@, 0, len as int - 2, len as int);
        assert(b@ =~= b@.subrange(0, len as int));
        assert(b@ =~= lit_head() + spec_dec(cs64 as nat) + lit_mid() + spec_dec(fs64 as nat)
            + lit_chunks() + spec_entries_from(sts@, 0) + lit_tail());
        assert(spec_encode_parts(cs as int, fs64 as int, sts@) == b@);
        assert forall|cs2: int, fs2: int, c2: Seq<ChunkStatus>|
            #[trigger] is_canonical_encoding(b@, cs2, fs2, c2) implies cs2 == cs as int && fs2
            == fs64 as int && c2 == sts@ by {
            assert(c2.len() == sts@.len());
            assert(c2 =~= sts@);
        }
    }
    Ok((cs, fs64, sts))
}

} // verus!
