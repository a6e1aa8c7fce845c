//! RunLengthDecode: length byte 0-127 copies the next n+1 bytes literally,
//! 129-255 repeats the next byte 257-n times, 128 is end of data.

use crate::error;
use crate::error::{Error, Result};
use crate::filters::MAX_DECODED_LEN;
use vstd::prelude::*;
use vstd::slice::slice_subrange;
use vstd::string::*;

verus! {

/// `count` copies of a byte.
pub open spec fn copies(b: u8, count: nat) -> Seq<u8> {
    Seq::new(count, |i: int| b)
}

/// What the runs from `i` on stand for, up to the end mark or the end of the
/// data; a run that the data cuts short stands for what is there.
pub open spec fn runs(data: Seq<u8>, i: int) -> Seq<u8>
    decreases data.len() - i,
{
    if !(0 <= i < data.len()) || data[i] == 128 {
        Seq::empty()
    } else if data[i] < 128 {
        let end = literal_end(data, i);
        data.subrange(i + 1, end) + runs(data, end)
    } else if i + 1 >= data.len() {
        // The byte to repeat is missing.
        Seq::empty()
    } else {
        copies(data[i + 1], (257 - data[i]) as nat) + runs(data, i + 2)
    }
}

/// Where the literal run at `i` ends.
pub open spec fn literal_end(data: Seq<u8>, i: int) -> int {
    if i + 2 + data[i] <= data.len() {
        i + 2 + data[i]
    } else {
        data.len() as int
    }
}

/// Decodes RunLengthDecode data. Truncated runs and a missing end-of-data
/// byte are tolerated: whatever decoded so far is returned. Output larger
/// than `MAX_DECODED_LEN` (a decompression bomb) is an error.
pub fn decode(data: &[u8]) -> (result: Result<Vec<u8>>)
    ensures
        match result {
            Ok(out) => out@ == runs(data@, 0) && out@.len() <= MAX_DECODED_LEN,
            Err(e) => runs(data@, 0).len() > MAX_DECODED_LEN && error::is_decode(
                e,
                "run-length: decoded stream exceeds size limit"@,
            ),
        },
{
    let mut out: Vec<u8> = Vec::with_capacity(data.len());
    let mut i: usize = 0;
    let ghost goal = runs(data@, 0);
    assert(goal =~= out@ + runs(data@, 0));
    while i < data.len()
        invariant
            i <= data@.len(),
            out@.len() <= MAX_DECODED_LEN,
            goal == runs(data@, 0),
            goal == out@ + runs(data@, i as int),
        decreases data@.len() - i,
    {
        let ghost before = out@;
        let length: u8 = data[i];
        i += 1;
        if length == 128 {
            assert(out@ =~= goal);
            return Ok(out);
        }
        if length < 128 {
            let n: usize = length as usize + 1;
            let end: usize = if n <= data.len() - i {
                i + n
            } else {
                data.len()
            };
            out.extend_from_slice(slice_subrange(data, i, end));
            assert(out@ =~= before + data@.subrange(i as int, end as int));
            i = end;
        } else {
            if i >= data.len() {
                assert(out@ =~= goal);
                return Ok(out);
            }
            let count: usize = 257 - length as usize;
            let new_len: usize = out.len() + count;
            out.resize(new_len, data[i]);
            assert(out@ =~= before + copies(data@[i as int], count as nat)) by {
                assert forall|j: int| 0 <= j < before.len() implies out@[j] == before[j] by {
                    assert(out@.subrange(0, before.len() as int)[j] == before[j]);
                }
            }
            i += 1;
        }
        assert(goal =~= out@ + runs(data@, i as int));
        if out.len() > MAX_DECODED_LEN {
            return Err(
                Error::Decode("run-length: decoded stream exceeds size limit".to_owned()),
            );
        }
    }
    assert(out@ =~= goal);
    Ok(out)
}

/// Data that is cut short decodes to a beginning of what the whole decodes to.
pub proof fn truncated_runs_decode_to_a_prefix(data: Seq<u8>, len: int)
    requires
        0 <= len <= data.len(),
    ensures
        runs(data.take(len), 0).is_prefix_of(runs(data, 0)),
{
    lemma_prefix_from(data, len, 0);
}

/// The same for the runs from `i` on.
proof fn lemma_prefix_from(data: Seq<u8>, len: int, i: int)
    requires
        0 <= i,
        0 <= len <= data.len(),
    ensures
        runs(data.take(len), i).is_prefix_of(runs(data, i)),
    decreases data.len() - i,
{
    let cut = data.take(len);
    if i < len && data[i] != 128 {
        assert(cut[i] == data[i]);
        if data[i] < 128 {
            let end = literal_end(data, i);
            let cut_end = literal_end(cut, i);
            assert(cut.subrange(i + 1, cut_end) =~= data.subrange(i + 1, cut_end));
            if cut_end == end {
                lemma_prefix_from(data, len, end);
                lemma_prefix_after(
                    data.subrange(i + 1, end),
                    runs(cut, end),
                    runs(data, end),
                );
            } else {
                assert(runs(cut, cut_end) =~= Seq::empty());
                assert(runs(cut, i) =~= data.subrange(i + 1, cut_end));
                assert(data.subrange(i + 1, cut_end) =~= runs(data, i).subrange(
                    0,
                    cut_end - i - 1,
                ));
            }
        } else if i + 1 < len {
            assert(cut[i + 1] == data[i + 1]);
            lemma_prefix_from(data, len, i + 2);
            lemma_prefix_after(
                copies(data[i + 1], (257 - data[i]) as nat),
                runs(cut, i + 2),
                runs(data, i + 2),
            );
        } else {
            assert(runs(cut, i) =~= runs(data, i).subrange(0, 0));
        }
    } else {
        assert(runs(cut, i) =~= runs(data, i).subrange(0, 0));
    }
}

/// A beginning stays one behind the same bytes.
proof fn lemma_prefix_after(head: Seq<u8>, a: Seq<u8>, b: Seq<u8>)
    requires
        a.is_prefix_of(b),
    ensures
        (head + a).is_prefix_of(head + b),
{
    assert(head + a =~= (head + b).subrange(0, (head + a).len() as int)) by {
        assert forall|j: int| 0 <= j < a.len() implies a[j] == b[j] by {
            assert(a[j] == b.subrange(0, a.len() as int)[j]);
        }
    }
}

/// What stands behind the end mark makes no difference.
pub proof fn data_behind_the_end_mark_is_ignored(data: Seq<u8>, more: Seq<u8>)
    requires
        ends_with_the_mark(data, 0),
    ensures
        runs(data + more, 0) == runs(data, 0),
{
    lemma_behind_the_mark(data, more, 0);
}

/// Whether the runs from `i` on come to an end mark.
pub open spec fn ends_with_the_mark(data: Seq<u8>, i: int) -> bool
    decreases data.len() - i,
{
    if !(0 <= i < data.len()) {
        false
    } else if data[i] == 128 {
        true
    } else if data[i] < 128 {
        i + 2 + data[i] <= data.len() && ends_with_the_mark(data, i + 2 + data[i])
    } else {
        i + 1 < data.len() && ends_with_the_mark(data, i + 2)
    }
}

/// The same for the runs from `i` on.
proof fn lemma_behind_the_mark(data: Seq<u8>, more: Seq<u8>, i: int)
    requires
        ends_with_the_mark(data, i),
    ensures
        runs(data + more, i) == runs(data, i),
    decreases data.len() - i,
{
    let all = data + more;
    assert(all[i] == data[i]);
    if data[i] < 128 {
        let end = i + 2 + data[i];
        assert(all.subrange(i + 1, end) =~= data.subrange(i + 1, end));
        lemma_behind_the_mark(data, more, end);
    } else if data[i] > 128 {
        assert(all[i + 1] == data[i + 1]);
        lemma_behind_the_mark(data, more, i + 2);
    }
}

/// A run before it is coded.
pub enum Run {
    /// Bytes copied as they are.
    Literal(Seq<u8>),
    /// A byte repeated.
    Repeat(u8, nat),
}

/// Whether a run can be coded: one to 128 bytes, two or more to repeat.
pub open spec fn codable(run: Run) -> bool {
    match run {
        Run::Literal(bytes) => 1 <= bytes.len() <= 128,
        Run::Repeat(_, count) => 2 <= count <= 128,
    }
}

/// The code of a run.
pub open spec fn coded(run: Run) -> Seq<u8> {
    match run {
        Run::Literal(bytes) => seq![(bytes.len() - 1) as u8] + bytes,
        Run::Repeat(b, count) => seq![(257 - count) as u8, b],
    }
}

/// The bytes of a run.
pub open spec fn plain(run: Run) -> Seq<u8> {
    match run {
        Run::Literal(bytes) => bytes,
        Run::Repeat(b, count) => copies(b, count),
    }
}

/// The codes of runs and the end mark.
pub open spec fn all_coded(list: Seq<Run>) -> Seq<u8>
    decreases list.len(),
{
    if list.len() == 0 {
        seq![128u8]
    } else {
        coded(list[0]) + all_coded(list.skip(1))
    }
}

/// The bytes of runs.
pub open spec fn all_plain(list: Seq<Run>) -> Seq<u8>
    decreases list.len(),
{
    if list.len() == 0 {
        Seq::empty()
    } else {
        plain(list[0]) + all_plain(list.skip(1))
    }
}

/// Runs that were coded decode to their bytes, whatever follows them.
pub proof fn coded_runs_are_restored(list: Seq<Run>, more: Seq<u8>)
    requires
        forall|i: int| 0 <= i < list.len() ==> codable(#[trigger] list[i]),
    ensures
        runs(all_coded(list) + more, 0) == all_plain(list),
{
    assert(Seq::<u8>::empty() + (all_coded(list) + more) =~= all_coded(list) + more);
    lemma_restored(Seq::empty(), list, more);
}

/// The same behind other data.
proof fn lemma_restored(head: Seq<u8>, list: Seq<Run>, more: Seq<u8>)
    requires
        forall|i: int| 0 <= i < list.len() ==> codable(#[trigger] list[i]),
    ensures
        runs(head + (all_coded(list) + more), head.len() as int) == all_plain(list),
    decreases list.len(),
{
    let data = head + (all_coded(list) + more);
    let at = head.len() as int;
    if list.len() == 0 {
        assert(data[at] == 128);
    } else {
        let first = coded(list[0]);
        let rest = list.skip(1);
        assert(codable(list[0]));
        assert forall|i: int| 0 <= i < rest.len() implies codable(#[trigger] rest[i]) by {
            assert(rest[i] == list[i + 1]);
        }
        lemma_restored(head + first, rest, more);
        assert((head + first) + (all_coded(rest) + more) =~= data);
        assert(data[at] == first[0]);
        match list[0] {
            Run::Literal(bytes) => {
                assert(data.subrange(at + 1, at + first.len()) =~= bytes);
            },
            Run::Repeat(b, count) => {
                assert(data[at + 1] == first[1]);
            },
        }
    }
}

/// Law: a run of literal bytes that the data ends in gives the bytes that are
/// left, a run to repeat without its byte gives none, and no data gives none.
pub proof fn cut_runs_give_what_is_left(n: u8, bytes: Seq<u8>)
    ensures
        n < 128 && bytes.len() <= n + 1 ==> runs(seq![n] + bytes, 0) == bytes,
        n > 128 ==> runs(seq![n], 0).len() == 0,
        runs(Seq::empty(), 0).len() == 0,
{
    let data = seq![n] + bytes;
    assert(data[0] == n);
    if n < 128 && bytes.len() <= n + 1 {
        assert(literal_end(data, 0) == data.len());
        assert(data.subrange(1, data.len() as int) =~= bytes);
        assert(runs(data, data.len() as int) =~= Seq::<u8>::empty());
        assert(bytes + Seq::<u8>::empty() =~= bytes);
    }
}

} // verus!
