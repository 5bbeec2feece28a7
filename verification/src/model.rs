//! The mathematical model of buffer contents.
//!
//! A buffer's contents are a byte sequence. Writing a span and comparing a
//! span are described here as pure functions on sequences; the executable
//! operations in [`crate::page`] promise exactly these functions of their
//! inputs, and the laws at the end relate the operations to one another.

use vstd::prelude::*;

verus! {

/// The contents after writing `data` at byte offset `off`: bytes in
/// `[off, off + data.len())` come from `data`, all others are unchanged.
pub open spec fn spec_write(contents: Seq<u8>, off: int, data: Seq<u8>) -> Seq<u8> {
    Seq::new(
        contents.len(),
        |i: int|
            if off <= i < off + data.len() {
                data[i - off]
            } else {
                contents[i]
            },
    )
}

/// The all-zero byte sequence of length `len`.
pub open spec fn zeros(len: int) -> Seq<u8> {
    Seq::new(len as nat, |i: int| 0u8)
}

/// The ordered list of offsets `base + k`, over the `k` at which
/// `contents[off + k]` and `data[k]` disagree. `base` names the positions the
/// caller reports; comparing a span of a buffer reports positions within the
/// whole buffer while inspecting one page at a time.
pub open spec fn mismatch_offsets(contents: Seq<u8>, off: int, data: Seq<u8>, base: int) -> Seq<
    int,
>
    decreases data.len(),
{
    if data.len() == 0 {
        Seq::empty()
    } else {
        let last = data.len() - 1;
        mismatch_offsets(contents, off, data.drop_last(), base)
            + if contents[off + last] != data[last] {
                seq![base + last]
            } else {
                Seq::empty()
            }
    }
}

/// The ordered list of absolute byte offsets within `contents` at which
/// `contents` and `data` (laid at offset `off`) disagree. Empty exactly when
/// the span `[off, off + data.len())` of `contents` equals `data`.
pub open spec fn mismatches(contents: Seq<u8>, off: int, data: Seq<u8>) -> Seq<int> {
    mismatch_offsets(contents, off, data, off)
}

/// Extending the reference data by one byte either keeps the mismatch list or
/// appends the one new position.
pub proof fn lemma_mismatch_push(contents: Seq<u8>, off: int, data: Seq<u8>, b: u8, base: int)
    ensures
        mismatch_offsets(contents, off, data.push(b), base) == mismatch_offsets(
            contents,
            off,
            data,
            base,
        )
            + if contents[off + data.len()] != b {
                seq![base + data.len() as int]
            } else {
                Seq::<int>::empty()
            },
{
    let pushed = data.push(b);
    assert(pushed.drop_last() =~= data);
    assert(pushed[pushed.len() - 1] == b);
}

/// Comparing concatenated data splits into comparing the two parts, the
/// second shifted past the first.
pub proof fn lemma_mismatch_concat(
    contents: Seq<u8>,
    off: int,
    d1: Seq<u8>,
    d2: Seq<u8>,
    base: int,
)
    ensures
        mismatch_offsets(contents, off, d1 + d2, base) == mismatch_offsets(
            contents,
            off,
            d1,
            base,
        ) + mismatch_offsets(contents, off + d1.len(), d2, base + d1.len()),
    decreases d2.len(),
{
    if d2.len() == 0 {
        assert(d1 + d2 =~= d1);
        assert(mismatch_offsets(contents, off + d1.len(), d2, base + d1.len())
            =~= Seq::<int>::empty());
        assert(mismatch_offsets(contents, off, d1, base)
            + Seq::<int>::empty() =~= mismatch_offsets(contents, off, d1, base));
    } else {
        let d2f = d2.drop_last();
        let b = d2.last();
        lemma_mismatch_concat(contents, off, d1, d2f, base);
        lemma_mismatch_push(contents, off, d1 + d2f, b, base);
        lemma_mismatch_push(contents, off + d1.len(), d2f, b, base + d1.len());
        assert((d1 + d2f).push(b) =~= d1 + d2);
        assert(mismatch_offsets(contents, off, d1 + d2, base) =~= mismatch_offsets(
            contents,
            off,
            d1,
            base,
        ) + mismatch_offsets(contents, off + d1.len(), d2, base + d1.len()));
    }
}

/// The mismatch list depends only on the bytes the comparison reads: two
/// contents that agree on the compared span give the same list.
pub proof fn lemma_mismatch_congruence(
    c1: Seq<u8>,
    o1: int,
    c2: Seq<u8>,
    o2: int,
    data: Seq<u8>,
    base: int,
)
    requires
        forall|k: int| 0 <= k < data.len() ==> #[trigger] c1[o1 + k] == c2[o2 + k],
    ensures
        mismatch_offsets(c1, o1, data, base) == mismatch_offsets(c2, o2, data, base),
    decreases data.len(),
{
    if data.len() > 0 {
        lemma_mismatch_congruence(c1, o1, c2, o2, data.drop_last(), base);
        let k = data.len() - 1;
        assert(c1[o1 + k] == c2[o2 + k]);
    }
}

/// A span that already equals the reference data has no mismatches.
pub proof fn lemma_mismatch_of_equal(contents: Seq<u8>, off: int, data: Seq<u8>, base: int)
    requires
        forall|k: int| 0 <= k < data.len() ==> #[trigger] contents[off + k] == data[k],
    ensures
        mismatch_offsets(contents, off, data, base) == Seq::<int>::empty(),
    decreases data.len(),
{
    if data.len() > 0 {
        lemma_mismatch_of_equal(contents, off, data.drop_last(), base);
        assert(mismatch_offsets(contents, off, data, base)
            =~= Seq::<int>::empty());
    }
}

/// An empty mismatch list denotes equality: the comparison reports no
/// positions exactly when the compared span equals the reference data.
pub proof fn lemma_no_mismatches_iff_equal(contents: Seq<u8>, off: int, data: Seq<u8>)
    requires
        0 <= off,
        off + data.len() <= contents.len(),
    ensures
        mismatches(contents, off, data) == Seq::<int>::empty() <==> contents.subrange(
            off,
            off + data.len(),
        ) == data,
    decreases data.len(),
{
    let span = contents.subrange(off, off + data.len());
    if span == data {
        assert(forall|k: int| 0 <= k < data.len() ==> #[trigger] contents[off + k] == data[k])
            by {
            assert(forall|k: int| 0 <= k < data.len() ==> span[k] == #[trigger] data[k]);
        }
        lemma_mismatch_of_equal(contents, off, data, off);
    }
    if mismatches(contents, off, data) == Seq::<int>::empty() {
        if data.len() > 0 {
            let shorter = data.drop_last();
            assert(mismatch_offsets(contents, off, shorter, off).len() == 0);
            assert(mismatch_offsets(contents, off, shorter, off) =~= Seq::<int>::empty());
            lemma_no_mismatches_iff_equal(contents, off, shorter);
            let k = data.len() - 1;
            assert(contents[off + k] == data[k]);
            assert forall|t: int| 0 <= t < data.len() implies span[t] == data[t] by {
                if t < k {
                    assert(contents.subrange(off, off + shorter.len())[t] == shorter[t]);
                }
            };
            assert(span =~= data);
        } else {
            assert(span =~= data);
        }
    }
}

/// Round trip: after writing `data` at `off`, reading the same span yields
/// exactly `data`.
pub proof fn lemma_write_read_round_trip(contents: Seq<u8>, off: int, data: Seq<u8>)
    requires
        0 <= off,
        off + data.len() <= contents.len(),
    ensures
        spec_write(contents, off, data).subrange(off, off + data.len()) == data,
{
    assert(spec_write(contents, off, data).subrange(off, off + data.len()) =~= data);
}

/// Compare after write: writing `data` at `off` and comparing the same span
/// against `data` yields no mismatches.
pub proof fn lemma_compare_after_write(contents: Seq<u8>, off: int, data: Seq<u8>)
    requires
        0 <= off,
        off + data.len() <= contents.len(),
    ensures
        mismatches(spec_write(contents, off, data), off, data) == Seq::<int>::empty(),
{
    lemma_mismatch_of_equal(spec_write(contents, off, data), off, data, off);
}

/// Zeroing is idempotent under comparison: after zeroing a span, comparing it
/// against an all-zero reference of the same length yields no mismatches.
pub proof fn lemma_zero_then_compare_zeros(contents: Seq<u8>, off: int, len: int)
    requires
        0 <= off,
        0 <= len,
        off + len <= contents.len(),
    ensures
        mismatches(spec_write(contents, off, zeros(len)), off, zeros(len))
            == Seq::<int>::empty(),
{
    lemma_compare_after_write(contents, off, zeros(len));
}

/// Adjacent writes compose: writing `d1` at `off` and then `d2` right after
/// it equals writing `d1 + d2` at `off` in one step.
pub proof fn lemma_write_adjacent(contents: Seq<u8>, off: int, d1: Seq<u8>, d2: Seq<u8>)
    ensures
        spec_write(spec_write(contents, off, d1), off + d1.len(), d2) == spec_write(
            contents,
            off,
            d1 + d2,
        ),
{
    assert(spec_write(spec_write(contents, off, d1), off + d1.len(), d2) =~= spec_write(
        contents,
        off,
        d1 + d2,
    ));
}

} // verus!
