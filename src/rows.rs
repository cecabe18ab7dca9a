//! The mathematical model of rows in a byte sequence.
use vstd::prelude::*;

verus! {

/// Number of occurrences of `sep` in `s`.
pub open spec fn count_sep(s: Seq<u8>, sep: u8) -> nat
    decreases s.len(),
{
    if s.len() == 0 {
        0
    } else {
        count_sep(s.drop_last(), sep) + if s.last() == sep {
            1nat
        } else {
            0nat
        }
    }
}

/// Offset just past the row that starts at `from`: past the next `sep`, or the
/// end of `s` where no `sep` follows.
pub open spec fn row_end(s: Seq<u8>, sep: u8, from: int) -> int
    decreases s.len() - from,
{
    if from >= s.len() {
        s.len() as int
    } else if s[from] == sep {
        from + 1
    } else {
        row_end(s, sep, from + 1)
    }
}

/// Number of rows fully consumed once `p` bytes of `s` are read: each separator
/// ends one row, and at the end of `s` an unterminated last row counts too.
pub open spec fn rows_at(s: Seq<u8>, sep: u8, p: int) -> nat {
    count_sep(s.subrange(0, p), sep) + if p == s.len() && p > 0 && s[p - 1] != sep {
        1nat
    } else {
        0nat
    }
}

/// `p` lies on a row boundary: the start, just after a separator, or the end.
pub open spec fn is_row_boundary(s: Seq<u8>, sep: u8, p: int) -> bool {
    p == 0 || p == s.len() || (0 < p <= s.len() && s[p - 1] == sep)
}

pub proof fn lemma_count_sep_step(s: Seq<u8>, sep: u8, i: int)
    requires
        0 <= i < s.len(),
    ensures
        count_sep(s.subrange(0, i + 1), sep) == count_sep(s.subrange(0, i), sep) + if s[i]
            == sep {
            1nat
        } else {
            0nat
        },
{
    assert(s.subrange(0, i + 1).drop_last() =~= s.subrange(0, i));
}

pub proof fn lemma_count_sep_le_len(s: Seq<u8>, sep: u8)
    ensures
        count_sep(s, sep) <= s.len(),
    decreases s.len(),
{
    if s.len() > 0 {
        lemma_count_sep_le_len(s.drop_last(), sep);
    }
}

/// Counting over a concatenation adds up.
pub proof fn lemma_count_sep_concat(a: Seq<u8>, b: Seq<u8>, sep: u8)
    ensures
        count_sep(a + b, sep) == count_sep(a, sep) + count_sep(b, sep),
    decreases b.len(),
{
    if b.len() > 0 {
        assert((a + b).drop_last() =~= a + b.drop_last());
        lemma_count_sep_concat(a, b.drop_last(), sep);
    } else {
        assert(a + b =~= a);
    }
}

/// The prefix count never decreases as the prefix grows.
pub proof fn lemma_count_prefix_mono(s: Seq<u8>, sep: u8, i: int, j: int)
    requires
        0 <= i <= j <= s.len(),
    ensures
        count_sep(s.subrange(0, i), sep) <= count_sep(s.subrange(0, j), sep),
    decreases j - i,
{
    if i < j {
        lemma_count_sep_step(s, sep, j - 1);
        lemma_count_prefix_mono(s, sep, i, j - 1);
    }
}

pub proof fn lemma_rows_at_mono(s: Seq<u8>, sep: u8, i: int, j: int)
    requires
        0 <= i <= j <= s.len(),
    ensures
        rows_at(s, sep, i) <= rows_at(s, sep, j),
{
    lemma_count_prefix_mono(s, sep, i, j);
    if i == s.len() {
        assert(i == j);
    }
}

/// The rows completed once a forward scan toward byte `p` stops: at `p`
/// itself where `p` is a row boundary or past the end, else once the row that
/// holds `p` is complete.
pub open spec fn scan_rows(s: Seq<u8>, sep: u8, p: int) -> nat {
    let q = if p <= s.len() {
        p
    } else {
        s.len() as int
    };
    rows_at(s, sep, q) + if is_row_boundary(s, sep, q) {
        0nat
    } else {
        1nat
    }
}

/// A row that starts before a row boundary ends at or before it.
pub proof fn lemma_row_end_within(s: Seq<u8>, sep: u8, x: int, p: int)
    requires
        0 <= x < p <= s.len(),
        is_row_boundary(s, sep, p),
    ensures
        row_end(s, sep, x) <= p,
{
    lemma_row_end_facts(s, sep, x);
    if row_end(s, sep, x) > p {
        assert(s[p - 1] != sep);
    }
}

/// Reading the row from `x`, before byte `p`, completes no more rows than a
/// scan toward `p` does.
pub proof fn lemma_scan_rows_bound(s: Seq<u8>, sep: u8, x: int, p: int)
    requires
        0 <= x < p,
        x < s.len(),
    ensures
        rows_at(s, sep, row_end(s, sep, x)) <= scan_rows(s, sep, p),
{
    let q = if p <= s.len() {
        p
    } else {
        s.len() as int
    };
    lemma_row_end_facts(s, sep, x);
    lemma_rows_at_row_end(s, sep, x);
    if is_row_boundary(s, sep, q) {
        lemma_row_end_within(s, sep, x, q);
        lemma_rows_at_mono(s, sep, row_end(s, sep, x), q);
    } else {
        lemma_rows_at_mono(s, sep, x, q);
    }
}

/// A position has completed at most as many rows as it has bytes.
pub proof fn lemma_rows_at_le(s: Seq<u8>, sep: u8, p: int)
    requires
        0 <= p <= s.len(),
    ensures
        rows_at(s, sep, p) <= p,
{
    if p == s.len() && p > 0 && s[p - 1] != sep {
        lemma_count_sep_step(s, sep, p - 1);
        lemma_count_sep_le_len(s.subrange(0, p - 1), sep);
    } else {
        lemma_count_sep_le_len(s.subrange(0, p), sep);
    }
}

/// No separator lies strictly inside a row: bytes from `from` up to the row's
/// last byte are not separators.
pub proof fn lemma_row_end_facts(s: Seq<u8>, sep: u8, from: int)
    requires
        0 <= from <= s.len(),
    ensures
        from <= row_end(s, sep, from) <= s.len(),
        from < s.len() ==> from < row_end(s, sep, from),
        is_row_boundary(s, sep, row_end(s, sep, from)),
        forall|k: int| from <= k < row_end(s, sep, from) - 1 ==> s[k] != sep,
        row_end(s, sep, from) < s.len() ==> s[row_end(s, sep, from) - 1] == sep,
    decreases s.len() - from,
{
    if from < s.len() && s[from] != sep {
        lemma_row_end_facts(s, sep, from + 1);
    }
}

/// Counting is unchanged across bytes that are not separators.
pub proof fn lemma_count_no_sep(s: Seq<u8>, sep: u8, i: int, j: int)
    requires
        0 <= i <= j <= s.len(),
        forall|k: int| i <= k < j ==> s[k] != sep,
    ensures
        count_sep(s.subrange(0, j), sep) == count_sep(s.subrange(0, i), sep),
    decreases j - i,
{
    if i < j {
        lemma_count_sep_step(s, sep, j - 1);
        lemma_count_no_sep(s, sep, i, j - 1);
    }
}

/// Reading one row from `from` completes exactly one more row.
pub proof fn lemma_rows_at_row_end(s: Seq<u8>, sep: u8, from: int)
    requires
        0 <= from < s.len(),
    ensures
        rows_at(s, sep, row_end(s, sep, from)) == rows_at(s, sep, from) + 1,
{
    lemma_row_end_facts(s, sep, from);
    let e = row_end(s, sep, from);
    if s[e - 1] == sep {
        lemma_count_no_sep(s, sep, from, e - 1);
        lemma_count_sep_step(s, sep, e - 1);
    } else {
        lemma_count_no_sep(s, sep, from, e);
    }
}

/// A position strictly inside the row that starts at `from` has completed no
/// more rows than `from` itself.
pub proof fn lemma_rows_at_mid_row(s: Seq<u8>, sep: u8, from: int, p: int)
    requires
        0 <= from <= p < row_end(s, sep, from),
    ensures
        rows_at(s, sep, p) == rows_at(s, sep, from),
{
    lemma_row_end_facts(s, sep, from);
    lemma_count_no_sep(s, sep, from, p);
}

} // verus!
