//! The cursor: byte and row positions over a source, with a sparse row index.
use vstd::prelude::*;
use crate::rows::{
    count_sep, row_end, rows_at, is_row_boundary, lemma_count_sep_step,
    lemma_count_sep_concat, lemma_row_end_facts, lemma_rows_at_row_end, lemma_rows_at_mid_row,
    lemma_rows_at_mono, lemma_rows_at_le, scan_rows, lemma_row_end_within, lemma_scan_rows_bound,
};
use crate::source::RowSource;

verus! {

/// Where a seek is measured from: the start, the current position, or the
/// last position of the stream.
#[derive(Debug, Clone, Copy, PartialEq, Eq)]
pub enum SeekFrom {
    Start(u64),
    Current(i64),
    End(i64),
}

/// Why a seek failed.
#[derive(Debug)]
pub enum CursorError<E> {
    /// The source failed; its error is handed on unchanged.
    Source(E),
    /// The target that the seek asked for lies before the start.
    InvalidSeek,
}

/// The absolute target of a seek from `current`, where `last` is the last
/// position of the stream.
pub open spec fn seek_target(whence: SeekFrom, current: int, last: int) -> int {
    match whence {
        SeekFrom::Start(n) => n as int,
        SeekFrom::Current(n) => current + n,
        SeekFrom::End(n) => last + n,
    }
}

/// Some entry of a sample list has the key `k`.
pub open spec fn has_key(c: Seq<(u64, u64)>, k: u64) -> bool {
    exists|i: int| 0 <= i < c.len() && c[i].0 == k
}

/// Every sample of `a` is still in `b`.
pub open spec fn samples_kept(a: Seq<(u64, u64)>, b: Seq<(u64, u64)>) -> bool {
    forall|e: (u64, u64)| a.contains(e) ==> b.contains(e)
}

/// Every multiple of `g` above row `lo` and up to row `hi` is a sampled row.
pub open spec fn sampled_between(c: Seq<(u64, u64)>, g: u64, lo: int, hi: int) -> bool {
    forall|k: u64| lo < k <= hi && k % g == 0 ==> #[trigger] has_key(c, k)
}

/// Some sample of `c` lies below byte `target` (or is the first one), and
/// every multiple of `g` after its row up to row `hi` is sampled in `d`: a
/// scan toward `target`, which starts at such a sample or a later one, and
/// stops by row `hi`, finds all its rows sampled.
pub open spec fn scan_covered(
    c: Seq<(u64, u64)>,
    d: Seq<(u64, u64)>,
    g: u64,
    target: u64,
    hi: int,
) -> bool {
    exists|e: (u64, u64)|
        #![trigger c.contains(e)]
        c.contains(e) && (e.1 < target || e == (0u64, 0u64)) && sampled_between(
            d,
            g,
            e.0 as int,
            hi,
        )
}

/// A sample that is kept keeps its row sampled.
pub proof fn lemma_has_key_kept(a: Seq<(u64, u64)>, b: Seq<(u64, u64)>, k: u64)
    requires
        samples_kept(a, b),
        has_key(a, k),
    ensures
        has_key(b, k),
{
    let i = choose|i: int| 0 <= i < a.len() && a[i].0 == k;
    assert(a.contains(a[i]));
    assert(b.contains(a[i]));
}

/// Rows sampled in one index stay sampled in an index that keeps its samples.
pub proof fn lemma_sampled_between_kept(
    a: Seq<(u64, u64)>,
    b: Seq<(u64, u64)>,
    g: u64,
    lo: int,
    hi: int,
)
    requires
        samples_kept(a, b),
        sampled_between(a, g, lo, hi),
    ensures
        sampled_between(b, g, lo, hi),
{
    assert forall|k: u64| lo < k <= hi && k % g == 0 implies #[trigger] has_key(b, k) by {
        lemma_has_key_kept(a, b, k);
    }
}

/// One more row read: where it is a multiple of `g`, it is sampled after the
/// read, either already or by the sample that the read recorded.
proof fn lemma_sampled_step(
    cb: Seq<(u64, u64)>,
    ca: Seq<(u64, u64)>,
    g: u64,
    lo: int,
    r1: u64,
    p1: u64,
)
    requires
        r1 >= 1,
        samples_kept(cb, ca),
        sampled_between(cb, g, lo, r1 - 1),
        if r1 % g == 0 && !has_key(cb, r1) {
            ca.contains((r1, p1))
        } else {
            ca == cb
        },
    ensures
        sampled_between(ca, g, lo, r1 as int),
{
    lemma_sampled_between_kept(cb, ca, g, lo, r1 - 1);
    if r1 % g == 0 {
        if has_key(cb, r1) {
            lemma_has_key_kept(cb, ca, r1);
        } else {
            let i = choose|i: int| 0 <= i < ca.len() && ca[i] == (r1, p1);
            assert(ca[i].0 == r1);
        }
    }
}

/// Repeating a byte seek adds no sample: the coverage that a first
/// `set_position(target)` leaves (from the index `a` it started with to the
/// index `b` it ended with) is what a second call with the same target, on
/// `b`, needs to leave the index unchanged.
pub proof fn lemma_repeat_scan_covered(
    a: Seq<(u64, u64)>,
    b: Seq<(u64, u64)>,
    g: u64,
    target: u64,
    hi: int,
)
    requires
        samples_kept(a, b),
        scan_covered(a, b, g, target, hi),
    ensures
        scan_covered(b, b, g, target, hi),
{
    let e = choose|e: (u64, u64)|
        #![trigger a.contains(e)]
        a.contains(e) && (e.1 < target || e == (0u64, 0u64)) && sampled_between(
            b,
            g,
            e.0 as int,
            hi,
        );
    assert(b.contains(e));
}

/// Losing no sample is transitive: what two operations in turn each keep,
/// the pair keeps, so no sequence of operations loses a sample.
pub proof fn lemma_samples_kept_trans(
    a: Seq<(u64, u64)>,
    b: Seq<(u64, u64)>,
    c: Seq<(u64, u64)>,
)
    requires
        samples_kept(a, b),
        samples_kept(b, c),
    ensures
        samples_kept(a, c),
{
}

/// A cursor over the rows of a source.
///
/// It tracks the byte position and the number of rows completed so far, and
/// records every `granularity`-th row's end offset in a sparse index that
/// always starts with `(0, 0)`. The length of the stream and its number of
/// rows are fixed once the end of the stream has been seen.
pub struct CachedRowCursor<S> {
    inner: S,
    pos: u64,
    row_pos: u64,
    length: Option<u64>,
    row_length: Option<u64>,
    separator: u8,
    granularity: u64,
    cached_index: Vec<(u64, u64)>,
}

impl<S: RowSource> CachedRowCursor<S> {
    pub closed spec fn source(&self) -> S {
        self.inner
    }

    /// The bytes of the whole stream.
    pub open spec fn content(&self) -> Seq<u8> {
        self.source().content()
    }

    pub closed spec fn byte_pos(&self) -> nat {
        self.pos as nat
    }

    pub closed spec fn rows(&self) -> nat {
        self.row_pos as nat
    }

    pub closed spec fn known_length(&self) -> Option<u64> {
        self.length
    }

    pub closed spec fn known_rows(&self) -> Option<u64> {
        self.row_length
    }

    pub closed spec fn sep(&self) -> u8 {
        self.separator
    }

    pub closed spec fn gran(&self) -> u64 {
        self.granularity
    }

    /// The sample index, as (row, byte offset) pairs in increasing row order.
    pub closed spec fn samples(&self) -> Seq<(u64, u64)> {
        self.cached_index@
    }

    pub closed spec fn wf(&self) -> bool {
        let c = self.cached_index@;
        &&& self.inner.offset() == self.pos
        &&& self.pos <= self.inner.content().len() <= u64::MAX
        &&& self.row_pos <= self.pos
        &&& self.granularity > 0
        &&& c.len() >= 1
        &&& c[0] == (0u64, 0u64)
        &&& forall|i: int, j: int| 0 <= i < j < c.len() ==> c[i].0 < c[j].0
        &&& forall|i: int| 0 <= i < c.len() ==> #[trigger] c[i].0 <= c[i].1 <= self.inner.content().len()
        &&& (self.length is Some ==> self.length->0 == self.inner.content().len())
        &&& (self.length is Some ==> self.row_length is Some)
        &&& (self.row_length is Some ==> self.length is Some)
    }

    /// The row counters and the sample index agree with the stream under the
    /// current separator.
    pub closed spec fn synced(&self) -> bool {
        let s = self.inner.content();
        let sep = self.separator;
        let c = self.cached_index@;
        &&& self.row_pos == rows_at(s, sep, self.pos as int)
        &&& forall|i: int|
            0 <= i < c.len() ==> is_row_boundary(s, sep, #[trigger] c[i].1 as int) && rows_at(
                s,
                sep,
                c[i].1 as int,
            ) == c[i].0
        &&& (self.row_length is Some ==> self.row_length->0 == rows_at(s, sep, s.len() as int))
    }

    /// Every sampled row is a multiple of the granularity.
    pub closed spec fn keys_aligned(&self) -> bool {
        forall|i: int|
            0 <= i < self.cached_index@.len() ==> #[trigger] self.cached_index@[i].0
                % self.granularity == 0
    }

    /// What well-formedness guarantees: the source stands at the byte
    /// position, which lies within the stream; the sample index starts with
    /// `(0, 0)`, its rows strictly increase and none lies past its offset; the
    /// totals are known together, and the known length is the stream's; and
    /// aligned keys are multiples of the granularity.
    pub proof fn lemma_wf_facts(&self)
        requires
            self.wf(),
        ensures
            self.source().offset() == self.byte_pos(),
            self.byte_pos() <= self.content().len() <= u64::MAX,
            self.rows() <= self.byte_pos(),
            self.gran() > 0,
            self.samples().len() >= 1,
            self.samples()[0] == (0u64, 0u64),
            forall|i: int, j: int|
                0 <= i < j < self.samples().len() ==> #[trigger] self.samples()[i].0
                    < #[trigger] self.samples()[j].0,
            forall|i: int|
                0 <= i < self.samples().len() ==> #[trigger] self.samples()[i].0
                    <= self.samples()[i].1 <= self.content().len(),
            self.known_length() is Some ==> self.known_length()->0 == self.content().len(),
            self.known_length() is Some <==> self.known_rows() is Some,
            self.keys_aligned() <==> forall|i: int|
                0 <= i < self.samples().len() ==> #[trigger] self.samples()[i].0 % self.gran()
                    == 0,
    {
    }

    /// What being synced guarantees: the row position is the number of rows
    /// completed at the byte position, every sample lies on a row boundary
    /// and records the rows completed there, and the known row total is the
    /// stream's.
    pub proof fn lemma_synced_facts(&self)
        requires
            self.synced(),
        ensures
            self.rows() == rows_at(self.content(), self.sep(), self.byte_pos() as int),
            forall|i: int|
                0 <= i < self.samples().len() ==> is_row_boundary(
                    self.content(),
                    self.sep(),
                    #[trigger] self.samples()[i].1 as int,
                ) && rows_at(self.content(), self.sep(), self.samples()[i].1 as int)
                    == self.samples()[i].0,
            self.known_rows() is Some ==> self.known_rows()->0 == rows_at(
                self.content(),
                self.sep(),
                self.content().len() as int,
            ),
    {
    }

    /// All that an operation keeps of the cursor besides its positions.
    pub open spec fn keeps_config(&self, other: &Self) -> bool {
        &&& other.wf()
        &&& other.content() == self.content()
        &&& other.sep() == self.sep()
        &&& other.gran() == self.gran()
        &&& other.source().never_fails() == self.source().never_fails()
        &&& (self.keys_aligned() ==> other.keys_aligned())
        &&& samples_kept(self.samples(), other.samples())
        &&& (self.known_length() is Some ==> other.known_length() == self.known_length())
        &&& (self.known_rows() is Some ==> other.known_rows() == self.known_rows())
    }

    /// As `keeps_config`, and a synced cursor stays synced.
    pub open spec fn same_setup(&self, other: &Self) -> bool {
        &&& self.keeps_config(other)
        &&& (self.synced() ==> other.synced())
    }

    /// A cursor at the start of `reader`, with the given separator and
    /// sampling interval; byte positions are `reader`'s own offsets, so it is
    /// handed over at offset 0.
    pub fn new(reader: S, separator: u8, granularity: u64) -> (r: Self)
        requires
            granularity > 0,
            reader.offset() == 0,
            reader.content().len() <= u64::MAX,
        ensures
            r.wf(),
            r.synced(),
            r.keys_aligned(),
            r.source() == reader,
            r.content() == reader.content(),
            r.byte_pos() == 0,
            r.rows() == 0,
            r.known_length() is None,
            r.known_rows() is None,
            r.sep() == separator,
            r.gran() == granularity,
            r.samples() == seq![(0u64, 0u64)],
    {
        let r = CachedRowCursor {
            inner: reader,
            pos: 0,
            row_pos: 0,
            length: None,
            row_length: None,
            separator,
            granularity,
            cached_index: vec![(0u64, 0u64)],
        };
        assert(r.inner.content().subrange(0, 0) =~= Seq::<u8>::empty());
        assert(r.cached_index@ =~= seq![(0u64, 0u64)]);
        assert(0u64 % granularity == 0) by (nonlinear_arith)
            requires
                granularity > 0,
        ;
        r
    }

    /// The current byte position.
    pub fn position(&self) -> (r: u64)
        ensures
            r == self.byte_pos(),
    {
        self.pos
    }

    /// The number of rows completed so far.
    pub fn row_position(&self) -> (r: u64)
        ensures
            r == self.rows(),
    {
        self.row_pos
    }

    /// Records the current position as the sample of the current row, where
    /// that row is a multiple of the granularity and has no sample yet.
    fn record_sample(&mut self)
        requires
            old(self).wf(),
            old(self).row_pos > 0,
        ensures
            final(self).wf(),
            final(self).inner == old(self).inner,
            final(self).pos == old(self).pos,
            final(self).row_pos == old(self).row_pos,
            final(self).length == old(self).length,
            final(self).row_length == old(self).row_length,
            final(self).separator == old(self).separator,
            final(self).granularity == old(self).granularity,
            samples_kept(old(self).samples(), final(self).samples()),
            old(self).keys_aligned() ==> final(self).keys_aligned(),
            (old(self).synced() && is_row_boundary(old(self).content(), old(self).separator, old(self).pos as int))
                ==> final(self).synced(),
            if old(self).row_pos % old(self).granularity == 0 && !has_key(
                old(self).samples(),
                old(self).row_pos,
            ) {
                &&& final(self).samples().len() == old(self).samples().len() + 1
                &&& final(self).samples().contains((old(self).row_pos, old(self).pos))
            } else {
                final(self).samples() == old(self).samples()
            },
    {
        let key = self.row_pos;
        if key % self.granularity != 0 {
            return;
        }
        let ghost c = self.cached_index@;
        let len = self.cached_index.len();
        let mut i: usize = 0;
        while i < len && self.cached_index[i].0 < key
            invariant
                0 <= i <= len,
                len == c.len(),
                self.cached_index@ == c,
                forall|j: int| 0 <= j < i ==> c[j].0 < key,
            decreases len - i,
        {
            i = i + 1;
        }
        if i < len && self.cached_index[i].0 == key {
            return;
        }
        assert(!has_key(c, key)) by {
            assert forall|j: int| 0 <= j < c.len() implies c[j].0 != key by {
                if j > i {
                    assert(c[i as int].0 < c[j].0);
                }
            }
        }
        let entry = (key, self.pos);
        self.cached_index.insert(i, entry);
        proof {
            c.insert_ensures(i as int, entry);
            let n = self.cached_index@;
            assert(n[i as int] == entry);
            assert forall|e: (u64, u64)| c.contains(e) implies n.contains(e) by {
                let j = choose|j: int| 0 <= j < c.len() && c[j] == e;
                if j < i {
                    assert(n[j] == e);
                } else {
                    assert(n[j + 1] == e);
                }
            }
            assert forall|a: int, b: int| 0 <= a < b < n.len() implies n[a].0 < n[b].0 by {
                if b < i {
                } else if b == i {
                } else if a < i {
                    if i < len {
                        assert(c[i as int].0 > key);
                    }
                } else if a == i {
                    assert(c[i as int].0 > key);
                    assert(n[b] == c[b - 1]);
                } else {
                    assert(n[a] == c[a - 1]);
                    assert(n[b] == c[b - 1]);
                }
            }
            assert forall|j: int| 0 <= j < n.len() implies #[trigger] n[j].0 % self.granularity == 0
                || !old(self).keys_aligned() by {
                if j > i {
                    assert(n[j] == c[j - 1]);
                }
            }
            assert(n[0] == (0u64, 0u64));
        }
    }
    /// Reads the rest of the current row, up to and including the next
    /// separator or to the end of the stream, appending it to `buf`; returns
    /// how many bytes that was, 0 at the end of the stream.
    pub fn read_row(&mut self, buf: &mut Vec<u8>) -> (r: Result<usize, S::Error>)
        requires
            old(self).wf(),
        ensures
            old(self).same_setup(final(self)),
            old(self).source().never_fails() ==> r is Ok,
            match r {
                Ok(n) => {
                    let s = old(self).content();
                    let p = old(self).byte_pos();
                    &&& n == row_end(s, old(self).sep(), p as int) - p
                    &&& final(self).byte_pos() == p + n
                    &&& final(self).rows() == old(self).rows() + if n > 0 {
                        1nat
                    } else {
                        0nat
                    }
                    &&& final(buf)@ == old(buf)@ + s.subrange(p as int, p + n)
                    &&& (n == 0 ==> {
                        &&& final(self).known_length() == Some(p as u64)
                        &&& final(self).known_rows() == if old(self).known_rows() is Some {
                            old(self).known_rows()
                        } else {
                            Some(old(self).rows() as u64)
                        }
                    })
                    &&& (n > 0 ==> {
                        &&& final(self).known_length() == old(self).known_length()
                        &&& final(self).known_rows() == old(self).known_rows()
                    })
                    &&& if n > 0 && final(self).rows() % (old(self).gran() as nat) == 0 && !has_key(
                        old(self).samples(),
                        final(self).rows() as u64,
                    ) {
                        &&& final(self).samples().len() == old(self).samples().len() + 1
                        &&& final(self).samples().contains(
                            (final(self).rows() as u64, final(self).byte_pos() as u64),
                        )
                    } else {
                        final(self).samples() == old(self).samples()
                    }
                },
                Err(_) => {
                    &&& final(self).byte_pos() == old(self).byte_pos()
                    &&& final(self).rows() == old(self).rows()
                    &&& final(self).samples() == old(self).samples()
                    &&& final(self).known_length() == old(self).known_length()
                    &&& final(self).known_rows() == old(self).known_rows()
                },
            },
    {
        let ghost s = self.inner.content();
        let ghost sep = self.separator;
        let ghost was_synced = self.synced();
        let n = match self.inner.read_until(self.separator, buf) {
            Ok(n) => n,
            Err(e) => return Err(e),
        };
        proof {
            lemma_row_end_facts(s, sep, self.pos as int);
        }
        if n != 0 {
            self.pos = self.pos + n as u64;
            self.row_pos = self.row_pos + 1;
            proof {
                if was_synced {
                    lemma_rows_at_row_end(s, sep, old(self).pos as int);
                }
            }
            self.record_sample();
        } else {
            if self.row_length.is_none() {
                self.row_length = Some(self.row_pos);
            }
            self.length = Some(self.pos);
        }
        Ok(n)
    }
    /// Moves to byte `target`, or to the end of the stream where that comes
    /// first; returns the new byte position.
    ///
    /// The scan starts from the sample with the greatest offset below
    /// `target`. A target inside a row leaves that row uncounted.
    pub fn set_position(&mut self, target: u64) -> (r: Result<u64, S::Error>)
        requires
            old(self).wf(),
        ensures
            old(self).same_setup(final(self)),
            old(self).source().never_fails() ==> r is Ok,
            r is Ok ==> {
                let s = old(self).content();
                let v = r->Ok_0;
                &&& v == if target <= s.len() {
                    target as int
                } else {
                    s.len() as int
                }
                &&& final(self).byte_pos() == v
                &&& (old(self).synced() ==> final(self).rows() == rows_at(
                    s,
                    old(self).sep(),
                    v as int,
                ))
                &&& (target > s.len() ==> {
                    &&& final(self).known_length() == Some(s.len() as u64)
                    &&& final(self).known_rows() is Some
                    &&& (old(self).synced() ==> final(self).known_rows()->0 == rows_at(
                        s,
                        old(self).sep(),
                        s.len() as int,
                    ))
                })
                &&& (old(self).synced() ==> scan_covered(
                    old(self).samples(),
                    final(self).samples(),
                    old(self).gran(),
                    target,
                    scan_rows(s, old(self).sep(), target as int) as int,
                ))
            },
            // A scan over rows that are all sampled already adds no sample.
            (old(self).synced() && scan_covered(
                old(self).samples(),
                old(self).samples(),
                old(self).gran(),
                target,
                scan_rows(old(self).content(), old(self).sep(), target as int) as int,
            )) ==> final(self).samples() == old(self).samples(),
    {
        let ghost s = self.inner.content();
        let ghost sep = self.separator;
        let ghost g = self.granularity;
        let ghost c0 = self.cached_index@;
        let ghost m = scan_rows(s, sep, target as int) as int;
        let ghost synced0 = old(self).synced();
        let len = self.cached_index.len();
        let mut idx: usize = 0;
        while idx + 1 < len && self.cached_index[idx + 1].1 < target
            invariant
                0 <= idx < len,
                len == self.cached_index@.len(),
                self.cached_index@ == c0,
                forall|j: int| 1 <= j <= idx ==> #[trigger] c0[j].1 < target,
            decreases len - idx,
        {
            idx = idx + 1;
        }
        let (cached_row, cached_byte) = self.cached_index[idx];
        // Under sync, the chosen sample has the greatest row of those below
        // `target`, so coverage from any of them carries over to it.
        let ghost covered = scan_covered(c0, c0, g, target, m);
        proof {
            if synced0 && covered {
                let e = choose|e: (u64, u64)|
                    #![trigger c0.contains(e)]
                    c0.contains(e) && (e.1 < target || e == (0u64, 0u64)) && sampled_between(
                        c0,
                        g,
                        e.0 as int,
                        m,
                    );
                let j = choose|j: int| 0 <= j < c0.len() && c0[j] == e;
                if j > idx {
                    if e != (0u64, 0u64) {
                        let i1 = idx as int + 1;
                        if c0[j].1 <= c0[i1].1 {
                            lemma_rows_at_mono(s, sep, c0[j].1 as int, c0[i1].1 as int);
                            assert(c0[i1].0 < c0[j].0);
                        }
                    } else {
                        assert(c0[0].0 < c0[j].0);
                    }
                }
                assert(e.0 <= cached_row);
                assert(sampled_between(c0, g, cached_row as int, m));
            }
        }
        proof {
            assert(c0[idx as int] == (cached_row, cached_byte));
            assert(c0.contains((cached_row, cached_byte)));
            if synced0 {
                let q = if target <= s.len() {
                    target as int
                } else {
                    s.len() as int
                };
                lemma_rows_at_mono(s, sep, cached_byte as int, q);
            }
        }
        match self.inner.seek_to(cached_byte) {
            Ok(()) => {},
            Err(e) => return Err(e),
        }
        self.pos = cached_byte;
        self.row_pos = cached_row;
        let mut buf: Vec<u8> = Vec::new();
        let mut at_end = false;
        let ghost mut last_start: int = 0;
        while self.pos < target && !at_end
            invariant
                old(self).same_setup(self),
                s == self.content(),
                sep == self.separator,
                g == self.granularity,
                m == scan_rows(s, sep, target as int) as int,
                synced0 == old(self).synced(),
                covered == scan_covered(c0, c0, g, target, m),
                c0 == old(self).cached_index@,
                c0.contains((cached_row, cached_byte)),
                cached_byte < target || (cached_row, cached_byte) == (0u64, 0u64),
                at_end ==> self.pos == s.len() && self.length is Some,
                self.pos > target ==> {
                    &&& last_start < target
                    &&& self.pos == row_end(s, sep, last_start)
                    &&& self.row_pos >= 1
                    &&& self.row_pos - 1 <= last_start
                    &&& (synced0 ==> self.row_pos == rows_at(s, sep, last_start) + 1)
                },
                synced0 ==> {
                    &&& is_row_boundary(s, sep, self.pos as int)
                    &&& cached_row <= self.row_pos <= m
                    &&& sampled_between(self.cached_index@, g, cached_row as int, self.row_pos as int)
                    &&& (covered ==> self.cached_index@ == c0)
                    &&& (covered ==> sampled_between(c0, g, cached_row as int, m))
                },
            decreases s.len() - self.pos + if at_end {
                0int
            } else {
                1int
            },
        {
            let ghost before = self.pos as int;
            let ghost before_rows = self.row_pos as int;
            let ghost c_before = self.cached_index@;
            assert(synced0 ==> self.synced());
            let n = match self.read_row(&mut buf) {
                Ok(n) => n,
                Err(e) => return Err(e),
            };
            if n == 0 {
                at_end = true;
            }
            proof {
                last_start = before;
                lemma_row_end_facts(s, sep, before);
                if synced0 && n > 0 {
                    lemma_rows_at_row_end(s, sep, before);
                    lemma_scan_rows_bound(s, sep, before, target as int);
                    lemma_sampled_step(
                        c_before,
                        self.cached_index@,
                        g,
                        cached_row as int,
                        self.row_pos,
                        self.pos,
                    );
                    if covered && self.row_pos % g == 0 {
                        assert(has_key(c0, self.row_pos));
                    }
                }
            }
        }
        proof {
            if synced0 {
                if self.pos > target {
                    if is_row_boundary(s, sep, target as int) {
                        lemma_row_end_within(s, sep, last_start, target as int);
                    }
                    lemma_rows_at_mid_row(s, sep, last_start, target as int);
                }
                assert(self.row_pos == m);
            }
        }
        if self.pos > target {
            match self.inner.seek_to(target) {
                Ok(()) => {},
                Err(e) => return Err(e),
            }
            self.pos = target;
            self.row_pos = self.row_pos - 1;
        }
        Ok(self.pos)
    }

    /// Moves to the start of row `target`, or to the end of the stream where
    /// that comes first; returns the new row position.
    ///
    /// The scan starts from the sample with the greatest row not above
    /// `target`.
    pub fn set_row_position(&mut self, target: u64) -> (r: Result<u64, S::Error>)
        requires
            old(self).wf(),
        ensures
            old(self).same_setup(final(self)),
            old(self).source().never_fails() ==> r is Ok,
            r is Ok ==> {
                let s = old(self).content();
                let sep = old(self).sep();
                let v = r->Ok_0;
                let total = rows_at(s, sep, s.len() as int);
                &&& v == final(self).rows()
                &&& v <= target
                &&& (old(self).synced() ==> {
                    &&& v == if target <= total {
                        target as int
                    } else {
                        total as int
                    }
                    &&& is_row_boundary(s, sep, final(self).byte_pos() as int)
                    &&& final(self).rows() == rows_at(s, sep, final(self).byte_pos() as int)
                })
                &&& (v < target ==> {
                    &&& final(self).known_length() == Some(s.len() as u64)
                    &&& final(self).known_rows() is Some
                    &&& (old(self).synced() ==> final(self).known_rows()->0 == total)
                })
            },
    {
        let ghost s = self.inner.content();
        let ghost sep = self.separator;
        let len = self.cached_index.len();
        let mut idx: usize = 0;
        while idx + 1 < len && self.cached_index[idx + 1].0 <= target
            invariant
                0 <= idx < len,
                len == self.cached_index@.len(),
                self.cached_index@[0] == (0u64, 0u64),
                self.cached_index@[idx as int].0 <= target,
            decreases len - idx,
        {
            idx = idx + 1;
        }
        let (cached_row, cached_byte) = self.cached_index[idx];
        match self.inner.seek_to(cached_byte) {
            Ok(()) => {},
            Err(e) => return Err(e),
        }
        self.pos = cached_byte;
        self.row_pos = cached_row;
        let mut buf: Vec<u8> = Vec::new();
        let mut at_end = false;
        while self.row_pos < target && !at_end
            invariant
                old(self).same_setup(self),
                s == self.content(),
                sep == self.separator,
                self.row_pos <= target,
                at_end ==> self.pos == s.len() && self.length is Some,
                old(self).synced() ==> is_row_boundary(s, sep, self.pos as int),
            decreases s.len() - self.pos + if at_end {
                0int
            } else {
                1int
            },
        {
            let ghost before = self.pos as int;
            let n = match self.read_row(&mut buf) {
                Ok(n) => n,
                Err(e) => return Err(e),
            };
            if n == 0 {
                at_end = true;
            }
            proof {
                lemma_row_end_facts(s, sep, before);
            }
        }
        proof {
            if old(self).synced() {
                lemma_rows_at_mono(s, sep, self.pos as int, s.len() as int);
            }
        }
        Ok(self.row_pos)
    }

    /// Reads rows until the end of the stream has been seen once.
    fn scan_to_end(&mut self) -> (r: Result<(), S::Error>)
        requires
            old(self).wf(),
        ensures
            old(self).same_setup(final(self)),
            old(self).source().never_fails() ==> r is Ok,
            r is Ok ==> final(self).known_length() is Some && final(self).known_rows() is Some,
            old(self).known_length() is Some ==> r is Ok && *final(self) == *old(self),
    {
        let mut buf: Vec<u8> = Vec::new();
        while self.length.is_none()
            invariant
                old(self).same_setup(self),
                old(self).known_length() is Some ==> *self == *old(self),
                self.length is Some ==> self.row_length is Some,
                old(self).source().never_fails() == self.inner.never_fails(),
            decreases self.content().len() - self.pos + if self.length is None {
                1int
            } else {
                0int
            },
        {
            match self.read_row(&mut buf) {
                Ok(_) => {},
                Err(e) => return Err(e),
            }
        }
        Ok(())
    }

    /// Moves to the byte that `whence` names, clamped to the end of the
    /// stream; returns the new byte position. A target before the start is an
    /// invalid seek, and nothing moves. `End(n)` counts from the last byte, and
    /// first scans to the end of the stream if its length is not yet known.
    pub fn seek(&mut self, whence: SeekFrom) -> (r: Result<u64, CursorError<S::Error>>)
        requires
            old(self).wf(),
        ensures
            old(self).same_setup(final(self)),
            ({
                let s = old(self).content();
                let t = seek_target(whence, old(self).byte_pos() as int, s.len() - 1);
                &&& match r {
                    Ok(v) => {
                        &&& t >= 0
                        &&& v == if t <= s.len() {
                            t
                        } else {
                            s.len() as int
                        }
                        &&& final(self).byte_pos() == v
                        &&& (old(self).synced() ==> final(self).rows() == rows_at(
                            s,
                            old(self).sep(),
                            v as int,
                        ))
                        &&& (s.len() < t <= u64::MAX ==> final(self).known_length() == Some(
                            s.len() as u64,
                        ))
                    },
                    Err(CursorError::InvalidSeek) => t < 0,
                    Err(CursorError::Source(_)) => true,
                }
                &&& (old(self).source().never_fails() ==> (r is Ok <==> t >= 0))
                &&& (old(self).source().never_fails() ==> !(r matches Err(CursorError::Source(_))))
                &&& (whence is End && !(r matches Err(CursorError::Source(_))) ==> {
                    &&& final(self).known_length() == Some(s.len() as u64)
                    &&& final(self).known_rows() is Some
                })
                &&& (t < 0 && (!(whence is End) || old(self).known_length() is Some) ==> {
                    &&& r matches Err(CursorError::InvalidSeek)
                    &&& *final(self) == *old(self)
                })
            }),
    {
        let t: i128 = match whence {
            SeekFrom::Start(n) => n as i128,
            SeekFrom::Current(n) => self.pos as i128 + n as i128,
            SeekFrom::End(n) => {
                match self.scan_to_end() {
                    Ok(()) => {},
                    Err(e) => return Err(CursorError::Source(e)),
                }
                let total: u64 = match self.length {
                    Some(l) => l,
                    None => 0,
                };
                total as i128 - 1 + n as i128
            },
        };
        if t < 0 {
            return Err(CursorError::InvalidSeek);
        }
        let target: u64 = if t > u64::MAX as i128 {
            u64::MAX
        } else {
            t as u64
        };
        match self.set_position(target) {
            Ok(v) => Ok(v),
            Err(e) => Err(CursorError::Source(e)),
        }
    }

    /// Moves to the start of the row that `whence` names, clamped to the end
    /// of the stream; returns the new row position. A target before the first
    /// row is an invalid seek, and nothing moves. `End(n)` counts from the last
    /// row, and first scans to the end of the stream if the number of rows is
    /// not yet known.
    pub fn seek_row(&mut self, whence: SeekFrom) -> (r: Result<u64, CursorError<S::Error>>)
        requires
            old(self).wf(),
        ensures
            old(self).same_setup(final(self)),
            ({
                let s = old(self).content();
                let sep = old(self).sep();
                let total = rows_at(s, sep, s.len() as int);
                let last = if final(self).known_rows() is Some {
                    final(self).known_rows()->0 - 1
                } else {
                    -1
                };
                let t = seek_target(whence, old(self).rows() as int, last);
                &&& (whence is End && !(r matches Err(CursorError::Source(_))) ==> {
                    &&& final(self).known_length() == Some(s.len() as u64)
                    &&& final(self).known_rows() is Some
                })
                &&& (old(self).synced() && final(self).known_rows() is Some
                    ==> final(self).known_rows()->0 == total)
                &&& match r {
                    Ok(v) => {
                        &&& t >= 0
                        &&& v == final(self).rows()
                        &&& v <= t
                        &&& (old(self).synced() ==> {
                            &&& v == if t <= total {
                                t
                            } else {
                                total as int
                            }
                            &&& is_row_boundary(s, sep, final(self).byte_pos() as int)
                            &&& final(self).rows() == rows_at(
                                s,
                                sep,
                                final(self).byte_pos() as int,
                            )
                        })
                        &&& (v < t <= u64::MAX ==> {
                            &&& final(self).known_length() == Some(s.len() as u64)
                            &&& final(self).known_rows() is Some
                        })
                    },
                    Err(CursorError::InvalidSeek) => t < 0,
                    Err(CursorError::Source(_)) => true,
                }
                &&& (old(self).source().never_fails() ==> (r is Ok <==> t >= 0))
                &&& (old(self).source().never_fails() ==> !(r matches Err(CursorError::Source(_))))
                &&& (t < 0 && (!(whence is End) || old(self).known_rows() is Some) ==> {
                    &&& r matches Err(CursorError::InvalidSeek)
                    &&& *final(self) == *old(self)
                })
            }),
    {
        let t: i128 = match whence {
            SeekFrom::Start(n) => n as i128,
            SeekFrom::Current(n) => self.row_pos as i128 + n as i128,
            SeekFrom::End(n) => {
                match self.scan_to_end() {
                    Ok(()) => {},
                    Err(e) => return Err(CursorError::Source(e)),
                }
                let total: u64 = match self.row_length {
                    Some(l) => l,
                    None => 0,
                };
                total as i128 - 1 + n as i128
            },
        };
        if t < 0 {
            return Err(CursorError::InvalidSeek);
        }
        let target: u64 = if t > u64::MAX as i128 {
            u64::MAX
        } else {
            t as u64
        };
        proof {
            let s = self.content();
            lemma_rows_at_le(s, self.separator, s.len() as int);
        }
        match self.set_row_position(target) {
            Ok(v) => Ok(v),
            Err(e) => Err(CursorError::Source(e)),
        }
    }
    /// Reads at most `buf.len()` bytes into the front of `buf`, as the source
    /// does; returns how many it read. Every separator among them counts as
    /// one more row; a row that the read only began is not counted.
    pub fn read(&mut self, buf: &mut [u8]) -> (r: Result<usize, S::Error>)
        requires
            old(self).wf(),
        ensures
            old(self).keeps_config(final(self)),
            final(self).samples() == old(self).samples(),
            final(self).known_length() == old(self).known_length(),
            final(self).known_rows() == old(self).known_rows(),
            old(self).source().never_fails() ==> r is Ok,
            final(buf)@.len() == old(buf)@.len(),
            match r {
                Ok(n) => {
                    let s = old(self).content();
                    let p = old(self).byte_pos();
                    &&& n <= old(buf)@.len()
                    &&& (n == 0 ==> old(buf)@.len() == 0 || p == s.len())
                    &&& final(buf)@.subrange(0, n as int) == s.subrange(p as int, p + n)
                    &&& final(self).byte_pos() == p + n
                    &&& final(self).rows() == old(self).rows() + count_sep(
                        s.subrange(p as int, p + n),
                        old(self).sep(),
                    )
                    &&& (old(self).synced() && (n == 0 || p + n < s.len() || s[p + n - 1]
                        == old(self).sep()) ==> final(self).synced())
                },
                Err(_) => {
                    &&& final(self).byte_pos() == old(self).byte_pos()
                    &&& final(self).rows() == old(self).rows()
                },
            },
    {
        let ghost s = self.inner.content();
        let ghost p = self.pos as int;
        let sep = self.separator;
        let n = match self.inner.read(buf) {
            Ok(n) => n,
            Err(e) => return Err(e),
        };
        let mut count: u64 = 0;
        let mut i: usize = 0;
        while i < n
            invariant
                n <= buf@.len(),
                i <= n,
                buf@.subrange(0, n as int) == s.subrange(p, p + n),
                count == count_sep(buf@.subrange(0, i as int), sep),
                count <= i,
            decreases n - i,
        {
            proof {
                lemma_count_sep_step(buf@, sep, i as int);
            }
            if buf[i] == sep {
                count = count + 1;
            }
            i = i + 1;
        }
        proof {
            assert(buf@.subrange(0, n as int) == s.subrange(p, p + n));
            assert(s.subrange(0, p + n) =~= s.subrange(0, p) + s.subrange(p, p + n));
            lemma_count_sep_concat(s.subrange(0, p), s.subrange(p, p + n), sep);
            if n > 0 && p + n == s.len() {
                assert(s.subrange(p, p + n)[n - 1] == s[p + n - 1]);
            }
        }
        self.pos = self.pos + n as u64;
        self.row_pos = self.row_pos + count;
        Ok(n)
    }

    /// The bytes that the source holds buffered after the current position;
    /// empty only at the end of the stream. Nothing moves.
    pub fn fill_buf(&mut self) -> (r: Result<&[u8], S::Error>)
        requires
            old(self).wf(),
        ensures
            old(self).same_setup(final(self)),
            final(self).samples() == old(self).samples(),
            final(self).known_length() == old(self).known_length(),
            final(self).known_rows() == old(self).known_rows(),
            final(self).byte_pos() == old(self).byte_pos(),
            final(self).rows() == old(self).rows(),
            old(self).source().never_fails() ==> r is Ok,
            r is Ok ==> {
                let b = r->Ok_0@;
                let s = old(self).content();
                let p = old(self).byte_pos();
                &&& p + b.len() <= s.len()
                &&& b == s.subrange(p as int, p + b.len() as int)
                &&& (b.len() == 0 <==> p == s.len())
            },
    {
        self.inner.fill_buf()
    }

    /// Marks `amt` bytes of the source's buffer as read, advancing the byte
    /// position; the row position stays as it is.
    pub fn consume(&mut self, amt: usize)
        requires
            old(self).wf(),
            old(self).byte_pos() + amt <= old(self).content().len(),
        ensures
            old(self).keeps_config(final(self)),
            final(self).samples() == old(self).samples(),
            final(self).known_length() == old(self).known_length(),
            final(self).known_rows() == old(self).known_rows(),
            final(self).byte_pos() == old(self).byte_pos() + amt,
            final(self).rows() == old(self).rows(),
    {
        self.inner.consume(amt);
        self.pos = self.pos + amt as u64;
    }

    /// Reads up to and including the next `byte`, or to the end of the
    /// stream, appending it to `buf`; returns how many bytes that was. With the
    /// separator as `byte` this is `read_row`; otherwise every separator read
    /// counts as one more row.
    pub fn read_until(&mut self, byte: u8, buf: &mut Vec<u8>) -> (r: Result<usize, S::Error>)
        requires
            old(self).wf(),
        ensures
            old(self).keeps_config(final(self)),
            byte == old(self).sep() ==> old(self).same_setup(final(self)),
            byte != old(self).sep() ==> final(self).samples() == old(self).samples(),
            old(self).source().never_fails() ==> r is Ok,
            match r {
                Ok(n) => {
                    let s = old(self).content();
                    let p = old(self).byte_pos();
                    &&& n == row_end(s, byte, p as int) - p
                    &&& final(self).byte_pos() == p + n
                    &&& final(buf)@ == old(buf)@ + s.subrange(p as int, p + n)
                    &&& final(self).rows() == old(self).rows() + if byte == old(self).sep() {
                        if n > 0 {
                            1nat
                        } else {
                            0nat
                        }
                    } else {
                        count_sep(s.subrange(p as int, p + n), old(self).sep())
                    }
                },
                Err(_) => {
                    &&& final(self).byte_pos() == old(self).byte_pos()
                    &&& final(self).rows() == old(self).rows()
                },
            },
    {
        if byte == self.separator {
            return self.read_row(buf);
        }
        let ghost s = self.inner.content();
        let ghost p = self.pos as int;
        let sep = self.separator;
        let start = buf.len();
        let n = match self.inner.read_until(byte, buf) {
            Ok(n) => n,
            Err(e) => return Err(e),
        };
        proof {
            lemma_row_end_facts(s, byte, p);
        }
        let total = buf.len();
        let ghost added = buf@.subrange(start as int, start + n);
        assert(added =~= s.subrange(p, p + n));
        let mut count: u64 = 0;
        let mut i: usize = 0;
        while i < n
            invariant
                start + n == buf@.len(),
                total == buf@.len(),
                i <= n,
                added == buf@.subrange(start as int, start + n),
                count == count_sep(added.subrange(0, i as int), sep),
                count <= i,
            decreases n - i,
        {
            proof {
                lemma_count_sep_step(added, sep, i as int);
            }
            if buf[start + i] == sep {
                count = count + 1;
            }
            i = i + 1;
        }
        assert(added.subrange(0, n as int) =~= added);
        self.pos = self.pos + n as u64;
        self.row_pos = self.row_pos + count;
        Ok(n)
    }

    /// The separator byte.
    pub fn separator(&self) -> (r: u8)
        ensures
            r == self.sep(),
    {
        self.separator
    }

    /// Changes the separator; rows read from now on end at `separator`.
    pub fn set_separator(&mut self, separator: u8)
        requires
            old(self).wf(),
        ensures
            final(self).wf(),
            final(self).sep() == separator,
            final(self).source() == old(self).source(),
            final(self).byte_pos() == old(self).byte_pos(),
            final(self).rows() == old(self).rows(),
            final(self).gran() == old(self).gran(),
            final(self).samples() == old(self).samples(),
            final(self).known_length() == old(self).known_length(),
            final(self).known_rows() == old(self).known_rows(),
            old(self).keys_aligned() ==> final(self).keys_aligned(),
    {
        self.separator = separator;
    }

    /// The sampling interval, in rows.
    pub fn granularity(&self) -> (r: u64)
        ensures
            r == self.gran(),
    {
        self.granularity
    }

    /// Changes the sampling interval; samples taken from now on fall on
    /// multiples of `granularity`.
    pub fn set_granularity(&mut self, granularity: u64)
        requires
            old(self).wf(),
            granularity > 0,
        ensures
            final(self).wf(),
            final(self).gran() == granularity,
            final(self).source() == old(self).source(),
            final(self).sep() == old(self).sep(),
            final(self).byte_pos() == old(self).byte_pos(),
            final(self).rows() == old(self).rows(),
            final(self).samples() == old(self).samples(),
            final(self).known_length() == old(self).known_length(),
            final(self).known_rows() == old(self).known_rows(),
            old(self).synced() ==> final(self).synced(),
    {
        self.granularity = granularity;
    }

    /// The length of the stream in bytes, once its end has been seen.
    pub fn total_length(&self) -> (r: Option<u64>)
        ensures
            r == self.known_length(),
    {
        self.length
    }

    /// The number of rows in the stream, once its end has been seen.
    pub fn total_rows(&self) -> (r: Option<u64>)
        ensures
            r == self.known_rows(),
    {
        self.row_length
    }

    /// The number of samples in the row index.
    pub fn sample_count(&self) -> (r: usize)
        ensures
            r == self.samples().len(),
    {
        self.cached_index.len()
    }

    /// The `i`-th sample of the row index, as (row, byte offset); samples are
    /// in increasing row order.
    pub fn sample(&self, i: usize) -> (r: (u64, u64))
        requires
            i < self.samples().len(),
        ensures
            r == self.samples()[i as int],
    {
        self.cached_index[i]
    }
}

} // verus!
