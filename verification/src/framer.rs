//! Line framer: turns an arbitrary byte stream into complete, line-feed
//! delimited protocol lines, carrying the partial trailing line across read
//! boundaries.

use vstd::prelude::*;

verus! {

/// Index of the first line-feed byte of `s`, or `s.len()` if there is none.
pub open spec fn first_line_feed(s: Seq<u8>) -> nat
    decreases s.len(),
{
    if s.len() == 0 {
        0
    } else if s[0] == 10u8 {
        0
    } else {
        1 + first_line_feed(s.drop_first())
    }
}

/// The complete (line-feed terminated) lines of `s`, in order, without their
/// terminators.
pub open spec fn complete_lines(s: Seq<u8>) -> Seq<Seq<u8>>
    decreases s.len(),
{
    let k = first_line_feed(s);
    if k >= s.len() {
        Seq::empty()
    } else {
        seq![s.take(k as int)] + complete_lines(s.skip(k as int + 1))
    }
}

/// The fragment of `s` after its last line-feed: what a framer must carry
/// over to the next read.
pub open spec fn remainder_of(s: Seq<u8>) -> Seq<u8>
    decreases s.len(),
{
    let k = first_line_feed(s);
    if k >= s.len() {
        s
    } else {
        remainder_of(s.skip(k as int + 1))
    }
}

/// Whether `s` holds no line-feed byte.
pub open spec fn line_feed_free(s: Seq<u8>) -> bool {
    forall|j: int| 0 <= j < s.len() ==> s[j] != 10u8
}

/// The views of a vector of byte lines.
pub open spec fn line_views(lines: Seq<Vec<u8>>) -> Seq<Seq<u8>> {
    lines.map_values(|l: Vec<u8>| l@)
}

pub proof fn lemma_first_line_feed_bounds(s: Seq<u8>)
    ensures
        first_line_feed(s) <= s.len(),
        forall|j: int| 0 <= j < first_line_feed(s) ==> s[j] != 10u8,
        first_line_feed(s) < s.len() ==> s[first_line_feed(s) as int] == 10u8,
    decreases s.len(),
{
    if s.len() == 0 {
    } else if s[0] == 10u8 {
    } else {
        lemma_first_line_feed_bounds(s.drop_first());
        assert forall|j: int| 0 <= j < first_line_feed(s) implies s[j] != 10u8 by {
            if j > 0 {
                assert(s.drop_first()[j - 1] == s[j]);
            }
        }
        if first_line_feed(s) < s.len() {
            assert(s.drop_first()[first_line_feed(s.drop_first()) as int]
                == s[first_line_feed(s) as int]);
        }
    }
}

/// `first_line_feed` is pinned by its characteristic property.
pub proof fn lemma_first_line_feed_is(s: Seq<u8>, k: int)
    requires
        0 <= k <= s.len(),
        forall|j: int| 0 <= j < k ==> s[j] != 10u8,
        k < s.len() ==> s[k] == 10u8,
    ensures
        first_line_feed(s) == k,
    decreases s.len(),
{
    if s.len() == 0 {
    } else if s[0] == 10u8 {
        assert(k == 0);
    } else {
        assert(k >= 1);
        assert forall|j: int| 0 <= j < k - 1 implies s.drop_first()[j] != 10u8 by {
            assert(s.drop_first()[j] == s[j + 1]);
        }
        assert(k - 1 < s.drop_first().len() ==> s.drop_first()[k - 1] == s[k]);
        lemma_first_line_feed_is(s.drop_first(), k - 1);
    }
}

/// The carried remainder never holds a line feed.
pub proof fn lemma_remainder_no_line_feed(s: Seq<u8>)
    ensures
        line_feed_free(remainder_of(s)),
    decreases s.len(),
{
    let k = first_line_feed(s);
    lemma_first_line_feed_bounds(s);
    if k >= s.len() {
        assert(remainder_of(s) == s);
        assert forall|j: int| 0 <= j < remainder_of(s).len() implies remainder_of(s)[j] != 10u8 by {
            assert(s[j] != 10u8);
        }
    } else {
        lemma_remainder_no_line_feed(s.skip(k as int + 1));
    }
}

/// How `first_line_feed` behaves over a concatenation.
pub proof fn lemma_first_line_feed_concat(s: Seq<u8>, t: Seq<u8>)
    ensures
        first_line_feed(s) < s.len() ==> first_line_feed(s + t) == first_line_feed(s),
        first_line_feed(s) >= s.len() ==> first_line_feed(s + t) == s.len() + first_line_feed(t),
{
    let k = first_line_feed(s);
    lemma_first_line_feed_bounds(s);
    lemma_first_line_feed_bounds(t);
    if k < s.len() {
        assert forall|j: int| 0 <= j < k implies (s + t)[j] != 10u8 by {
            assert((s + t)[j] == s[j]);
        }
        assert((s + t)[k as int] == s[k as int]);
        lemma_first_line_feed_is(s + t, k as int);
    } else {
        let m = first_line_feed(t);
        assert forall|j: int| 0 <= j < s.len() + m implies (s + t)[j] != 10u8 by {
            if j < s.len() {
                assert((s + t)[j] == s[j]);
            } else {
                assert((s + t)[j] == t[j - s.len()]);
            }
        }
        if m < t.len() {
            assert((s + t)[s.len() + m as int] == t[m as int]);
        }
        lemma_first_line_feed_is(s + t, s.len() + m as int);
    }
}

/// Framing idempotence: splitting the input at any point changes neither the
/// sequence of complete lines produced nor the final remainder. Feeding
/// `s + t` in one piece equals feeding `s`, carrying its remainder, and then
/// feeding `t`.
pub proof fn lemma_frame_split(s: Seq<u8>, t: Seq<u8>)
    ensures
        complete_lines(s + t) == complete_lines(s) + complete_lines(remainder_of(s) + t),
        remainder_of(s + t) == remainder_of(remainder_of(s) + t),
    decreases s.len(),
{
    let k = first_line_feed(s);
    lemma_first_line_feed_bounds(s);
    lemma_first_line_feed_concat(s, t);
    if k >= s.len() {
        assert(remainder_of(s) + t =~= s + t);
        assert(complete_lines(s) + complete_lines(remainder_of(s) + t)
            =~= complete_lines(s + t));
    } else {
        assert((s + t).take(k as int) =~= s.take(k as int));
        assert((s + t).skip(k as int + 1) =~= s.skip(k as int + 1) + t);
        lemma_frame_split(s.skip(k as int + 1), t);
        assert(complete_lines(s + t)
            =~= complete_lines(s) + complete_lines(remainder_of(s) + t));
    }
}

/// Boundary: a stream ending exactly at a line feed leaves no dangling
/// remainder.
pub proof fn lemma_ends_at_line_feed(s: Seq<u8>)
    requires
        s.len() > 0,
        s[s.len() - 1] == 10u8,
    ensures
        remainder_of(s).len() == 0,
    decreases s.len(),
{
    let k = first_line_feed(s);
    lemma_first_line_feed_bounds(s);
    if k >= s.len() {
        assert(s[s.len() - 1] != 10u8);
    } else if k + 1 == s.len() {
        assert(s.skip(k as int + 1) =~= Seq::<u8>::empty());
        assert(first_line_feed(Seq::<u8>::empty()) == 0);
        assert(remainder_of(Seq::<u8>::empty()) =~= Seq::<u8>::empty());
    } else {
        assert(s.skip(k as int + 1)[s.skip(k as int + 1).len() - 1] == s[s.len() - 1]);
        lemma_ends_at_line_feed(s.skip(k as int + 1));
    }
}

/// The concatenation of a sequence of chunks.
pub open spec fn concat_chunks(chunks: Seq<Seq<u8>>) -> Seq<u8>
    decreases chunks.len(),
{
    if chunks.len() == 0 {
        Seq::empty()
    } else {
        concat_chunks(chunks.drop_last()) + chunks.last()
    }
}

/// The remainder held after feeding `chunks` one by one, starting from `rem`.
pub open spec fn remainder_after_feed(rem: Seq<u8>, chunks: Seq<Seq<u8>>) -> Seq<u8>
    decreases chunks.len(),
{
    if chunks.len() == 0 {
        rem
    } else {
        remainder_of(remainder_after_feed(rem, chunks.drop_last()) + chunks.last())
    }
}

/// All lines produced while feeding `chunks` one by one, starting from `rem`.
pub open spec fn lines_after_feed(rem: Seq<u8>, chunks: Seq<Seq<u8>>) -> Seq<Seq<u8>>
    decreases chunks.len(),
{
    if chunks.len() == 0 {
        Seq::empty()
    } else {
        lines_after_feed(rem, chunks.drop_last())
            + complete_lines(remainder_after_feed(rem, chunks.drop_last()) + chunks.last())
    }
}

/// Framing idempotence over any number of chunks: feeding a byte stream in
/// arbitrarily small pieces yields exactly the lines, and the remainder, of
/// feeding it whole. `rem` is the carried fragment the feed starts from,
/// which — as for every reachable framer state — holds no line feed.
pub proof fn lemma_feed_in_pieces(rem: Seq<u8>, chunks: Seq<Seq<u8>>)
    requires
        line_feed_free(rem),
    ensures
        lines_after_feed(rem, chunks) == complete_lines(rem + concat_chunks(chunks)),
        remainder_after_feed(rem, chunks) == remainder_of(rem + concat_chunks(chunks)),
    decreases chunks.len(),
{
    if chunks.len() == 0 {
        assert(rem + concat_chunks(chunks) =~= rem);
        lemma_first_line_feed_is(rem, rem.len() as int);
    } else {
        lemma_feed_in_pieces(rem, chunks.drop_last());
        lemma_frame_split(rem + concat_chunks(chunks.drop_last()), chunks.last());
        assert(rem + concat_chunks(chunks)
            =~= (rem + concat_chunks(chunks.drop_last())) + chunks.last());
    }
}

/// Incremental line framer; its view is the carried partial line.
pub struct Framer {
    remainder: Vec<u8>,
}

impl View for Framer {
    type V = Seq<u8>;

    closed spec fn view(&self) -> Seq<u8> {
        self.remainder@
    }
}

impl Framer {
    /// A fresh framer carries nothing.
    pub fn new() -> (f: Framer)
        ensures
            f@ == Seq::<u8>::empty(),
    {
        Framer { remainder: Vec::new() }
    }

    /// Feed newly read bytes: returns every line completed by this chunk, in
    /// order, and keeps the trailing fragment (prepended to the next chunk).
    /// A chunk ending exactly at a line feed leaves an empty remainder.
    pub fn push_chunk(&mut self, chunk: &[u8]) -> (lines: Vec<Vec<u8>>)
        ensures
            line_views(lines@) == complete_lines(old(self)@ + chunk@),
            final(self)@ == remainder_of(old(self)@ + chunk@),
    {
        let mut i: usize = 0;
        while i < chunk.len()
            invariant
                i <= chunk.len(),
                self.remainder@ == old(self)@ + chunk@.take(i as int),
            decreases chunk.len() - i,
        {
            self.remainder.push(chunk[i]);
            i += 1;
            proof {
                assert(old(self)@ + chunk@.take(i as int)
                    =~= (old(self)@ + chunk@.take(i - 1)).push(chunk@[i - 1]));
            }
        }
        proof {
            assert(old(self)@ + chunk@.take(chunk@.len() as int) =~= old(self)@ + chunk@);
        }
        let ghost d = old(self)@ + chunk@;
        let mut lines: Vec<Vec<u8>> = Vec::new();
        let mut start: usize = 0;
        let mut j: usize = 0;
        proof {
            assert(d.skip(0) =~= d);
        }
        while j < self.remainder.len()
            invariant
                start <= j <= self.remainder.len(),
                self.remainder@ == d,
                forall|q: int| start <= q < j ==> d[q] != 10u8,
                complete_lines(d) == line_views(lines@) + complete_lines(d.skip(start as int)),
                remainder_of(d) == remainder_of(d.skip(start as int)),
            decreases self.remainder.len() - j,
        {
            if self.remainder[j] == 10 {
                let ghost tail = d.skip(start as int);
                proof {
                    assert forall|q: int| 0 <= q < j - start implies tail[q] != 10u8 by {
                        assert(tail[q] == d[start + q]);
                    }
                    assert(tail[j - start] == d[j as int]);
                    lemma_first_line_feed_is(tail, j - start);
                    assert(tail.take(j - start) =~= d.subrange(start as int, j as int));
                    assert(tail.skip(j - start + 1) =~= d.skip(j + 1));
                }
                let mut line: Vec<u8> = Vec::new();
                let mut q: usize = start;
                while q < j
                    invariant
                        start <= q <= j <= self.remainder.len(),
                        self.remainder@ == d,
                        line@ == d.subrange(start as int, q as int),
                    decreases j - q,
                {
                    line.push(self.remainder[q]);
                    q += 1;
                    proof {
                        assert(d.subrange(start as int, q as int)
                            =~= d.subrange(start as int, q - 1).push(d[q - 1]));
                    }
                }
                proof {
                    assert(line_views(lines@.push(line))
                        =~= line_views(lines@) + seq![line@]);
                    assert(complete_lines(d)
                        =~= (line_views(lines@) + seq![line@]) + complete_lines(d.skip(j + 1)));
                }
                lines.push(line);
                start = j + 1;
            }
            j += 1;
        }
        proof {
            let tail = d.skip(start as int);
            assert forall|q: int| 0 <= q < tail.len() implies tail[q] != 10u8 by {
                assert(tail[q] == d[start + q]);
            }
            lemma_first_line_feed_is(tail, tail.len() as int);
            assert(line_views(lines@) + complete_lines(tail) =~= line_views(lines@));
        }
        let mut tail: Vec<u8> = Vec::new();
        let mut q: usize = start;
        while q < self.remainder.len()
            invariant
                start <= q <= self.remainder.len(),
                self.remainder@ == d,
                tail@ == d.subrange(start as int, q as int),
            decreases self.remainder.len() - q,
        {
            tail.push(self.remainder[q]);
            q += 1;
            proof {
                assert(d.subrange(start as int, q as int)
                    =~= d.subrange(start as int, q - 1).push(d[q - 1]));
            }
        }
        proof {
            assert(tail@ =~= d.skip(start as int));
        }
        self.remainder = tail;
        lines
    }
}

} // verus!
