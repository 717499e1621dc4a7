use vstd::prelude::*;
use vstd::string::StringSliceAdditionalSpecFns;

verus! {

/// The delimiter `d` occurs in `s` at offset `i`, entirely inside `s`.
pub open spec fn matches_at(s: Seq<u8>, d: Seq<u8>, i: int) -> bool {
    0 <= i && i + d.len() <= s.len() && s.subrange(i, i + d.len()) == d
}

/// First offset at or after `k` where `d` occurs in `s`, or -1.
pub open spec fn find_from(s: Seq<u8>, d: Seq<u8>, k: int) -> int
    decreases s.len() - k,
{
    if k < 0 || k >= s.len() || k + d.len() > s.len() {
        -1
    } else if matches_at(s, d, k) {
        k
    } else {
        find_from(s, d, k + 1)
    }
}

/// First offset where `d` occurs in `s`, or -1.
pub open spec fn find(s: Seq<u8>, d: Seq<u8>) -> int {
    find_from(s, d, 0)
}

/// The tokens of `s`: the pieces between successive leftmost occurrences of
/// `d`, with a final undelimited remainder only when it is non-empty.
pub open spec fn split(s: Seq<u8>, d: Seq<u8>) -> Seq<Seq<u8>>
    decreases s.len(),
{
    if s.len() == 0 {
        seq![]
    } else if d.len() == 0 || find(s, d) < 0 || find(s, d) + d.len() > s.len() {
        seq![s]
    } else {
        let i = find(s, d);
        seq![s.subrange(0, i)] + split(s.subrange(i + d.len(), s.len() as int), d)
    }
}

/// The tokens joined back together, with `d` between neighbours.
pub open spec fn join(toks: Seq<Seq<u8>>, d: Seq<u8>) -> Seq<u8>
    decreases toks.len(),
{
    if toks.len() == 0 {
        seq![]
    } else if toks.len() == 1 {
        toks[0]
    } else {
        toks[0] + d + join(toks.subrange(1, toks.len() as int), d)
    }
}

/// All the chunks of a source, in order, as one byte sequence.
pub open spec fn flatten(chunks: Seq<Seq<u8>>) -> Seq<u8>
    decreases chunks.len(),
{
    if chunks.len() == 0 {
        seq![]
    } else {
        chunks[0] + flatten(chunks.subrange(1, chunks.len() as int))
    }
}

proof fn lemma_find_from(s: Seq<u8>, d: Seq<u8>, k: int)
    requires
        0 <= k,
        d.len() > 0,
    ensures
        find_from(s, d, k) == -1 || (k <= find_from(s, d, k) && matches_at(s, d, find_from(s, d, k))),
        forall|j: int| k <= j && (find_from(s, d, k) == -1 || j < find_from(s, d, k)) ==> !matches_at(s, d, j),
    decreases s.len() - k,
{
    if k >= s.len() || k + d.len() > s.len() {
    } else if matches_at(s, d, k) {
    } else {
        lemma_find_from(s, d, k + 1);
        assert forall|j: int| k <= j && (find_from(s, d, k) == -1 || j < find_from(s, d, k)) implies !matches_at(s, d, j) by {
            if j > k {
            }
        }
    }
}

/// The leftmost occurrence is the one described by `find`.
proof fn lemma_find(s: Seq<u8>, d: Seq<u8>)
    requires
        d.len() > 0,
    ensures
        find(s, d) == -1 || (0 <= find(s, d) && matches_at(s, d, find(s, d))),
        forall|j: int| 0 <= j && (find(s, d) == -1 || j < find(s, d)) ==> !matches_at(s, d, j),
{
    lemma_find_from(s, d, 0);
}

/// A `find` result is determined by the two properties above.
proof fn lemma_find_unique(s: Seq<u8>, d: Seq<u8>, i: int)
    requires
        d.len() > 0,
        i == -1 || matches_at(s, d, i),
        forall|j: int| 0 <= j && (i == -1 || j < i) ==> !matches_at(s, d, j),
    ensures
        find(s, d) == i,
{
    lemma_find(s, d);
    let f = find(s, d);
    if f != i {
        if f == -1 {
            assert(matches_at(s, d, i));
        } else if i == -1 {
            assert(matches_at(s, d, f));
        } else if f < i {
            assert(matches_at(s, d, f));
        } else {
            assert(matches_at(s, d, i));
        }
    }
}

proof fn lemma_matches_extend(s: Seq<u8>, r: Seq<u8>, d: Seq<u8>, j: int)
    requires
        0 <= j,
        j + d.len() <= s.len(),
    ensures
        matches_at(s + r, d, j) == matches_at(s, d, j),
{
    assert((s + r).subrange(j, j + d.len()) =~= s.subrange(j, j + d.len()));
}

/// Extending the input keeps a delimiter already found in a prefix the first.
proof fn lemma_split_extend(s: Seq<u8>, r: Seq<u8>, d: Seq<u8>)
    requires
        d.len() > 0,
        find(s, d) >= 0,
    ensures
        split(s + r, d) == seq![s.subrange(0, find(s, d))] + split(
            s.subrange(find(s, d) + d.len(), s.len() as int) + r,
            d,
        ),
{
    let i = find(s, d);
    lemma_find(s, d);
    assert forall|j: int| 0 <= j && j < i implies !matches_at(s + r, d, j) by {
        lemma_matches_extend(s, r, d, j);
    }
    lemma_matches_extend(s, r, d, i);
    lemma_find_unique(s + r, d, i);
    assert((s + r).subrange(0, i) =~= s.subrange(0, i));
    assert((s + r).subrange(i + d.len(), (s + r).len() as int) =~= s.subrange(
        i + d.len(),
        s.len() as int,
    ) + r);
}

proof fn lemma_flatten_step(chunks: Seq<Seq<u8>>, k: int)
    requires
        0 <= k < chunks.len(),
    ensures
        flatten(chunks.subrange(k, chunks.len() as int)) == chunks[k] + flatten(
            chunks.subrange(k + 1, chunks.len() as int),
        ),
{
    let t = chunks.subrange(k, chunks.len() as int);
    assert(t.subrange(1, t.len() as int) =~= chunks.subrange(k + 1, chunks.len() as int));
}

/// What a call of `Stream::next` hands back.
pub enum Step {
    /// The next token.
    Token(Vec<u8>),
    /// No delimiter is buffered: feed more input, or signal its end.
    NeedInput,
    /// The source is exhausted and every token has been handed out.
    End,
}

/// An incremental splitter of a byte source on a fixed delimiter.
///
/// The caller owns the source: it answers `Step::NeedInput` with
/// `buffer_fill` on the bytes it read, or with `end_of_input` once a read
/// returns nothing.
pub struct Stream {
    buf: Vec<u8>,
    last_check_position: usize,
    exhausted: bool,
    token: Vec<u8>,
}

impl Stream {
    /// Bytes received and not yet handed out.
    pub closed spec fn buffered(&self) -> Seq<u8> {
        self.buf@
    }

    /// The delimiter that separates tokens.
    pub closed spec fn delimiter(&self) -> Seq<u8> {
        self.token@
    }

    /// Whether the source was declared exhausted.
    pub closed spec fn is_exhausted(&self) -> bool {
        self.exhausted
    }

    pub closed spec fn wf(&self) -> bool {
        &&& self.token@.len() > 0
        &&& self.last_check_position <= self.buf@.len()
        &&& self.last_check_position == 0
            || self.last_check_position + self.token@.len() <= self.buf@.len() + 1
        &&& forall|j: int|
            0 <= j < self.last_check_position ==> !matches_at(self.buf@, self.token@, j)
    }

    /// A stream with nothing buffered; `None` for an empty delimiter.
    pub fn new(token: &str) -> (r: Option<Stream>)
        ensures
            token.spec_bytes().len() == 0 <==> r is None,
            r matches Some(s) ==> s.wf() && s.delimiter() == token.spec_bytes()
                && s.buffered().len() == 0 && !s.is_exhausted(),
    {
        let bytes = token.as_bytes();
        if bytes.len() == 0 {
            return None;
        }
        let mut delim: Vec<u8> = Vec::new();
        let mut k: usize = 0;
        while k < bytes.len()
            invariant
                k <= bytes@.len(),
                delim@ == bytes@.subrange(0, k as int),
            decreases bytes@.len() - k,
        {
            delim.push(bytes[k]);
            k = k + 1;
        }
        assert(delim@ =~= bytes@);
        Some(Stream { buf: Vec::new(), last_check_position: 0, exhausted: false, token: delim })
    }

    /// Appends bytes read from the source. The scan cursor stays, since no
    /// delimiter fits wholly inside the bytes already scanned.
    pub fn buffer_fill(&mut self, chunk: &[u8])
        requires
            old(self).wf(),
        ensures
            final(self).wf(),
            final(self).buffered() == old(self).buffered() + chunk@,
            final(self).delimiter() == old(self).delimiter(),
            final(self).is_exhausted() == old(self).is_exhausted(),
    {
        let ghost before = self.buf@;
        let mut k: usize = 0;
        while k < chunk.len()
            invariant
                k <= chunk@.len(),
                self.buf@ == before + chunk@.subrange(0, k as int),
                self.token@ == old(self).token@,
                self.exhausted == old(self).exhausted,
                self.last_check_position == old(self).last_check_position,
                self.token@.len() > 0,
                self.last_check_position <= before.len(),
                self.last_check_position == 0
                    || self.last_check_position + self.token@.len() <= before.len() + 1,
                forall|j: int| 0 <= j < self.last_check_position ==> !matches_at(before, self.token@, j),
            decreases chunk@.len() - k,
        {
            self.buf.push(chunk[k]);
            k = k + 1;
            assert(before + chunk@.subrange(0, k as int) =~= (before + chunk@.subrange(0, k - 1 as int)).push(chunk@[k - 1]));
        }
        assert(chunk@.subrange(0, k as int) =~= chunk@);
        proof {
            let d = self.token@;
            assert forall|j: int| 0 <= j < self.last_check_position implies !matches_at(self.buf@, d, j) by {
                lemma_matches_extend(before, chunk@, d, j);
            }
        }
    }

    /// Records that the source has no more bytes to give.
    pub fn end_of_input(&mut self)
        requires
            old(self).wf(),
        ensures
            final(self).wf(),
            final(self).buffered() == old(self).buffered(),
            final(self).delimiter() == old(self).delimiter(),
            final(self).is_exhausted(),
    {
        self.exhausted = true;
    }

    /// Offset of the first delimiter in the buffer, scanning only from the
    /// cursor on; on a miss the cursor moves to the first offset at which a
    /// delimiter could still begin once more bytes arrive.
    fn buffer_token_position(&mut self) -> (r: Option<usize>)
        requires
            old(self).wf(),
        ensures
            final(self).wf(),
            final(self).buf@ == old(self).buf@,
            final(self).token@ == old(self).token@,
            final(self).exhausted == old(self).exhausted,
            find(old(self).buf@, old(self).token@) >= 0 <==> r is Some,
            r matches Some(i) ==> i == find(old(self).buf@, old(self).token@),
            r matches Some(i) ==> i + old(self).token@.len() <= old(self).buf@.len(),
    {
        proof {
            lemma_find(self.buf@, self.token@);
        }
        let len = self.buf.len();
        let dlen = self.token.len();
        if dlen > len {
            self.last_check_position = 0;
            return None;
        }
        let mut i: usize = self.last_check_position;
        while i <= len - dlen
            invariant
                self.wf(),
                self.buf@ == old(self).buf@,
                self.token@ == old(self).token@,
                self.exhausted == old(self).exhausted,
                len == self.buf@.len(),
                dlen == self.token@.len(),
                dlen <= len,
                self.last_check_position <= i,
                forall|j: int| 0 <= j < i ==> !matches_at(self.buf@, self.token@, j),
            decreases len - i,
        {
            if matches_exec(&self.buf, &self.token, i) {
                self.last_check_position = 0;
                proof {
                    lemma_find_unique(self.buf@, self.token@, i as int);
                }
                return Some(i);
            }
            i = i + 1;
        }
        self.last_check_position = len - dlen + 1;
        proof {
            lemma_find_unique(self.buf@, self.token@, -1);
        }
        None
    }

    /// The next token, a request for input, or the end of the sequence.
    pub fn next(&mut self) -> (r: Step)
        requires
            old(self).wf(),
        ensures
            final(self).wf(),
            final(self).delimiter() == old(self).delimiter(),
            final(self).is_exhausted() == old(self).is_exhausted(),
            ({
                let b = old(self).buffered();
                let d = old(self).delimiter();
                let i = find(b, d);
                if i >= 0 {
                    &&& r matches Step::Token(t) && t@ == b.subrange(0, i)
                    &&& final(self).buffered() == b.subrange(i + d.len(), b.len() as int)
                } else if !old(self).is_exhausted() {
                    r is NeedInput && final(self).buffered() == b
                } else if b.len() > 0 {
                    r matches Step::Token(t) && t@ == b && final(self).buffered().len() == 0
                } else {
                    r is End && final(self).buffered().len() == 0
                }
            }),
    {
        match self.buffer_token_position() {
            Some(index) => {
                let dlen = self.token.len();
                let blen = self.buf.len();
                let result = copy_range(&self.buf, 0, index);
                let rest = copy_range(&self.buf, index + dlen, blen);
                self.buf = rest;
                self.last_check_position = 0;
                Step::Token(result)
            },
            None => {
                if !self.exhausted {
                    Step::NeedInput
                } else if self.buf.len() > 0 {
                    let mut result: Vec<u8> = Vec::new();
                    result.append(&mut self.buf);
                    self.last_check_position = 0;
                    Step::Token(result)
                } else {
                    Step::End
                }
            },
        }
    }
}

/// Whether `d` occurs in `buf` at offset `i`.
fn matches_exec(buf: &Vec<u8>, d: &Vec<u8>, i: usize) -> (r: bool)
    requires
        i + d@.len() <= buf@.len(),
    ensures
        r == matches_at(buf@, d@, i as int),
{
    let blen = buf.len();
    let mut k: usize = 0;
    while k < d.len()
        invariant
            blen == buf@.len(),
            i + d@.len() <= buf@.len(),
            k <= d@.len(),
            forall|x: int| 0 <= x < k ==> buf@[i + x] == d@[x],
        decreases d@.len() - k,
    {
        if buf[i + k] != d[k] {
            assert(buf@.subrange(i as int, i + d@.len())[k as int] != d@[k as int]);
            return false;
        }
        k = k + 1;
    }
    assert(buf@.subrange(i as int, i + d@.len()) =~= d@);
    true
}

/// A copy of `v[lo..hi]`.
fn copy_range(v: &Vec<u8>, lo: usize, hi: usize) -> (r: Vec<u8>)
    requires
        lo <= hi <= v@.len(),
    ensures
        r@ == v@.subrange(lo as int, hi as int),
{
    let mut r: Vec<u8> = Vec::new();
    let mut k: usize = lo;
    while k < hi
        invariant
            lo <= k <= hi <= v@.len(),
            r@ == v@.subrange(lo as int, k as int),
        decreases hi - k,
    {
        r.push(v[k]);
        k = k + 1;
        assert(r@ =~= v@.subrange(lo as int, k as int));
    }
    r
}

/// `s` ends with a whole copy of `d`.
pub open spec fn ends_with(s: Seq<u8>, d: Seq<u8>) -> bool {
    d.len() <= s.len() && s.subrange(s.len() - d.len(), s.len() as int) == d
}

proof fn lemma_split_empty(s: Seq<u8>, d: Seq<u8>)
    ensures
        split(s, d).len() == 0 <==> s.len() == 0,
{
    reveal_with_fuel(split, 1);
}

/// Joining the tokens with the delimiter gives back the input, or the input
/// without its one final delimiter: nothing is lost and no empty token is
/// invented after a trailing delimiter. When the input does not end with the
/// delimiter, the join is the input itself.
pub proof fn lemma_round_trip(s: Seq<u8>, d: Seq<u8>)
    requires
        d.len() > 0,
    ensures
        join(split(s, d), d) == s || join(split(s, d), d) + d == s,
        !ends_with(s, d) ==> join(split(s, d), d) == s,
    decreases s.len(),
{
    lemma_find(s, d);
    if s.len() == 0 {
    } else if find(s, d) < 0 {
        assert(split(s, d) == seq![s]);
    } else {
        let i = find(s, d);
        let head = s.subrange(0, i);
        let rest = s.subrange(i + d.len(), s.len() as int);
        let t = split(rest, d);
        lemma_round_trip(rest, d);
        lemma_split_empty(rest, d);
        assert(s.subrange(i, i + d.len()) == d);
        assert(s =~= head + d + rest);
        let toks = split(s, d);
        assert(toks == seq![head] + t);
        assert(toks.subrange(1, toks.len() as int) =~= t);
        if t.len() == 0 {
            assert(join(toks, d) == head);
            assert(rest.len() == 0);
            assert(join(toks, d) + d =~= s);
        } else {
            assert(join(toks, d) == head + d + join(t, d));
            if join(t, d) == rest {
                assert(join(toks, d) =~= s);
            } else {
                assert(join(toks, d) + d =~= s);
            }
        }
    }
    assert(join(split(s, d), d) == s || join(split(s, d), d) + d == s);
    if join(split(s, d), d) != s {
        let j = join(split(s, d), d);
        assert(j + d == s);
        assert(s.subrange(s.len() - d.len(), s.len() as int) =~= d);
    }
}

/// No occurrence of `d` in `s` overlaps a copy of `d` that ends `s`.
pub open spec fn trailing_unambiguous(s: Seq<u8>, d: Seq<u8>) -> bool {
    forall|p: int| s.len() - 2 * d.len() < p < s.len() - d.len() ==> !matches_at(s, d, p)
}

/// When the input ends with a delimiter that no other occurrence overlaps,
/// that delimiter closes the last token: the join falls short of the input by
/// exactly one delimiter, and no empty token follows it.
pub proof fn lemma_round_trip_terminated(s: Seq<u8>, d: Seq<u8>)
    requires
        d.len() > 0,
        ends_with(s, d),
        trailing_unambiguous(s, d),
    ensures
        join(split(s, d), d) + d == s,
    decreases s.len(),
{
    let q = s.len() - d.len();
    lemma_find(s, d);
    assert(matches_at(s, d, q));
    let i = find(s, d);
    assert(0 <= i <= q);
    let head = s.subrange(0, i);
    let rest = s.subrange(i + d.len(), s.len() as int);
    assert(s.subrange(i, i + d.len()) == d);
    assert(s =~= head + d + rest);
    let toks = split(s, d);
    assert(toks == seq![head] + split(rest, d));
    if i == q {
        assert(rest.len() == 0);
        assert(split(rest, d) == Seq::<Seq<u8>>::empty());
        assert(toks =~= seq![head]);
        assert(join(toks, d) + d =~= s);
    } else {
        assert(i + d.len() <= q);
        assert(ends_with(rest, d)) by {
            assert(rest.subrange(rest.len() - d.len(), rest.len() as int) =~= s.subrange(q, s.len() as int));
        }
        assert forall|p: int| rest.len() - 2 * d.len() < p < rest.len() - d.len() implies !matches_at(rest, d, p) by {
            let o = p + i + d.len();
            if matches_at(rest, d, p) {
                assert(s.subrange(o, o + d.len()) =~= rest.subrange(p, p + d.len()));
                assert(matches_at(s, d, o));
            }
        }
        lemma_round_trip_terminated(rest, d);
        lemma_split_empty(rest, d);
        let t = split(rest, d);
        assert(toks.subrange(1, toks.len() as int) =~= t);
        assert(join(toks, d) == head + d + join(t, d));
        assert(join(toks, d) + d =~= s);
    }
}

/// The byte contents of a list of buffers.
pub open spec fn views(v: Seq<Vec<u8>>) -> Seq<Seq<u8>> {
    v.map_values(|t: Vec<u8>| t@)
}

/// Splits a source delivered as a list of chunks; `None` for an empty
/// delimiter. The tokens are those of the whole input, however it is chunked.
pub fn tokenize(delimiter: &str, chunks: &Vec<Vec<u8>>) -> (r: Option<Vec<Vec<u8>>>)
    ensures
        delimiter.spec_bytes().len() == 0 <==> r is None,
        r matches Some(toks) ==> views(toks@) == split(
            flatten(views(chunks@)),
            delimiter.spec_bytes(),
        ),
{
    let mut stream = match Stream::new(delimiter) {
        Some(s) => s,
        None => return None,
    };
    let ghost d = delimiter.spec_bytes();
    let ghost cs = views(chunks@);
    let ghost total = flatten(cs);
    let mut out: Vec<Vec<u8>> = Vec::new();
    let mut idx: usize = 0;
    assert(cs.subrange(0, cs.len() as int) =~= cs);
    loop
        invariant
            stream.wf(),
            stream.delimiter() == d,
            d == delimiter.spec_bytes(),
            d.len() > 0,
            cs == views(chunks@),
            total == flatten(cs),
            idx <= cs.len(),
            stream.is_exhausted() ==> idx == cs.len(),
            views(out@) + split(
                stream.buffered() + flatten(cs.subrange(idx as int, cs.len() as int)),
                d,
            ) == split(total, d),
        decreases cs.len() - idx + (if stream.is_exhausted() { 0int } else { 1int }),
            stream.buffered().len(),
    {
        let ghost b = stream.buffered();
        let ghost rest = flatten(cs.subrange(idx as int, cs.len() as int));
        let ghost before = views(out@);
        proof {
            lemma_find(b, d);
        }
        match stream.next() {
            Step::Token(t) => {
                proof {
                    if find(b, d) >= 0 {
                        lemma_split_extend(b, rest, d);
                    } else {
                        assert(cs.subrange(idx as int, cs.len() as int) =~= Seq::<Seq<u8>>::empty());
                        assert(rest == Seq::<u8>::empty());
                        assert(b + rest =~= b);
                        assert(split(b, d) == seq![b]);
                        assert(stream.buffered() + rest =~= Seq::<u8>::empty());
                    }
                }
                out.push(t);
                proof {
                    assert(views(out@) =~= before.push(t@));
                    assert(seq![t@] + split(stream.buffered() + rest, d) == split(b + rest, d));
                    assert(views(out@) + split(stream.buffered() + rest, d) =~= before + (seq![t@] + split(stream.buffered() + rest, d)));
                }
            },
            Step::NeedInput => {
                if idx < chunks.len() {
                    stream.buffer_fill(chunks[idx].as_slice());
                    proof {
                        lemma_flatten_step(cs, idx as int);
                        assert(cs[idx as int] == chunks@[idx as int]@);
                        assert(stream.buffered() + flatten(cs.subrange(idx + 1, cs.len() as int)) =~= b + rest);
                    }
                    idx = idx + 1;
                } else {
                    stream.end_of_input();
                }
            },
            Step::End => {
                proof {
                    assert(cs.subrange(idx as int, cs.len() as int) =~= Seq::<Seq<u8>>::empty());
                    assert(b + rest =~= Seq::<u8>::empty());
                    assert(views(out@) + seq![] =~= views(out@));
                }
                return Some(out);
            },
        }
    }
}

} // verus!
