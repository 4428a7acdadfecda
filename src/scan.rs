use vstd::prelude::*;

use crate::DIM;

verus! {

/// A half-open byte range `start..end` of a response.
#[derive(Clone, Copy, Debug, PartialEq, Eq, Structural)]
pub struct Span {
    pub start: usize,
    pub end: usize,
}

/// Why a response yielded no vectors.
#[derive(Debug, PartialEq, Eq)]
pub enum ExtractError {
    /// A `"data"` field stands in the response, but no `[` after it.
    NoDataArray,
    /// An `"embedding"` field has no `[` after it.
    NoEmbeddingArray,
    /// An embedding array has no closing `]`.
    NoEmbeddingEnd,
    /// The service reported an error; this is its message, verbatim.
    ApiError(Vec<u8>),
    /// Neither shape was recognised; this is a prefix of the response.
    ParseFailure(Vec<u8>),
}

/// Whether `pat` occurs in `s` starting at index `k`.
pub open spec fn occurs_at(s: Seq<u8>, pat: Seq<u8>, k: int) -> bool {
    0 <= k && k + pat.len() <= s.len() && s.subrange(k, k + pat.len()) == pat
}

/// The first index at or after `from` where `pat` occurs in `s`, if any.
pub open spec fn find_from(s: Seq<u8>, pat: Seq<u8>, from: int) -> Option<int>
    decreases s.len() - from,
{
    if from < 0 || from >= s.len() || from + pat.len() > s.len() {
        None
    } else if occurs_at(s, pat, from) {
        Some(from)
    } else {
        find_from(s, pat, from + 1)
    }
}

/// What `find_from` returns is the first occurrence in range.
pub proof fn lemma_find_from(s: Seq<u8>, pat: Seq<u8>, from: int)
    requires
        0 <= from,
    ensures
        match find_from(s, pat, from) {
            Some(k) => from <= k && occurs_at(s, pat, k) && forall|j: int|
                from <= j < k ==> !occurs_at(s, pat, j),
            None => forall|j: int| from <= j < s.len() ==> !occurs_at(s, pat, j),
        },
    decreases s.len() - from,
{
    if from >= s.len() || from + pat.len() > s.len() {
    } else if occurs_at(s, pat, from) {
    } else {
        lemma_find_from(s, pat, from + 1);
    }
}

/// Whether `pat` occurs in `s` at `k`, for `k + pat.len() <= s.len()`.
fn matches_at(s: &[u8], pat: &[u8], k: usize) -> (r: bool)
    requires
        k + pat@.len() <= s@.len(),
    ensures
        r == occurs_at(s@, pat@, k as int),
{
    let n = s.len();
    let mut i: usize = 0;
    while i < pat.len()
        invariant
            n == s@.len(),
            i <= pat@.len(),
            k + pat@.len() <= s@.len(),
            forall|j: int| 0 <= j < i ==> s@[k + j] == pat@[j],
        decreases pat@.len() - i,
    {
        if s[k + i] != pat[i] {
            assert(s@.subrange(k as int, k + pat@.len())[i as int] != pat@[i as int]);
            return false;
        }
        i = i + 1;
    }
    assert(s@.subrange(k as int, k + pat@.len()) =~= pat@);
    true
}

/// The first index at or after `from` where `pat` occurs in `s`.
pub fn find_bytes(s: &[u8], pat: &[u8], from: usize) -> (r: Option<usize>)
    ensures
        r matches Some(k) ==> find_from(s@, pat@, from as int) == Some(k as int),
        r is None ==> find_from(s@, pat@, from as int) is None,
{
    if pat.len() > s.len() {
        return None;
    }
    let n = s.len();
    let last = n - pat.len();
    let mut k = from;
    while k < n && k <= last
        invariant
            n == s@.len(),
            from <= k,
            last + pat@.len() == s@.len(),
            find_from(s@, pat@, from as int) == find_from(s@, pat@, k as int),
        decreases s@.len() - k,
    {
        if matches_at(s, pat, k) {
            return Some(k);
        }
        k = k + 1;
    }
    None
}

/// The bytes of `"data"`, quotes included.
pub open spec fn data_token() -> Seq<u8> {
    seq![34u8, 100, 97, 116, 97, 34]
}

/// The bytes of `"embedding"`, quotes included.
pub open spec fn embedding_token() -> Seq<u8> {
    seq![34u8, 101, 109, 98, 101, 100, 100, 105, 110, 103, 34]
}

/// The bytes of `"error"`, quotes included.
pub open spec fn error_token() -> Seq<u8> {
    seq![34u8, 101, 114, 114, 111, 114, 34]
}

/// The bytes of `"message"`, quotes included.
pub open spec fn message_token() -> Seq<u8> {
    seq![34u8, 109, 101, 115, 115, 97, 103, 101, 34]
}

/// The byte `[` as a pattern.
pub open spec fn open_bracket() -> Seq<u8> {
    seq![91u8]
}

/// The byte `]` as a pattern.
pub open spec fn close_bracket() -> Seq<u8> {
    seq![93u8]
}

/// The byte `:` as a pattern.
pub open spec fn colon() -> Seq<u8> {
    seq![58u8]
}

/// The byte `"` as a pattern.
pub open spec fn quote() -> Seq<u8> {
    seq![34u8]
}

/// `r` with the spans `acc` put in front of its spans, if it is `Ok`.
pub open spec fn after(acc: Seq<Span>, r: Result<Seq<Span>, ExtractError>) -> Result<
    Seq<Span>,
    ExtractError,
> {
    match r {
        Ok(q) => Ok(acc + q),
        Err(e) => Err(e),
    }
}

proof fn lemma_after_after(a: Seq<Span>, b: Seq<Span>, r: Result<Seq<Span>, ExtractError>)
    ensures
        after(a, after(b, r)) == after(a + b, r),
{
    if let Ok(q) = r {
        assert(a + (b + q) =~= a + b + q);
    }
}

/// The contents of the embedding arrays found in `s` from `pos` on, in order.
pub open spec fn embedding_spans_from(s: Seq<u8>, pos: int) -> Result<Seq<Span>, ExtractError>
    decreases s.len() - pos,
{
    match find_from(s, embedding_token(), pos) {
        None => Ok(seq![]),
        Some(e) => match find_from(s, open_bracket(), e) {
            None => Err(ExtractError::NoEmbeddingArray),
            Some(b) => match find_from(s, close_bracket(), b) {
                None => Err(ExtractError::NoEmbeddingEnd),
                Some(c) => {
                    let here = Span { start: (b + 1) as usize, end: c as usize };
                    // `pos <= e <= b <= c < s.len()` always holds (`lemma_find_from`)
                    if pos < c + 1 <= s.len() {
                        after(seq![here], embedding_spans_from(s, c + 1))
                    } else {
                        Ok(seq![here])
                    }
                },
            },
        },
    }
}

/// The contents of the embedding arrays of a response, in order: none where
/// it has no `"data"` field.
pub open spec fn embedding_spans(s: Seq<u8>) -> Result<Seq<Span>, ExtractError> {
    match find_from(s, data_token(), 0) {
        None => Ok(seq![]),
        Some(d) => match find_from(s, open_bracket(), d) {
            None => Err(ExtractError::NoDataArray),
            Some(a) => embedding_spans_from(s, a),
        },
    }
}

fn data_bytes() -> (r: [u8; 6])
    ensures
        r@ == data_token(),
{
    [34, 100, 97, 116, 97, 34]
}

fn embedding_bytes() -> (r: [u8; 11])
    ensures
        r@ == embedding_token(),
{
    [34, 101, 109, 98, 101, 100, 100, 105, 110, 103, 34]
}

/// Locates the embedding arrays of a response: the `"data"` field, the `[`
/// after it, and from there each `"embedding"` field with the bytes between
/// the `[` and the `]` that follow it. Scanning resumes after each `]`.
pub fn scan_embedding_arrays(json: &[u8]) -> (r: Result<Vec<Span>, ExtractError>)
    ensures
        r is Ok <==> embedding_spans(json@) is Ok,
        r matches Ok(v) ==> v@ == embedding_spans(json@)->Ok_0,
        r matches Err(e) ==> e == embedding_spans(json@)->Err_0,
        r matches Ok(v) ==> spans_in_order(v@, 0, json@.len() as int),
{
    let n = json.len();
    proof {
        embedding_spans_in_order(json@);
    }
    let data_arr = data_bytes();
    let embedding_arr = embedding_bytes();
    let open_arr: [u8; 1] = [91];
    let close_arr: [u8; 1] = [93];
    let data = data_arr.as_slice();
    let embedding = embedding_arr.as_slice();
    let open = open_arr.as_slice();
    let close = close_arr.as_slice();
    assert(open@ == open_bracket());
    assert(close@ == close_bracket());
    let d = match find_bytes(json, data, 0) {
        None => return Ok(Vec::new()),
        Some(d) => d,
    };
    let a = match find_bytes(json, open, d) {
        None => return Err(ExtractError::NoDataArray),
        Some(a) => a,
    };
    let mut spans: Vec<Span> = Vec::new();
    let mut pos = a;
    proof {
        lemma_find_from(json@, open_bracket(), d as int);
    }
    while pos < n
        invariant
            n == json@.len(),
            embedding@ == embedding_token(),
            open@ == open_bracket(),
            close@ == close_bracket(),
            embedding_spans(json@) matches Ok(q) ==> spans_in_order(q, 0, json@.len() as int),
            embedding_spans(json@) == after(spans@, embedding_spans_from(json@, pos as int)),
        decreases n - pos,
    {
        let e = match find_bytes(json, embedding, pos) {
            None => {
                assert(spans@ + seq![] =~= spans@);
                return Ok(spans);
            },
            Some(e) => e,
        };
        proof {
            lemma_find_from(json@, embedding_token(), pos as int);
        }
        let b = match find_bytes(json, open, e) {
            None => {
                return Err(ExtractError::NoEmbeddingArray);
            },
            Some(b) => b,
        };
        proof {
            lemma_find_from(json@, open_bracket(), e as int);
        }
        let c = match find_bytes(json, close, b) {
            None => return Err(ExtractError::NoEmbeddingEnd),
            Some(c) => c,
        };
        proof {
            lemma_find_from(json@, close_bracket(), b as int);
            let here = Span { start: (b + 1) as usize, end: c as usize };
            lemma_after_after(spans@, seq![here], embedding_spans_from(json@, c + 1));
        }
        let ghost prev = spans@;
        spans.push(Span { start: b + 1, end: c });
        assert(spans@ =~= prev + seq![Span { start: (b + 1) as usize, end: c }]);
        pos = c + 1;
    }
    proof {
        lemma_find_from(json@, embedding_token(), pos as int);
        assert(spans@ + seq![] =~= spans@);
    }
    Ok(spans)
}

/// How many leading bytes of an unrecognised response a diagnostic keeps.
pub const SNIPPET_LEN: usize = 200;

/// How far the message of an error reaches when no closing quote follows it.
pub const MESSAGE_FALLBACK_LEN: usize = 100;

/// Where the message of an error stands, given the offset of its `"error"`
/// field: after the `"message"` field (else from `"error"` itself), past the
/// first `:`, between the next two `"`. A missing `:` or opening quote counts
/// as found right at the search start; a missing closing quote as lying
/// `MESSAGE_FALLBACK_LEN` bytes on. Both ends are clipped to the response.
pub open spec fn message_bounds(s: Seq<u8>, err: int) -> (int, int) {
    let m = match find_from(s, message_token(), err) {
        Some(m) => m,
        None => err,
    };
    let q1 = match find_from(s, colon(), m) {
        Some(c) => c,
        None => m,
    } + 1;
    let q2 = match find_from(s, quote(), q1) {
        Some(p) => p,
        None => q1,
    } + 1;
    let q3 = match find_from(s, quote(), q2) {
        Some(p) => p,
        None => q2 + MESSAGE_FALLBACK_LEN,
    };
    (if q2 < s.len() { q2 } else { s.len() as int }, if q3 < s.len() { q3 } else { s.len() as int })
}

/// How many bytes of a response of `len` bytes a parse-failure snippet keeps.
pub open spec fn snippet_len(len: int) -> int {
    if len < SNIPPET_LEN { len } else { SNIPPET_LEN as int }
}

/// Whether `e` is the error reported for response `s` when it yielded no
/// vectors: the message of its `"error"` field, or else a prefix of it.
pub open spec fn is_fallback_error(s: Seq<u8>, e: ExtractError) -> bool {
    match find_from(s, error_token(), 0) {
        Some(err) => e matches ExtractError::ApiError(m) && m@ == s.subrange(
            message_bounds(s, err).0,
            message_bounds(s, err).1,
        ),
        None => e matches ExtractError::ParseFailure(p) && p@ == s.take(snippet_len(s.len() as int)),
    }
}

fn error_bytes() -> (r: [u8; 7])
    ensures
        r@ == error_token(),
{
    [34, 101, 114, 114, 111, 114, 34]
}

fn message_bytes() -> (r: [u8; 9])
    ensures
        r@ == message_token(),
{
    [34, 109, 101, 115, 115, 97, 103, 101, 34]
}

/// The bytes `lo..hi` of `s`.
fn copy_range(s: &[u8], lo: usize, hi: usize) -> (r: Vec<u8>)
    requires
        lo <= hi <= s@.len(),
    ensures
        r@ == s@.subrange(lo as int, hi as int),
{
    let mut r: Vec<u8> = Vec::new();
    let mut i = lo;
    while i < hi
        invariant
            lo <= i <= hi <= s@.len(),
            r@ == s@.subrange(lo as int, i as int),
        decreases hi - i,
    {
        r.push(s[i]);
        assert(s@.subrange(lo as int, i + 1) =~= s@.subrange(lo as int, i as int).push(s@[i as int]));
        i = i + 1;
    }
    r
}

/// The error for a response that yielded no vectors: the message of its
/// `"error"` field where it has one, else its first `SNIPPET_LEN` bytes.
pub fn fallback_error(json: &[u8]) -> (r: ExtractError)
    ensures
        is_fallback_error(json@, r),
{
    let n = json.len();
    let error_arr = error_bytes();
    let message_arr = message_bytes();
    let colon_arr: [u8; 1] = [58];
    let quote_arr: [u8; 1] = [34];
    let colon_pat = colon_arr.as_slice();
    let quote_pat = quote_arr.as_slice();
    assert(colon_pat@ == colon());
    assert(quote_pat@ == quote());
    let err = match find_bytes(json, error_arr.as_slice(), 0) {
        None => {
            let k = if n < SNIPPET_LEN { n } else { SNIPPET_LEN };
            let p = copy_range(json, 0, k);
            assert(json@.subrange(0, k as int) =~= json@.take(k as int));
            return ExtractError::ParseFailure(p);
        },
        Some(err) => err,
    };
    proof {
        lemma_find_from(json@, error_token(), 0);
    }
    let m = match find_bytes(json, message_arr.as_slice(), err) {
        Some(m) => m,
        None => err,
    };
    proof {
        lemma_find_from(json@, message_token(), err as int);
    }
    let c = match find_bytes(json, colon_pat, m) {
        Some(c) => c,
        None => m,
    };
    proof {
        lemma_find_from(json@, colon(), m as int);
    }
    let q1 = c + 1;
    let (lo, hi) = match find_bytes(json, quote_pat, q1) {
        Some(p) => {
            proof {
                lemma_find_from(json@, quote(), q1 as int);
                lemma_find_from(json@, quote(), p + 1);
            }
            match find_bytes(json, quote_pat, p + 1) {
                Some(p3) => (p + 1, p3),
                None => (p + 1, if n - (p + 1) <= MESSAGE_FALLBACK_LEN { n } else { p + 1 + MESSAGE_FALLBACK_LEN }),
            }
        },
        None => {
            proof {
                lemma_find_from(json@, quote(), q1 as int);
                lemma_find_from(json@, quote(), q1 + 1);
            }
            let lo = if q1 < n { q1 + 1 } else { n };
            (lo, if n - lo <= MESSAGE_FALLBACK_LEN { n } else { lo + MESSAGE_FALLBACK_LEN })
        },
    };
    ExtractError::ApiError(copy_range(json, lo, hi))
}

/// The first index in `from..end` that holds a `,`, or `end` where none does.
pub open spec fn next_comma(s: Seq<u8>, from: int, end: int) -> int
    decreases end - from,
{
    if from >= end {
        end
    } else if s[from] == 44u8 {
        from
    } else {
        next_comma(s, from + 1, end)
    }
}

proof fn lemma_next_comma(s: Seq<u8>, from: int, end: int)
    requires
        from <= end,
    ensures
        from <= next_comma(s, from, end) <= end,
        forall|j: int| from <= j < next_comma(s, from, end) ==> s[j] != 44u8,
        next_comma(s, from, end) < end ==> s[next_comma(s, from, end)] == 44u8,
    decreases end - from,
{
    if from < end && s[from] != 44u8 {
        lemma_next_comma(s, from + 1, end);
    }
}

/// The pieces of `start..end` between the `,` in it, in order. Every range
/// yields at least one piece, the empty range one empty piece.
pub open spec fn pieces_from(s: Seq<u8>, start: int, end: int) -> Seq<Span>
    decreases end - start,
{
    let c = next_comma(s, start, end);
    if c >= end {
        seq![Span { start: start as usize, end: end as usize }]
    } else if start <= c {
        seq![Span { start: start as usize, end: c as usize }] + pieces_from(s, c + 1, end)
    } else {
        // never the case: see `lemma_next_comma`
        seq![]
    }
}

/// Splits the bytes `span` of `json` at each `,`: the pieces, untrimmed, in
/// order.
pub fn split_pieces(json: &[u8], span: Span) -> (r: Vec<Span>)
    requires
        span.start <= span.end <= json@.len(),
    ensures
        r@ == pieces_from(json@, span.start as int, span.end as int),
{
    let end = span.end;
    let mut pieces: Vec<Span> = Vec::new();
    let mut start = span.start;
    let mut i = span.start;
    proof {
        lemma_next_comma(json@, start as int, end as int);
    }
    while i < end
        invariant
            span.start <= start <= i <= end == span.end <= json@.len(),
            next_comma(json@, start as int, end as int) == next_comma(json@, i as int, end as int),
            pieces_from(json@, span.start as int, end as int) == pieces@ + pieces_from(
                json@,
                start as int,
                end as int,
            ),
        decreases end - i,
    {
        if json[i] == 44u8 {
            proof {
                lemma_next_comma(json@, (i + 1) as int, end as int);
            }
            let ghost prev = pieces@;
            pieces.push(Span { start, end: i });
            assert(pieces_from(json@, start as int, end as int) == seq![
                Span { start, end: i },
            ] + pieces_from(json@, i + 1, end as int));
            assert(pieces@ + pieces_from(json@, i + 1, end as int) =~= prev + (seq![
                Span { start, end: i },
            ] + pieces_from(json@, i + 1, end as int)));
            start = i + 1;
        }
        i = i + 1;
    }
    let ghost prev = pieces@;
    pieces.push(Span { start, end });
    assert(pieces@ =~= prev + pieces_from(json@, start as int, end as int));
    pieces
}

/// The values of each vector of `vs`.
pub open spec fn views<T>(vs: Seq<Vec<T>>) -> Seq<Seq<T>> {
    vs.map_values(|v: Vec<T>| v@)
}

/// The arrays of `arrays` that hold at least `DIM` values, each cut to its
/// first `DIM`, in order.
pub open spec fn full_vectors<T>(arrays: Seq<Seq<T>>) -> Seq<Seq<T>>
    decreases arrays.len(),
{
    if arrays.len() == 0 {
        seq![]
    } else {
        let rest = full_vectors(arrays.drop_last());
        if arrays.last().len() >= DIM {
            rest.push(arrays.last().take(DIM as int))
        } else {
            rest
        }
    }
}

/// Keeps the arrays that hold at least `DIM` values, each cut to its first
/// `DIM`; shorter ones are dropped, never padded.
pub fn keep_full_vectors<T: Copy>(arrays: &Vec<Vec<T>>) -> (r: Vec<Vec<T>>)
    ensures
        views(r@) == full_vectors(views(arrays@)),
{
    let mut kept: Vec<Vec<T>> = Vec::new();
    let mut i: usize = 0;
    while i < arrays.len()
        invariant
            i <= arrays@.len(),
            views(kept@) == full_vectors(views(arrays@).take(i as int)),
        decreases arrays@.len() - i,
    {
        let a = &arrays[i];
        assert(views(arrays@).take(i + 1).drop_last() =~= views(arrays@).take(i as int));
        if a.len() >= DIM {
            let mut v: Vec<T> = Vec::new();
            let mut k: usize = 0;
            while k < DIM
                invariant
                    k <= DIM <= a@.len(),
                    v@ == a@.take(k as int),
                decreases DIM - k,
            {
                v.push(a[k]);
                assert(a@.take(k + 1) =~= a@.take(k as int).push(a@[k as int]));
                k = k + 1;
            }
            let ghost prev = kept@;
            kept.push(v);
            assert(views(kept@) =~= views(prev).push(v@));
        }
        i = i + 1;
    }
    assert(views(arrays@).take(arrays@.len() as int) =~= views(arrays@));
    kept
}

/// The outcome of a response whose embedding arrays parsed to `arrays`: the
/// arrays of at least `DIM` values, cut to `DIM`, where there is one; else
/// the error that the response itself reports, or a prefix of it.
pub fn collect_vectors<T: Copy>(json: &[u8], arrays: &Vec<Vec<T>>) -> (r: Result<
    Vec<Vec<T>>,
    ExtractError,
>)
    ensures
        r is Ok <==> full_vectors(views(arrays@)).len() > 0,
        r matches Ok(v) ==> views(v@) == full_vectors(views(arrays@)),
        r matches Err(e) ==> is_fallback_error(json@, e),
{
    let kept = keep_full_vectors(arrays);
    if kept.len() > 0 {
        Ok(kept)
    } else {
        Err(fallback_error(json))
    }
}

/// An array of at least `DIM` values alone yields one vector: its first
/// `DIM` values.
pub proof fn full_vectors_truncate<T>(a: Seq<T>)
    requires
        a.len() >= DIM,
    ensures
        full_vectors(seq![a]) == seq![a.take(DIM as int)],
{
    assert(seq![a].drop_last() =~= Seq::<Seq<T>>::empty());
    assert(full_vectors(Seq::<Seq<T>>::empty()).push(a.take(DIM as int)) =~= seq![a.take(DIM as int)]);
}

/// An array of fewer than `DIM` values yields no vector.
pub proof fn full_vectors_drop_short<T>(a: Seq<T>)
    requires
        a.len() < DIM,
    ensures
        full_vectors(seq![a]) == Seq::<Seq<T>>::empty(),
{
    assert(seq![a].drop_last() =~= Seq::<Seq<T>>::empty());
    assert(full_vectors(Seq::<Seq<T>>::empty()) == Seq::<Seq<T>>::empty());
    assert(seq![a].last() == a);
}

/// Two full arrays yield their vectors in the order the arrays came in.
pub proof fn full_vectors_keep_order<T>(a: Seq<T>, b: Seq<T>)
    requires
        a.len() >= DIM,
        b.len() >= DIM,
    ensures
        full_vectors(seq![a, b]) == seq![a.take(DIM as int), b.take(DIM as int)],
{
    full_vectors_truncate(a);
    assert(seq![a, b].drop_last() =~= seq![a]);
    assert(seq![a.take(DIM as int)].push(b.take(DIM as int)) =~= seq![
        a.take(DIM as int),
        b.take(DIM as int),
    ]);
}

/// Where a response has no `"error"` field, its error is a parse failure
/// that carries a prefix of it of at most `SNIPPET_LEN` bytes.
pub proof fn parse_failure_is_short_prefix(s: Seq<u8>, e: ExtractError)
    requires
        is_fallback_error(s, e),
        find_from(s, error_token(), 0) is None,
    ensures
        e matches ExtractError::ParseFailure(p) ==> p@.len() <= SNIPPET_LEN && p@ == s.take(
            p@.len() as int,
        ),
        e is ParseFailure,
{
}

/// Whether the spans of `q` lie in order within `lo..hi`, each ending
/// before the next begins.
pub open spec fn spans_in_order(q: Seq<Span>, lo: int, hi: int) -> bool {
    &&& forall|i: int| 0 <= i < q.len() ==> lo <= #[trigger] q[i].start <= q[i].end <= hi
    &&& forall|i: int, j: int| 0 <= i < j < q.len() ==> #[trigger] q[i].end < #[trigger] q[j].start
}

proof fn lemma_spans_from_in_order(s: Seq<u8>, pos: int)
    requires
        0 <= pos,
        s.len() <= usize::MAX,
    ensures
        embedding_spans_from(s, pos) matches Ok(q) ==> spans_in_order(q, pos + 1, s.len() - 1),
    decreases s.len() - pos,
{
    lemma_find_from(s, embedding_token(), pos);
    if let Some(e) = find_from(s, embedding_token(), pos) {
        lemma_find_from(s, open_bracket(), e);
        if let Some(b) = find_from(s, open_bracket(), e) {
            lemma_find_from(s, close_bracket(), b);
            if let Some(c) = find_from(s, close_bracket(), b) {
                assert(s.subrange(b, b + 1)[0] == s[b]);
                assert(s.subrange(c, c + 1)[0] == s[c]);
                assert(b < c);
                lemma_spans_from_in_order(s, c + 1);
                let here = Span { start: (b + 1) as usize, end: c as usize };
                assert(pos < c + 1 <= s.len());
                assert(here.start == b + 1 && here.end == c);
                if let Ok(rest) = embedding_spans_from(s, c + 1) {
                    let q = seq![here] + rest;
                    assert(embedding_spans_from(s, pos) == Ok::<Seq<Span>, ExtractError>(q));
                    assert forall|i: int| 0 <= i < q.len() implies pos + 1 <= #[trigger] q[i].start
                        <= q[i].end <= s.len() - 1 by {
                        if i > 0 {
                            assert(q[i] == rest[i - 1]);
                        }
                    }
                    assert forall|i: int, j: int| 0 <= i < j < q.len() implies #[trigger] q[i].end
                        < #[trigger] q[j].start by {
                        assert(q[j] == rest[j - 1]);
                        if i > 0 {
                            assert(q[i] == rest[i - 1]);
                        }
                    }
                }
            }
        }
    }
}

/// The embedding arrays of a response lie within it, in the order in which
/// they stand, none overlapping the next.
pub proof fn embedding_spans_in_order(s: Seq<u8>)
    requires
        s.len() <= usize::MAX,
    ensures
        embedding_spans(s) matches Ok(q) ==> spans_in_order(q, 0, s.len() as int),
{
    if let Some(d) = find_from(s, data_token(), 0) {
        lemma_find_from(s, data_token(), 0);
        if let Some(a) = find_from(s, open_bracket(), d) {
            lemma_find_from(s, open_bracket(), d);
            lemma_spans_from_in_order(s, a);
        }
    }
}

} // verus!
