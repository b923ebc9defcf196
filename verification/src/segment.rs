//! Verified machinery behind the text segmenter.
//!
//! The segmenter works on the character sequence of the input (`Seq<char>`),
//! while the length ceiling is measured in UTF-8 byte units, so every length
//! statement here goes through [`byte_len`], the length of the UTF-8 encoding
//! of a character sequence.  Pieces of the input are carried around as
//! [`Span`]s: half-open character-index ranges into the one input string.
//! Because every phase only ever refines or re-joins adjacent spans, the
//! output provably partitions the input, and concatenating the output
//! segments reconstructs the input exactly.

use vstd::prelude::*;
use vstd::utf8::encode_utf8;

verus! {

broadcast use vstd::slice::group_slice_axioms;

/// Maximum byte length the voice-synthesis endpoint accepts in one request.
pub const TTS_MAX_INPUT_LENGTH: usize = 1000;

/// Length in bytes of the UTF-8 encoding of a character sequence.
#[verifier::opaque]
pub open spec fn byte_len(s: Seq<char>) -> nat {
    encode_utf8(s).len()
}

/// The UTF-8 length of a concatenation is the sum of the UTF-8 lengths.
pub proof fn lemma_byte_len_concat(s: Seq<char>, t: Seq<char>)
    ensures
        byte_len(s + t) == byte_len(s) + byte_len(t),
    decreases s.len(),
{
    reveal(byte_len);
    if s.len() == 0 {
        assert(s + t =~= t);
    } else {
        assert((s + t).drop_first() =~= s.drop_first() + t);
        lemma_byte_len_concat(s.drop_first(), t);
    }
}

/// Splitting a character range anywhere splits its UTF-8 length additively.
pub proof fn lemma_byte_len_split(s: Seq<char>, a: int, b: int, c: int)
    requires
        0 <= a <= b <= c <= s.len(),
    ensures
        byte_len(s.subrange(a, c)) == byte_len(s.subrange(a, b)) + byte_len(s.subrange(b, c)),
{
    assert(s.subrange(a, c) =~= s.subrange(a, b) + s.subrange(b, c));
    lemma_byte_len_concat(s.subrange(a, b), s.subrange(b, c));
}

/// One space-like character: the word separators of the wrap fallback.
pub open spec fn is_space_char(c: char) -> bool {
    c == ' ' || c == '\t' || c == '\n' || c == '\r'
}

/// The pattern occurs in `s` at character position `i`.
pub open spec fn matches_at(s: Seq<char>, i: int, pat: Seq<char>) -> bool {
    &&& 0 <= i
    &&& i + pat.len() <= s.len()
    &&& (forall|j: int| 0 <= j < pat.len() ==> s[i + j] == pat[j])
}

/// Length in characters of the natural-boundary pattern found at position
/// `i` of `s`, or 0 when none occurs there.  The patterns mark points where
/// speech naturally pauses; they are tried in the fixed order of this table,
/// and the first that matches wins, which is also how a left-to-right,
/// non-overlapping alternation scan behaves.
#[verifier::opaque]
pub open spec fn delim_len_at(s: Seq<char>, i: int) -> int {
    if matches_at(s, i, seq![',']) {
        1
    } else if matches_at(s, i, seq!['.', ' ']) {
        2
    } else if matches_at(s, i, seq!['.', '"']) {
        2
    } else if matches_at(s, i, seq![',', '"']) {
        2
    } else if matches_at(s, i, seq!['?', ' ']) {
        2
    } else if matches_at(s, i, seq!['?', '"']) {
        2
    } else if matches_at(s, i, seq!['!', ' ']) {
        2
    } else if matches_at(s, i, seq!['!', '"']) {
        2
    } else if matches_at(s, i, seq!['\n', '\n']) {
        2
    } else if matches_at(s, i, seq!['\n']) {
        1
    } else if matches_at(s, i, seq!['.', '.', '.']) {
        3
    } else if matches_at(s, i, seq!['\u{2026}']) {
        1
    } else {
        0
    }
}

/// No character of the sequence is whitespace: a single unbroken token.
pub open spec fn whitespace_free(t: Seq<char>) -> bool {
    forall|p: int| 0 <= p < t.len() ==> !is_space_char(#[trigger] t[p])
}

/// A half-open range of character indices into the input.
#[derive(Clone, Copy, Debug)]
pub struct Span {
    pub lo: usize,
    pub hi: usize,
}

/// The spans form a gapless, non-empty-piece partition of `[lo, hi)`.
pub open spec fn is_chain(spans: Seq<Span>, lo: int, hi: int) -> bool {
    &&& (spans.len() == 0 ==> lo == hi)
    &&& (spans.len() > 0 ==> spans[0].lo == lo && spans[spans.len() - 1].hi == hi)
    &&& (forall|k: int| 0 <= k < spans.len() ==> (#[trigger] spans[k]).lo < spans[k].hi)
    &&& (forall|k: int| 0 <= k < spans.len() - 1 ==> (#[trigger] spans[k]).hi == spans[k + 1].lo)
}

/// Byte length of the characters a span covers.
pub open spec fn span_bytes(s: Seq<char>, sp: Span) -> nat {
    byte_len(s.subrange(sp.lo as int, sp.hi as int))
}

/// The span is exactly one natural-boundary occurrence.
pub open spec fn span_is_delim(s: Seq<char>, sp: Span) -> bool {
    sp.lo < sp.hi && delim_len_at(s, sp.lo as int) == sp.hi - sp.lo
}

/// No natural boundary occurs at any position inside the span.
pub open spec fn span_is_clear(s: Seq<char>, sp: Span) -> bool {
    forall|p: int| sp.lo <= p < sp.hi ==> delim_len_at(s, p) == 0
}

/// A piece the wrap phase may hand on: strictly under the ceiling, or a
/// single whitespace-free token that no break point can shorten.
pub open spec fn wrapped_ok(s: Seq<char>, sp: Span) -> bool {
    span_bytes(s, sp) < TTS_MAX_INPUT_LENGTH || whitespace_free(
        s.subrange(sp.lo as int, sp.hi as int),
    )
}

/// Position `p` is a natural place to cut the input: a boundary pattern
/// starts there, or a boundary pattern ends there, or the cut lies beside
/// whitespace (a word or a whitespace run ends or begins there) — never
/// inside a word.
#[verifier::opaque]
pub open spec fn natural_break(s: Seq<char>, p: int) -> bool {
    ||| delim_len_at(s, p) > 0
    ||| (exists|q: int| p - 3 <= q < p && #[trigger] delim_len_at(s, q) == p - q)
    ||| (0 < p < s.len() && (is_space_char(s[p - 1]) || is_space_char(s[p])))
}

/// The two adjacent spans joined into one.
pub open spec fn span_join(a: Span, b: Span) -> Span {
    Span { lo: a.lo, hi: b.hi }
}

/// The greedy left-to-right re-merge of a piece chain, with `cur` as the
/// open accumulator segment: each piece is appended to `cur` while the
/// joined segment stays strictly under the ceiling, and otherwise `cur`
/// is emitted and the piece opens the next segment.
#[verifier::opaque]
pub open spec fn greedy_merge_from(s: Seq<char>, pieces: Seq<Span>, cur: Span) -> Seq<Span>
    decreases pieces.len(),
{
    if pieces.len() == 0 {
        seq![cur]
    } else if span_bytes(s, span_join(cur, pieces[0])) < TTS_MAX_INPUT_LENGTH {
        greedy_merge_from(s, pieces.drop_first(), span_join(cur, pieces[0]))
    } else {
        seq![cur] + greedy_merge_from(s, pieces.drop_first(), pieces[0])
    }
}

/// The greedy re-merge of a non-empty piece chain, first piece first.
pub open spec fn greedy_merge(s: Seq<char>, pieces: Seq<Span>) -> Seq<Span>
    recommends
        pieces.len() > 0,
{
    greedy_merge_from(s, pieces.drop_first(), pieces[0])
}

/// The text each span of the sequence cuts out of `s`.
pub open spec fn views_of_spans(s: Seq<char>, spans: Seq<Span>) -> Seq<Seq<char>> {
    spans.map_values(|sp: Span| s.subrange(sp.lo as int, sp.hi as int))
}

/// `b` is where one of the spans (other than the first) begins.
#[verifier::opaque]
pub open spec fn boundary_of(spans: Seq<Span>, b: int) -> bool {
    exists|i: int| 1 <= i < spans.len() && (#[trigger] spans[i]).lo == b
}

/// `b` lies strictly inside a span that is at or over the ceiling.
#[verifier::opaque]
pub open spec fn inside_oversized(s: Seq<char>, spans: Seq<Span>, b: int) -> bool {
    exists|i: int|
        0 <= i < spans.len() && (#[trigger] spans[i]).lo < b < spans[i].hi && span_bytes(
            s,
            spans[i],
        ) >= TTS_MAX_INPUT_LENGTH
}

/// The delimiter-preserving coarse split of `s`: a partition into spans
/// that are each a single natural-boundary occurrence or match-free, with
/// no two adjacent match-free spans.  These clauses force the chain left
/// to right: where a pattern matches, the span there must be that match,
/// and a match-free span must reach exactly to the next match.
pub open spec fn coarse_chain_ok(s: Seq<char>, coarse: Seq<Span>) -> bool {
    &&& is_chain(coarse, 0, s.len() as int)
    &&& (forall|k: int|
        0 <= k < coarse.len() ==> span_is_delim(s, #[trigger] coarse[k]) || span_is_clear(
            s,
            coarse[k],
        ))
    &&& (forall|k: int|
        #![trigger coarse[k - 1], coarse[k]]
        1 <= k < coarse.len() ==> span_is_delim(s, coarse[k - 1]) || span_is_delim(s, coarse[k]))
}

/// `pieces` is the coarse chain with its oversized spans word-wrapped:
/// every piece is under the ceiling or a whitespace-free token, every
/// piece begins at a natural break, every coarse boundary is kept, and
/// any boundary the wrap added lies strictly inside a coarse span that
/// was at or over the ceiling.
pub open spec fn wrap_refines(s: Seq<char>, coarse: Seq<Span>, pieces: Seq<Span>) -> bool {
    &&& is_chain(pieces, 0, s.len() as int)
    &&& (forall|j: int| 0 <= j < pieces.len() ==> wrapped_ok(s, #[trigger] pieces[j]))
    &&& (forall|j: int| 1 <= j < pieces.len() ==> natural_break(s, (#[trigger] pieces[j]).lo as int))
    &&& (forall|i: int|
        1 <= i < coarse.len() ==> boundary_of(pieces, (#[trigger] coarse[i]).lo as int))
    &&& (forall|j: int|
        1 <= j < pieces.len() ==> boundary_of(coarse, (#[trigger] pieces[j]).lo as int)
            || inside_oversized(s, coarse, pieces[j].lo as int))
}

/// The whole segmentation pipeline, stated relationally: `coarse` is the
/// coarse split of `s`, `pieces` refines it by word-wrapping oversized
/// spans, and the segments are exactly the greedy re-merge of the pieces.
pub open spec fn segmentation_of(
    s: Seq<char>,
    coarse: Seq<Span>,
    pieces: Seq<Span>,
    segs: Seq<String>,
) -> bool {
    &&& coarse_chain_ok(s, coarse)
    &&& wrap_refines(s, coarse, pieces)
    &&& pieces.len() > 0
    &&& seg_views(segs) == views_of_spans(s, greedy_merge(s, pieces))
}

/// Every span of a chain lies between the chain's endpoints.
pub proof fn lemma_chain_bounds(spans: Seq<Span>, lo: int, hi: int)
    requires
        is_chain(spans, lo, hi),
    ensures
        lo <= hi,
        forall|k: int|
            0 <= k < spans.len() ==> lo <= (#[trigger] spans[k]).lo < spans[k].hi <= hi,
    decreases spans.len(),
{
    if spans.len() > 0 {
        let rest = spans.drop_first();
        assert(is_chain(rest, spans[0].hi as int, hi)) by {
            assert(forall|k: int|
                0 <= k < rest.len() - 1 ==> (#[trigger] rest[k]).hi == rest[k + 1].lo) by {
                assert(forall|k: int|
                    0 <= k < rest.len() ==> #[trigger] rest[k] == spans[k + 1]);
            }
        }
        lemma_chain_bounds(rest, spans[0].hi as int, hi);
        assert(forall|k: int| 1 <= k < spans.len() ==> #[trigger] spans[k] == rest[k - 1]);
    }
}

/// Two chains that meet end to start join into one chain.
pub proof fn lemma_chain_join(a: Seq<Span>, b: Seq<Span>, x: int, y: int, z: int)
    requires
        is_chain(a, x, y),
        is_chain(b, y, z),
    ensures
        is_chain(a + b, x, z),
{
    let c = a + b;
    assert(forall|k: int| 0 <= k < a.len() ==> #[trigger] c[k] == a[k]);
    assert(forall|k: int| a.len() <= k < c.len() ==> #[trigger] c[k] == b[k - a.len()]);
    if a.len() == 0 {
        assert(c =~= b);
    } else if b.len() == 0 {
        assert(c =~= a);
    } else {
        assert(c[a.len() - 1].hi == y == c[a.len() as int].lo);
    }
}

/// Concatenating the pieces a chain cuts out of `s` yields the part of `s`
/// the chain covers.
pub open spec fn concat_all(parts: Seq<Seq<char>>) -> Seq<char>
    decreases parts.len(),
{
    if parts.len() == 0 {
        Seq::empty()
    } else {
        parts[0] + concat_all(parts.drop_first())
    }
}

/// The views of a sequence of owned strings.
pub open spec fn seg_views(segs: Seq<String>) -> Seq<Seq<char>> {
    segs.map_values(|t: String| t@)
}

/// Character length of the first `k` parts together: the position in the
/// reconstructed input at which the `k`-th part begins.
pub open spec fn prefix_len(parts: Seq<Seq<char>>, k: int) -> int
    decreases k,
{
    if k <= 0 {
        0
    } else {
        prefix_len(parts, k - 1) + parts[k - 1].len()
    }
}

pub proof fn lemma_chain_concat_views(s: Seq<char>, spans: Seq<Span>, parts: Seq<Seq<char>>, lo: int)
    requires
        is_chain(spans, lo, s.len() as int),
        0 <= lo <= s.len(),
        parts.len() == spans.len(),
        forall|k: int|
            0 <= k < spans.len() ==> #[trigger] parts[k] == s.subrange(
                spans[k].lo as int,
                spans[k].hi as int,
            ),
    ensures
        concat_all(parts) == s.subrange(lo, s.len() as int),
    decreases spans.len(),
{
    if spans.len() == 0 {
        assert(s.subrange(lo, s.len() as int) =~= Seq::<char>::empty());
    } else {
        lemma_chain_bounds(spans, lo, s.len() as int);
        let mid = spans[0].hi as int;
        let rest = spans.drop_first();
        assert(is_chain(rest, mid, s.len() as int)) by {
            assert(forall|k: int|
                0 <= k < rest.len() ==> #[trigger] rest[k] == spans[k + 1]);
        }
        assert(forall|k: int|
            0 <= k < rest.len() ==> #[trigger] parts.drop_first()[k] == parts[k + 1]);
        lemma_chain_concat_views(s, rest, parts.drop_first(), mid);
        assert(s.subrange(lo, s.len() as int) =~= s.subrange(lo, mid) + s.subrange(
            mid,
            s.len() as int,
        ));
    }
}

/// Collects the input characters into a vector for constant-time indexing.
pub fn chars_of(text: &str) -> (v: Vec<char>)
    ensures
        v@ == text@,
{
    let n = text.unicode_len();
    let mut v: Vec<char> = Vec::new();
    let mut i: usize = 0;
    while i < n
        invariant
            n == text@.len(),
            i <= n,
            v@ =~= text@.subrange(0, i as int),
        decreases n - i,
    {
        v.push(text.get_char(i));
        i = i + 1;
    }
    assert(v@ =~= text@);
    v
}

/// Byte length of the characters of `text` between the character indices
/// `lo` and `hi`.
pub fn range_bytes(text: &str, lo: usize, hi: usize) -> (n: usize)
    requires
        lo <= hi <= text@.len(),
    ensures
        n == byte_len(text@.subrange(lo as int, hi as int)),
{
    let sub = text.substring_char(lo, hi);
    let bytes = sub.as_bytes();
    proof {
        reveal(byte_len);
    }
    bytes.len()
}

/// Executable counterpart of [`is_space_char`].
fn is_space(c: char) -> (b: bool)
    ensures
        b == is_space_char(c),
{
    c == ' ' || c == '\t' || c == '\n' || c == '\r'
}

proof fn lemma_matches1(s: Seq<char>, i: int, a: char)
    requires
        0 <= i < s.len(),
    ensures
        matches_at(s, i, seq![a]) <==> s[i] == a,
{
    assert(seq![a][0] == a);
    if s[i] == a {
        assert forall|j: int| 0 <= j < 1 implies s[i + j] == seq![a][j] by {
            assert(j == 0);
        }
    }
}

proof fn lemma_matches2(s: Seq<char>, i: int, a: char, b: char)
    requires
        0 <= i < s.len(),
    ensures
        matches_at(s, i, seq![a, b]) <==> (i + 2 <= s.len() && s[i] == a && s[i + 1] == b),
{
    assert(seq![a, b][0] == a && seq![a, b][1] == b);
    if i + 2 <= s.len() && s[i] == a && s[i + 1] == b {
        assert forall|j: int| 0 <= j < 2 implies s[i + j] == seq![a, b][j] by {
            assert(j == 0 || j == 1);
        }
    }
}

proof fn lemma_matches3(s: Seq<char>, i: int, a: char, b: char, c: char)
    requires
        0 <= i < s.len(),
    ensures
        matches_at(s, i, seq![a, b, c]) <==> (i + 3 <= s.len() && s[i] == a && s[i + 1] == b && s[i
            + 2] == c),
{
    assert(seq![a, b, c][0] == a && seq![a, b, c][1] == b && seq![a, b, c][2] == c);
    if i + 3 <= s.len() && s[i] == a && s[i + 1] == b && s[i + 2] == c {
        assert forall|j: int| 0 <= j < 3 implies s[i + j] == seq![a, b, c][j] by {
            assert(j == 0 || j == 1 || j == 2);
        }
    }
}

/// Executable counterpart of [`delim_len_at`]: width of the natural
/// boundary starting at `i`, or 0.
fn delim_width_at(v: &Vec<char>, i: usize) -> (w: usize)
    requires
        i < v@.len(),
    ensures
        w == delim_len_at(v@, i as int),
        i + w <= v@.len(),
        w <= 3,
{
    proof {
        reveal(delim_len_at);
        let s = v@;
        let ii = i as int;
        lemma_matches1(s, ii, ',');
        lemma_matches2(s, ii, '.', ' ');
        lemma_matches2(s, ii, '.', '"');
        lemma_matches2(s, ii, ',', '"');
        lemma_matches2(s, ii, '?', ' ');
        lemma_matches2(s, ii, '?', '"');
        lemma_matches2(s, ii, '!', ' ');
        lemma_matches2(s, ii, '!', '"');
        lemma_matches2(s, ii, '\n', '\n');
        lemma_matches1(s, ii, '\n');
        lemma_matches3(s, ii, '.', '.', '.');
        lemma_matches1(s, ii, '\u{2026}');
    }
    let n = v.len();
    let c0 = v[i];
    let r1 = n - i >= 2;
    if c0 == ',' {
        1
    } else if c0 == '.' && r1 && v[i + 1] == ' ' {
        2
    } else if c0 == '.' && r1 && v[i + 1] == '"' {
        2
    } else if c0 == ',' && r1 && v[i + 1] == '"' {
        2
    } else if c0 == '?' && r1 && v[i + 1] == ' ' {
        2
    } else if c0 == '?' && r1 && v[i + 1] == '"' {
        2
    } else if c0 == '!' && r1 && v[i + 1] == ' ' {
        2
    } else if c0 == '!' && r1 && v[i + 1] == '"' {
        2
    } else if c0 == '\n' && r1 && v[i + 1] == '\n' {
        2
    } else if c0 == '\n' {
        1
    } else if c0 == '.' && n - i >= 3 && v[i + 1] == '.' && v[i + 2] == '.' {
        3
    } else if c0 == '\u{2026}' {
        1
    } else {
        0
    }
}

/// Coarse split of the whole input at natural speech boundaries, keeping
/// the delimiters: every matched boundary becomes its own span, the whole
/// text between two matches becomes one span (never two adjacent
/// match-free spans, so the output strictly alternates), and nothing is
/// dropped.  Matching walks left to right, non-overlapping, earliest
/// occurrence first.  Empty input yields no spans.
#[verifier::rlimit(60)]
pub(crate) fn coarse_split(v: &Vec<char>) -> (spans: Vec<Span>)
    ensures
        is_chain(spans@, 0, v@.len() as int),
        v@.len() > 0 ==> spans@.len() > 0,
        forall|k: int|
            0 <= k < spans@.len() ==> span_is_delim(v@, #[trigger] spans@[k]) || span_is_clear(
                v@,
                spans@[k],
            ),
        forall|k: int|
            #![trigger spans@[k - 1], spans@[k]]
            1 <= k < spans@.len() ==> span_is_delim(v@, spans@[k - 1]) || span_is_delim(
                v@,
                spans@[k],
            ),
        forall|k: int| 1 <= k < spans@.len() ==> natural_break(v@, (#[trigger] spans@[k]).lo as int),
{
    let n = v.len();
    let mut spans: Vec<Span> = Vec::new();
    let mut last_end: usize = 0;
    let mut p: usize = 0;
    while p < n
        invariant
            n == v@.len(),
            last_end <= p <= n,
            is_chain(spans@, 0, last_end as int),
            forall|q: int| last_end <= q < p ==> delim_len_at(v@, q) == 0,
            forall|k: int|
                0 <= k < spans@.len() ==> span_is_delim(v@, #[trigger] spans@[k]) || span_is_clear(
                    v@,
                    spans@[k],
                ),
            spans@.len() > 0 ==> span_is_delim(v@, spans@[spans@.len() - 1]) && spans@[spans@.len()
                - 1].hi - spans@[spans@.len() - 1].lo <= 3,
            forall|k: int|
                #![trigger spans@[k - 1], spans@[k]]
                1 <= k < spans@.len() ==> span_is_delim(v@, spans@[k - 1]) || span_is_delim(
                    v@,
                    spans@[k],
                ),
            forall|k: int|
                1 <= k < spans@.len() ==> natural_break(v@, (#[trigger] spans@[k]).lo as int),
        decreases n - p,
    {
        let w = delim_width_at(v, p);
        if w > 0 {
            if p > last_end {
                let gap = Span { lo: last_end, hi: p };
                proof {
                    assert(span_is_clear(v@, gap));
                    if spans@.len() > 0 {
                        let prev = spans@[spans@.len() - 1];
                        assert(delim_len_at(v@, prev.lo as int) == last_end - prev.lo);
                        assert(natural_break(v@, last_end as int)) by {
                            reveal(natural_break);
                        }
                    }
                }
                spans.push(gap);
            }
            let delim = Span { lo: p, hi: p + w };
            proof {
                assert(span_is_delim(v@, delim));
                assert(natural_break(v@, p as int)) by {
                    reveal(natural_break);
                }
            }
            spans.push(delim);
            last_end = p + w;
            p = p + w;
        } else {
            p = p + 1;
        }
    }
    if last_end < n {
        let tail = Span { lo: last_end, hi: n };
        proof {
            assert(span_is_clear(v@, tail));
            if spans@.len() > 0 {
                let prev = spans@[spans@.len() - 1];
                assert(delim_len_at(v@, prev.lo as int) == last_end - prev.lo);
                assert(natural_break(v@, last_end as int)) by {
                    reveal(natural_break);
                }
            }
        }
        spans.push(tail);
    }
    spans
}

/// End of the maximal run starting at `start` of characters that agree
/// with the first one on being whitespace.
fn run_end(v: &Vec<char>, start: usize, hi: usize) -> (e: usize)
    requires
        start < hi <= v@.len(),
    ensures
        start < e <= hi,
        forall|p: int|
            start <= p < e ==> is_space_char(#[trigger] v@[p]) == is_space_char(v@[start as int]),
        e < hi ==> is_space_char(v@[e as int]) != is_space_char(v@[start as int]),
{
    let sp = is_space(v[start]);
    let mut e: usize = start + 1;
    while e < hi && is_space(v[e]) == sp
        invariant
            start < e <= hi,
            hi <= v@.len(),
            sp == is_space_char(v@[start as int]),
            forall|p: int| start <= p < e ==> is_space_char(#[trigger] v@[p]) == sp,
        decreases hi - e,
    {
        e = e + 1;
    }
    e
}

/// Space characters are one UTF-8 byte each, so a whitespace run is as
/// many bytes as characters.
proof fn lemma_space_run_bytes(s: Seq<char>, a: int, b: int)
    requires
        0 <= a <= b <= s.len(),
        forall|p: int| a <= p < b ==> is_space_char(#[trigger] s[p]),
    ensures
        byte_len(s.subrange(a, b)) == b - a,
    decreases b - a,
{
    reveal(byte_len);
    if a < b {
        lemma_byte_len_split(s, a, a + 1, b);
        lemma_space_run_bytes(s, a + 1, b);
        let single = s.subrange(a, a + 1);
        assert(single.len() == 1 && single[0] == s[a]);
        assert(single.drop_first() =~= Seq::<char>::empty());
        assert(encode_utf8(Seq::<char>::empty()) =~= Seq::<u8>::empty());
        assert(encode_utf8(single) =~= vstd::utf8::encode_scalar(single[0] as u32) + encode_utf8(
            single.drop_first(),
        ));
        assert(vstd::utf8::has_width_1_encoding(s[a] as u32));
        assert(vstd::utf8::encode_scalar(s[a] as u32).len() == 1);
        assert(byte_len(single) == 1);
    } else {
        assert(s.subrange(a, b) =~= Seq::<char>::empty());
        assert(encode_utf8(Seq::<char>::empty()) =~= Seq::<u8>::empty());
    }
}

/// Greedy word-wrap of one oversized piece.  Alternating word and
/// whitespace runs are packed into a line while the line stays strictly
/// under the ceiling.  A word run that would overflow the line closes it
/// and starts the next one; a word run at or over the ceiling on its own
/// becomes one oversized line, and only such whitespace-free lines may
/// reach the ceiling.  A whitespace run that would overflow the line is
/// itself split: the line is filled to just under the ceiling and the
/// remaining spaces fill lines of their own, so the wrap stays lossless.
#[verifier::rlimit(100)]
pub(crate) fn wrap_span(text: &str, v: &Vec<char>, lo: usize, hi: usize) -> (lines: Vec<Span>)
    requires
        v@ == text@,
        lo < hi <= v@.len(),
    ensures
        is_chain(lines@, lo as int, hi as int),
        lines@.len() > 0,
        forall|k: int| 0 <= k < lines@.len() ==> wrapped_ok(v@, #[trigger] lines@[k]),
        forall|k: int| 1 <= k < lines@.len() ==> natural_break(v@, (#[trigger] lines@[k]).lo as int),
{
    let mut lines: Vec<Span> = Vec::new();
    let mut cur_lo: usize = lo;
    let mut p: usize = lo;
    while p < hi
        invariant
            v@ == text@,
            lo <= cur_lo <= p <= hi <= v@.len(),
            is_chain(lines@, lo as int, cur_lo as int),
            lines@.len() == 0 ==> cur_lo == lo,
            forall|k: int| 0 <= k < lines@.len() ==> wrapped_ok(v@, #[trigger] lines@[k]),
            cur_lo < p ==> span_bytes(v@, Span { lo: cur_lo, hi: p }) < TTS_MAX_INPUT_LENGTH,
            lo < p < hi ==> (is_space_char(v@[p - 1]) || is_space_char(v@[p as int])),
            lines@.len() > 0 && cur_lo < hi ==> natural_break(v@, cur_lo as int),
            forall|k: int|
                1 <= k < lines@.len() ==> natural_break(v@, (#[trigger] lines@[k]).lo as int),
        decreases hi - p,
    {
        let e = run_end(v, p, hi);
        let space_run = is_space(v[p]);
        let tot = range_bytes(text, cur_lo, e);
        if tot < TTS_MAX_INPUT_LENGTH {
            p = e;
        } else if !space_run {
            // the word run does not fit on the open line: close the line
            if cur_lo < p {
                let full = Span { lo: cur_lo, hi: p };
                proof {
                    assert(natural_break(v@, p as int)) by {
                        reveal(natural_break);
                    }
                    lemma_chain_join(lines@, seq![full], lo as int, cur_lo as int, p as int);
                    assert(lines@.push(full) =~= lines@ + seq![full]);
                }
                lines.push(full);
                cur_lo = p;
            }
            let wlen = range_bytes(text, p, e);
            if wlen >= TTS_MAX_INPUT_LENGTH {
                // a word the ceiling cannot accommodate passes through as
                // one oversized, whitespace-free line
                let over = Span { lo: p, hi: e };
                proof {
                    assert forall|q: int|
                        0 <= q < v@.subrange(p as int, e as int).len() implies !is_space_char(
                        #[trigger] v@.subrange(p as int, e as int)[q],
                    ) by {
                        assert(v@.subrange(p as int, e as int)[q] == v@[p + q]);
                    }
                    assert(wrapped_ok(v@, over));
                    if e < hi {
                        assert(natural_break(v@, e as int)) by {
                            reveal(natural_break);
                        }
                    }
                    lemma_chain_join(lines@, seq![over], lo as int, p as int, e as int);
                    assert(lines@.push(over) =~= lines@ + seq![over]);
                }
                lines.push(over);
                cur_lo = e;
            }
            p = e;
        } else {
            // the whitespace run overflows the line: fill the line to just
            // under the ceiling, and the remaining spaces fill their own
            let cur_len = range_bytes(text, cur_lo, p);
            proof {
                lemma_space_run_bytes(v@, p as int, e as int);
                lemma_byte_len_split(v@, cur_lo as int, p as int, e as int);
                lemma_byte_len_split(v@, p as int, p as int, p as int);
                assert(cur_len < TTS_MAX_INPUT_LENGTH);
                assert(TTS_MAX_INPUT_LENGTH - 1 - cur_len < e - p);
            }
            let m_first: usize = p + (TTS_MAX_INPUT_LENGTH - 1 - cur_len);
            let full = Span { lo: cur_lo, hi: m_first };
            proof {
                lemma_byte_len_split(v@, cur_lo as int, p as int, m_first as int);
                lemma_space_run_bytes(v@, p as int, m_first as int);
                assert(span_bytes(v@, full) < TTS_MAX_INPUT_LENGTH);
                assert(m_first == p ==> cur_lo < p);
                lemma_chain_join(lines@, seq![full], lo as int, cur_lo as int, m_first as int);
                assert(lines@.push(full) =~= lines@ + seq![full]);
            }
            lines.push(full);
            let mut m: usize = m_first;
            cur_lo = m;
            while e - m >= TTS_MAX_INPUT_LENGTH
                invariant
                    v@ == text@,
                    lo <= p <= m && m == cur_lo && m < e <= hi <= v@.len(),
                    m == p ==> lo < p,
                    is_chain(lines@, lo as int, m as int),
                    lines@.len() > 0,
                    forall|k: int| 0 <= k < lines@.len() ==> wrapped_ok(v@, #[trigger] lines@[k]),
                    forall|k: int|
                        1 <= k < lines@.len() ==> natural_break(
                            v@,
                            (#[trigger] lines@[k]).lo as int,
                        ),
                    forall|q: int| p <= q < e ==> is_space_char(#[trigger] v@[q]),
                decreases e - m,
            {
                let chunk_hi: usize = m + (TTS_MAX_INPUT_LENGTH - 1);
                let chunk = Span { lo: m, hi: chunk_hi };
                proof {
                    lemma_space_run_bytes(v@, m as int, chunk_hi as int);
                    assert(span_bytes(v@, chunk) < TTS_MAX_INPUT_LENGTH);
                    assert(is_space_char(v@[m as int]));
                    assert(natural_break(v@, m as int)) by {
                        reveal(natural_break);
                    }
                    lemma_chain_join(lines@, seq![chunk], lo as int, m as int, chunk_hi as int);
                    assert(lines@.push(chunk) =~= lines@ + seq![chunk]);
                }
                lines.push(chunk);
                m = chunk_hi;
                cur_lo = m;
            }
            proof {
                lemma_space_run_bytes(v@, m as int, e as int);
                assert(span_bytes(v@, Span { lo: m, hi: e }) < TTS_MAX_INPUT_LENGTH);
                assert(is_space_char(v@[m as int]));
                assert(natural_break(v@, m as int)) by {
                    reveal(natural_break);
                }
            }
            cur_lo = m;
            p = e;
        }
    }
    if cur_lo < hi {
        let last = Span { lo: cur_lo, hi };
        proof {
            lemma_chain_join(lines@, seq![last], lo as int, cur_lo as int, hi as int);
            assert(lines@.push(last) =~= lines@ + seq![last]);
        }
        lines.push(last);
    }
    lines
}

/// Where the prefix of the first `i` spans of a chain starting at 0 ends.
pub open spec fn prefix_end(spans: Seq<Span>, i: int) -> int {
    if i == 0 {
        0
    } else {
        spans[i - 1].hi as int
    }
}

/// Fallback pass over the coarse pieces: a piece strictly under the ceiling
/// is kept as it is; a piece at or over the ceiling is word-wrapped.
#[verifier::rlimit(100)]
pub(crate) fn wrap_all(text: &str, v: &Vec<char>, spans: &Vec<Span>) -> (out: Vec<Span>)
    requires
        v@ == text@,
        is_chain(spans@, 0, v@.len() as int),
        spans@.len() > 0,
        forall|k: int| 1 <= k < spans@.len() ==> natural_break(v@, (#[trigger] spans@[k]).lo as int),
    ensures
        is_chain(out@, 0, v@.len() as int),
        out@.len() > 0,
        forall|k: int| 0 <= k < out@.len() ==> wrapped_ok(v@, #[trigger] out@[k]),
        forall|k: int| 1 <= k < out@.len() ==> natural_break(v@, (#[trigger] out@[k]).lo as int),
        forall|k: int| 1 <= k < spans@.len() ==> boundary_of(out@, (#[trigger] spans@[k]).lo as int),
        forall|k: int|
            1 <= k < out@.len() ==> boundary_of(spans@, (#[trigger] out@[k]).lo as int)
                || inside_oversized(v@, spans@, out@[k].lo as int),
{
    proof {
        lemma_chain_bounds(spans@, 0, v@.len() as int);
    }
    let mut out: Vec<Span> = Vec::new();
    let mut i: usize = 0;
    while i < spans.len()
        invariant
            v@ == text@,
            is_chain(spans@, 0, v@.len() as int),
            spans@.len() > 0,
            i <= spans@.len(),
            forall|k: int|
                0 <= k < spans@.len() ==> 0 <= (#[trigger] spans@[k]).lo < spans@[k].hi <= v@.len(),
            forall|k: int|
                1 <= k < spans@.len() ==> natural_break(v@, (#[trigger] spans@[k]).lo as int),
            is_chain(out@, 0, prefix_end(spans@, i as int)),
            forall|k: int| 0 <= k < out@.len() ==> wrapped_ok(v@, #[trigger] out@[k]),
            forall|k: int| 1 <= k < out@.len() ==> natural_break(v@, (#[trigger] out@[k]).lo as int),
            forall|k: int| 1 <= k < i ==> boundary_of(out@, (#[trigger] spans@[k]).lo as int),
            forall|k: int|
                1 <= k < out@.len() ==> boundary_of(spans@, (#[trigger] out@[k]).lo as int)
                    || inside_oversized(v@, spans@, out@[k].lo as int),
            i > 0 <==> out@.len() > 0,
        decreases spans@.len() - i,
    {
        let sp = spans[i];
        let ghost old_out = out@;
        proof {
            assert(prefix_end(spans@, i as int) == sp.lo);
            if i > 0 {
                assert(natural_break(v@, (spans@[i as int]).lo as int));
            }
        }
        let plen = range_bytes(text, sp.lo, sp.hi);
        if plen < TTS_MAX_INPUT_LENGTH {
            proof {
                assert(wrapped_ok(v@, sp));
                lemma_chain_join(out@, seq![sp], 0, sp.lo as int, sp.hi as int);
                assert(out@.push(sp) =~= out@ + seq![sp]);
            }
            out.push(sp);
            proof {
                lemma_wrap_all_step(v@, spans@, old_out, out@, seq![sp], i as int);
            }
        } else {
            let mut lines = wrap_span(text, v, sp.lo, sp.hi);
            proof {
                lemma_chain_join(out@, lines@, 0, sp.lo as int, sp.hi as int);
            }
            let ghost new_lines = lines@;
            out.append(&mut lines);
            proof {
                lemma_chain_bounds(new_lines, sp.lo as int, sp.hi as int);
                assert(span_bytes(v@, sp) >= TTS_MAX_INPUT_LENGTH);
                lemma_wrap_all_step(v@, spans@, old_out, out@, new_lines, i as int);
            }
        }
        i = i + 1;
    }
    out
}

/// One step of the wrap pass: appending the pieces of the `i`-th coarse
/// span keeps every boundary fact — old boundaries stay, the span's start
/// becomes a kept coarse boundary, and boundaries the wrap added lie
/// inside that (oversized) span.
proof fn lemma_wrap_all_step(
    s: Seq<char>,
    spans: Seq<Span>,
    old_out: Seq<Span>,
    out: Seq<Span>,
    lines: Seq<Span>,
    i: int,
)
    requires
        0 <= i < spans.len(),
        out =~= old_out + lines,
        lines.len() > 0,
        is_chain(lines, spans[i].lo as int, spans[i].hi as int),
        lines.len() > 1 ==> span_bytes(s, spans[i]) >= TTS_MAX_INPUT_LENGTH,
        forall|k: int| 1 <= k < lines.len() ==> natural_break(s, (#[trigger] lines[k]).lo as int),
        forall|k: int| 1 <= k < i ==> boundary_of(old_out, (#[trigger] spans[k]).lo as int),
        forall|k: int|
            1 <= k < old_out.len() ==> boundary_of(spans, (#[trigger] old_out[k]).lo as int)
                || inside_oversized(s, spans, old_out[k].lo as int),
        i > 0 <==> old_out.len() > 0,
    ensures
        forall|k: int| 1 <= k < i + 1 ==> boundary_of(out, (#[trigger] spans[k]).lo as int),
        forall|k: int|
            1 <= k < out.len() ==> boundary_of(spans, (#[trigger] out[k]).lo as int)
                || inside_oversized(s, spans, out[k].lo as int),
{
    reveal(boundary_of);
    reveal(inside_oversized);
    lemma_chain_bounds(lines, spans[i].lo as int, spans[i].hi as int);
    assert(forall|k: int| 0 <= k < old_out.len() ==> #[trigger] out[k] == old_out[k]);
    assert(forall|k: int|
        old_out.len() <= k < out.len() ==> #[trigger] out[k] == lines[k - old_out.len()]);
    assert forall|k: int| 1 <= k < i + 1 implies boundary_of(
        out,
        (#[trigger] spans[k]).lo as int,
    ) by {
        if k < i {
            let w = choose|w: int| 1 <= w < old_out.len() && (#[trigger] old_out[w]).lo
                == spans[k].lo;
            assert(out[w].lo == spans[k].lo);
        } else {
            assert(out[old_out.len() as int].lo == lines[0].lo == spans[i].lo);
        }
    }
    assert forall|k: int| 1 <= k < out.len() implies boundary_of(
        spans,
        (#[trigger] out[k]).lo as int,
    ) || inside_oversized(s, spans, out[k].lo as int) by {
        if k < old_out.len() {
            assert(out[k] == old_out[k]);
        } else if k == old_out.len() {
            assert(out[k].lo == spans[i].lo);
            assert(boundary_of(spans, spans[i].lo as int));
        } else {
            let j = k - old_out.len();
            assert(out[k] == lines[j]);
            assert(lines[j].lo == lines[j - 1].hi > lines[j - 1].lo >= spans[i].lo);
            assert(lines[j].lo < lines[j].hi <= spans[i].hi);
            assert(inside_oversized(s, spans, lines[j].lo as int));
        }
    }
}

/// Greedy re-merge: every piece, from the first to the last, is appended to
/// the current accumulator segment when the joined segment stays strictly
/// under the ceiling, and otherwise starts a new segment.  No piece is
/// skipped, so the output still partitions the input, and any two adjacent
/// output segments together reach the ceiling.
#[verifier::rlimit(100)]
pub(crate) fn merge_spans(text: &str, v: &Vec<char>, spans: &Vec<Span>) -> (out: Vec<Span>)
    requires
        v@ == text@,
        is_chain(spans@, 0, v@.len() as int),
        spans@.len() > 0,
        forall|k: int| 0 <= k < spans@.len() ==> wrapped_ok(v@, #[trigger] spans@[k]),
        forall|k: int| 1 <= k < spans@.len() ==> natural_break(v@, (#[trigger] spans@[k]).lo as int),
    ensures
        is_chain(out@, 0, v@.len() as int),
        out@.len() > 0,
        forall|k: int| 0 <= k < out@.len() ==> wrapped_ok(v@, #[trigger] out@[k]),
        forall|k: int| 1 <= k < out@.len() ==> natural_break(v@, (#[trigger] out@[k]).lo as int),
        forall|k: int|
            0 <= k < out@.len() - 1 ==> span_bytes(v@, #[trigger] out@[k]) + span_bytes(
                v@,
                out@[k + 1],
            ) >= TTS_MAX_INPUT_LENGTH,
        out@ == greedy_merge(v@, spans@),
{
    proof {
        lemma_chain_bounds(spans@, 0, v@.len() as int);
    }
    let mut out: Vec<Span> = Vec::new();
    out.push(spans[0]);
    proof {
        reveal(greedy_merge_from);
        assert(spans@.skip(1) =~= spans@.drop_first());
        assert(out@.drop_last() =~= Seq::<Span>::empty());
        assert(out@.drop_last() + greedy_merge_from(v@, spans@.skip(1), out@.last())
            =~= greedy_merge(v@, spans@));
    }
    let mut i: usize = 1;
    while i < spans.len()
        invariant
            v@ == text@,
            is_chain(spans@, 0, v@.len() as int),
            forall|k: int| 0 <= k < spans@.len() ==> wrapped_ok(v@, #[trigger] spans@[k]),
            forall|k: int|
                0 <= k < spans@.len() ==> 0 <= (#[trigger] spans@[k]).lo < spans@[k].hi <= v@.len(),
            1 <= i <= spans@.len(),
            out@.len() > 0,
            is_chain(out@, 0, spans@[i - 1].hi as int),
            forall|k: int| 0 <= k < out@.len() ==> wrapped_ok(v@, #[trigger] out@[k]),
            forall|k: int|
                1 <= k < spans@.len() ==> natural_break(v@, (#[trigger] spans@[k]).lo as int),
            forall|k: int|
                1 <= k < out@.len() ==> natural_break(v@, (#[trigger] out@[k]).lo as int),
            forall|k: int|
                0 <= k < out@.len() - 1 ==> span_bytes(v@, #[trigger] out@[k]) + span_bytes(
                    v@,
                    out@[k + 1],
                ) >= TTS_MAX_INPUT_LENGTH,
            greedy_merge(v@, spans@) == out@.drop_last() + greedy_merge_from(
                v@,
                spans@.skip(i as int),
                out@.last(),
            ),
        decreases spans@.len() - i,
    {
        let sp = spans[i];
        let m = out.len() - 1;
        let last = out[m];
        let ghost old_out = out@;
        proof {
            assert(last.hi == spans@[i - 1].hi == sp.lo);
        }
        let tot = range_bytes(text, last.lo, sp.hi);
        if tot < TTS_MAX_INPUT_LENGTH {
            let grown = Span { lo: last.lo, hi: sp.hi };
            out.pop();
            out.push(grown);
            proof {
                assert(out@ =~= old_out.drop_last().push(grown));
                lemma_merge_step(v@, spans@, old_out, out@, i as int, true);
                lemma_merge_greedy_step(v@, spans@, old_out, out@, i as int, true);
            }
        } else {
            out.push(sp);
            proof {
                assert(out@ =~= old_out.push(sp));
                lemma_byte_len_split(v@, last.lo as int, sp.lo as int, sp.hi as int);
                lemma_merge_step(v@, spans@, old_out, out@, i as int, false);
                lemma_merge_greedy_step(v@, spans@, old_out, out@, i as int, false);
            }
        }
        i = i + 1;
    }
    proof {
        reveal(greedy_merge_from);
        assert(spans@.skip(spans@.len() as int) =~= Seq::<Span>::empty());
        assert(greedy_merge_from(v@, Seq::<Span>::empty(), out@.last()) =~= seq![out@.last()]);
        assert(out@.drop_last() + seq![out@.last()] =~= out@);
    }
    out
}

/// A one-element output reconstructs exactly its one element.
pub proof fn lemma_concat_single(segs: Seq<String>)
    requires
        segs.len() == 1,
    ensures
        concat_all(seg_views(segs)) == segs[0]@,
{
    let parts = seg_views(segs);
    assert(parts.len() == 1);
    assert(parts[0] == segs[0]@);
    assert(parts.drop_first() =~= Seq::<Seq<char>>::empty());
    assert(concat_all(parts.drop_first()) =~= Seq::<char>::empty());
    assert(concat_all(parts) =~= segs[0]@);
}

/// Strings cut out of `s` along a full chain reconstruct `s`, and each
/// one's length and byte length are those of its span.
pub proof fn lemma_segments_of_chain(s: Seq<char>, spans: Seq<Span>, segs: Seq<String>)
    requires
        is_chain(spans, 0, s.len() as int),
        segs.len() == spans.len(),
        forall|k: int|
            0 <= k < spans.len() ==> (#[trigger] segs[k])@ == s.subrange(
                spans[k].lo as int,
                spans[k].hi as int,
            ),
    ensures
        concat_all(seg_views(segs)) == s,
        forall|k: int|
            0 <= k < spans.len() ==> byte_len((#[trigger] segs[k])@) == span_bytes(s, spans[k]),
        forall|k: int|
            0 <= k < spans.len() ==> (#[trigger] segs[k])@.len() == spans[k].hi - spans[k].lo,
        forall|k: int| 0 <= k <= spans.len() ==> prefix_len(seg_views(segs), k) == prefix_end(
            spans,
            k,
        ),
{
    lemma_chain_bounds(spans, 0, s.len() as int);
    let parts = seg_views(segs);
    assert(parts.len() == spans.len());
    assert forall|k: int| 0 <= k < spans.len() implies #[trigger] parts[k] == s.subrange(
        spans[k].lo as int,
        spans[k].hi as int,
    ) by {
        assert(parts[k] == segs[k]@);
    }
    lemma_chain_concat_views(s, spans, parts, 0);
    assert(s.subrange(0, s.len() as int) =~= s);
    assert forall|k: int| 0 <= k <= spans.len() implies prefix_len(seg_views(segs), k)
        == prefix_end(spans, k) by {
        lemma_prefix_len_chain(spans, parts, k);
    }
}

proof fn lemma_prefix_len_chain(spans: Seq<Span>, parts: Seq<Seq<char>>, k: int)
    requires
        parts.len() == spans.len(),
        forall|j: int|
            0 <= j < spans.len() ==> (#[trigger] parts[j]).len() == spans[j].hi - spans[j].lo,
        forall|j: int| 0 <= j < spans.len() - 1 ==> (#[trigger] spans[j]).hi == spans[j + 1].lo,
        spans.len() > 0 ==> spans[0].lo == 0,
        0 <= k <= spans.len(),
    ensures
        prefix_len(parts, k) == prefix_end(spans, k),
    decreases k,
{
    if k > 0 {
        lemma_prefix_len_chain(spans, parts, k - 1);
        if k == 1 {
            assert(prefix_end(spans, 0) == 0 == spans[0].lo);
        } else {
            assert(spans[k - 2].hi == spans[k - 1].lo);
        }
    }
}

/// One step of the greedy re-merge: the invariant facts of the
/// accumulator survive growing its last segment by the next piece, or
/// opening a new segment with that piece.
#[verifier::rlimit(100)]
proof fn lemma_merge_step(
    s: Seq<char>,
    spans: Seq<Span>,
    old_out: Seq<Span>,
    out: Seq<Span>,
    i: int,
    grew: bool,
)
    requires
        1 <= i < spans.len(),
        is_chain(spans, 0, s.len() as int),
        forall|k: int| 0 <= k < spans.len() ==> wrapped_ok(s, #[trigger] spans[k]),
        forall|k: int| 1 <= k < spans.len() ==> natural_break(s, (#[trigger] spans[k]).lo as int),
        old_out.len() > 0,
        is_chain(old_out, 0, spans[i - 1].hi as int),
        forall|k: int| 0 <= k < old_out.len() ==> wrapped_ok(s, #[trigger] old_out[k]),
        forall|k: int|
            1 <= k < old_out.len() ==> natural_break(s, (#[trigger] old_out[k]).lo as int),
        forall|k: int|
            0 <= k < old_out.len() - 1 ==> span_bytes(s, #[trigger] old_out[k]) + span_bytes(
                s,
                old_out[k + 1],
            ) >= TTS_MAX_INPUT_LENGTH,
        grew ==> out =~= old_out.drop_last().push(span_join(old_out.last(), spans[i]))
            && span_bytes(s, span_join(old_out.last(), spans[i])) < TTS_MAX_INPUT_LENGTH,
        !grew ==> out =~= old_out.push(spans[i]) && span_bytes(s, old_out.last()) + span_bytes(
            s,
            spans[i],
        ) >= TTS_MAX_INPUT_LENGTH,
    ensures
        out.len() > 0,
        is_chain(out, 0, spans[i].hi as int),
        forall|k: int| 0 <= k < out.len() ==> wrapped_ok(s, #[trigger] out[k]),
        forall|k: int| 1 <= k < out.len() ==> natural_break(s, (#[trigger] out[k]).lo as int),
        forall|k: int|
            0 <= k < out.len() - 1 ==> span_bytes(s, #[trigger] out[k]) + span_bytes(
                s,
                out[k + 1],
            ) >= TTS_MAX_INPUT_LENGTH,
{
    lemma_chain_bounds(spans, 0, s.len() as int);
    let sp = spans[i];
    let last = old_out.last();
    assert(last.hi == spans[i - 1].hi == sp.lo);
    if grew {
        let grown = span_join(last, sp);
        lemma_byte_len_split(s, last.lo as int, last.hi as int, sp.hi as int);
        assert(span_bytes(s, grown) >= span_bytes(s, last));
        assert(wrapped_ok(s, grown));
        assert(forall|k: int| 0 <= k < old_out.len() - 1 ==> #[trigger] out[k] == old_out[k]);
        assert(out[out.len() - 1] == grown);
    } else {
        lemma_byte_len_split(s, last.lo as int, sp.lo as int, sp.hi as int);
        assert(span_bytes(s, last) + span_bytes(s, sp) >= TTS_MAX_INPUT_LENGTH);
        assert(forall|k: int| 0 <= k < old_out.len() ==> #[trigger] out[k] == old_out[k]);
        assert(out[out.len() - 1] == sp);
    }
}

/// One step of the greedy equation: processing the `i`-th piece moves the
/// spec-level fold forward by one unfolding.
#[verifier::rlimit(100)]
proof fn lemma_merge_greedy_step(
    s: Seq<char>,
    spans: Seq<Span>,
    old_out: Seq<Span>,
    out: Seq<Span>,
    i: int,
    grew: bool,
)
    requires
        1 <= i < spans.len(),
        old_out.len() > 0,
        old_out.last().hi == spans[i].lo,
        greedy_merge(s, spans) == old_out.drop_last() + greedy_merge_from(
            s,
            spans.skip(i),
            old_out.last(),
        ),
        grew ==> out =~= old_out.drop_last().push(span_join(old_out.last(), spans[i]))
            && span_bytes(s, span_join(old_out.last(), spans[i])) < TTS_MAX_INPUT_LENGTH,
        !grew ==> out =~= old_out.push(spans[i]) && span_bytes(
            s,
            span_join(old_out.last(), spans[i]),
        ) >= TTS_MAX_INPUT_LENGTH,
    ensures
        out.len() > 0,
        greedy_merge(s, spans) == out.drop_last() + greedy_merge_from(
            s,
            spans.skip(i + 1),
            out.last(),
        ),
{
    reveal(greedy_merge_from);
    let sp = spans[i];
    let last = old_out.last();
    let rest = spans.skip(i);
    assert(rest[0] == sp);
    assert(rest.drop_first() =~= spans.skip(i + 1));
    if grew {
        let grown = span_join(last, sp);
        assert(greedy_merge_from(s, rest, last) == greedy_merge_from(
            s,
            spans.skip(i + 1),
            grown,
        ));
        assert(out.drop_last() =~= old_out.drop_last());
        assert(out.last() == grown);
    } else {
        assert(greedy_merge_from(s, rest, last) =~= seq![last] + greedy_merge_from(
            s,
            spans.skip(i + 1),
            sp,
        ));
        assert(out.drop_last() =~= old_out);
        assert(out.last() == sp);
        assert(old_out.drop_last() + (seq![last] + greedy_merge_from(
            s,
            spans.skip(i + 1),
            sp,
        )) =~= old_out + greedy_merge_from(s, spans.skip(i + 1), sp)) by {
            assert(old_out.drop_last() + seq![last] =~= old_out);
        }
    }
}

/// Turns the final spans back into owned strings, one per span.
#[verifier::rlimit(60)]
pub(crate) fn materialize(text: &str, spans: &Vec<Span>) -> (out: Vec<String>)
    requires
        is_chain(spans@, 0, text@.len() as int),
    ensures
        out@.len() == spans@.len(),
        forall|k: int|
            0 <= k < spans@.len() ==> (#[trigger] out@[k])@ == text@.subrange(
                spans@[k].lo as int,
                spans@[k].hi as int,
            ),
{
    proof {
        lemma_chain_bounds(spans@, 0, text@.len() as int);
    }
    let mut out: Vec<String> = Vec::new();
    let mut i: usize = 0;
    while i < spans.len()
        invariant
            is_chain(spans@, 0, text@.len() as int),
            forall|k: int|
                0 <= k < spans@.len() ==> 0 <= (#[trigger] spans@[k]).lo < spans@[k].hi
                    <= text@.len(),
            i <= spans@.len(),
            out@.len() == i,
            forall|k: int|
                0 <= k < i ==> (#[trigger] out@[k])@ == text@.subrange(
                    spans@[k].lo as int,
                    spans@[k].hi as int,
                ),
        decreases spans@.len() - i,
    {
        let sp = spans[i];
        let piece = text.substring_char(sp.lo, sp.hi).to_owned();
        out.push(piece);
        i = i + 1;
    }
    out
}

} // verus!
