//! Public surface of the voice-generation support: the text segmenter and
//! the typed response of the text-completion endpoint.

use vstd::prelude::*;

use crate::segment::byte_len;
use crate::segment::chars_of;
use crate::segment::coarse_split;
use crate::segment::concat_all;
use crate::segment::lemma_concat_single;
use crate::segment::lemma_segments_of_chain;
use crate::segment::materialize;
use crate::segment::merge_spans;
use crate::segment::natural_break;
use crate::segment::greedy_merge;
use crate::segment::prefix_len;
use crate::segment::seg_views;
use crate::segment::segmentation_of;
use crate::segment::views_of_spans;
use crate::segment::Span;
use crate::segment::whitespace_free;
use crate::segment::wrap_all;
use crate::segment::TTS_MAX_INPUT_LENGTH;

verus! {

broadcast use vstd::slice::group_slice_axioms;

/// Typed body of a successful text-completion response.
#[derive(Clone, Debug)]
pub struct AiGenerateTextResponse {
    pub output: String,
}

/// Splits text for the voice-synthesis endpoint, whose requests are capped
/// at [`TTS_MAX_INPUT_LENGTH`] bytes.
///
/// Policy: the split is delimiter-preserving.  Natural speech boundaries
/// (commas, sentence-ending punctuation before a space or a quote, line
/// breaks, ellipses) are kept as pieces of the output, and the word-wrap
/// fallback breaks only between words, keeping the whitespace, so that the
/// concatenation of the returned segments is exactly the input.  Adjacent
/// pieces are then greedily re-merged: the returned segmentation is the
/// coarsest one this split allows.
///
/// The function is total.  Input at or under the ceiling is returned as a
/// single unchanged segment.  Longer input is returned as segments that
/// are each strictly under the ceiling, except that a single
/// whitespace-free token at or over the ceiling cannot be split and is
/// passed through as one oversized segment.
#[verifier::rlimit(100)]
pub fn process_string_for_voice_generation(text: &str) -> (segments: Vec<String>)
    ensures
        segments@.len() >= 1,
        concat_all(seg_views(segments@)) == text@,
        byte_len(text@) <= TTS_MAX_INPUT_LENGTH ==> segments@.len() == 1 && segments@[0]@ == text@,
        byte_len(text@) > TTS_MAX_INPUT_LENGTH ==> forall|k: int|
            0 <= k < segments@.len() ==> (#[trigger] segments@[k])@.len() > 0 && (byte_len(
                segments@[k]@,
            ) < TTS_MAX_INPUT_LENGTH || whitespace_free(segments@[k]@)),
        forall|k: int|
            0 <= k < segments@.len() - 1 ==> byte_len((#[trigger] segments@[k])@) + byte_len(
                segments@[k + 1]@,
            ) >= TTS_MAX_INPUT_LENGTH,
        forall|k: int|
            1 <= k < segments@.len() ==> natural_break(
                text@,
                #[trigger] prefix_len(seg_views(segments@), k),
            ),
        byte_len(text@) > TTS_MAX_INPUT_LENGTH ==> exists|coarse: Seq<Span>, pieces: Seq<Span>|
            #[trigger] segmentation_of(text@, coarse, pieces, segments@),
{
    let blen = text.as_bytes().len();
    proof {
        reveal(crate::segment::byte_len);
        assert(blen == byte_len(text@));
    }
    if blen <= TTS_MAX_INPUT_LENGTH {
        let whole = text.to_owned();
        let mut segments: Vec<String> = Vec::new();
        segments.push(whole);
        proof {
            lemma_concat_single(segments@);
        }
        return segments;
    }
    proof {
        reveal(crate::segment::byte_len);
        assert(text@.len() > 0);
    }
    let v = chars_of(text);
    let coarse = coarse_split(&v);
    let wrapped = wrap_all(text, &v, &coarse);
    let merged = merge_spans(text, &v, &wrapped);
    let segments = materialize(text, &merged);
    proof {
        lemma_segments_of_chain(text@, merged@, segments@);
        assert(seg_views(segments@) =~= views_of_spans(text@, merged@)) by {
            assert forall|k: int| 0 <= k < segments@.len() implies seg_views(segments@)[k]
                == views_of_spans(text@, merged@)[k] by {
                assert(seg_views(segments@)[k] == segments@[k]@);
                assert(views_of_spans(text@, merged@)[k] == text@.subrange(
                    merged@[k].lo as int,
                    merged@[k].hi as int,
                ));
            }
        }
        assert(merged@ == greedy_merge(text@, wrapped@));
        assert(segmentation_of(text@, coarse@, wrapped@, segments@));
        assert forall|k: int| 1 <= k < segments@.len() implies natural_break(
            text@,
            #[trigger] prefix_len(seg_views(segments@), k),
        ) by {
            assert(crate::segment::prefix_end(merged@, k) == merged@[k - 1].hi);
            assert(prefix_len(seg_views(segments@), k) == crate::segment::prefix_end(merged@, k));
            assert(merged@[k - 1].hi == merged@[k].lo);
            assert(natural_break(text@, merged@[k].lo as int));
        }
    }
    segments
}

} // verus!
