//! Grapheme and word segmentation, and the grapheme-indexed text edits the
//! name column uses. Segmentation itself comes from an outside crate; the
//! editing logic around it is verified.

use unicode_segmentation::UnicodeSegmentation;
use vstd::prelude::*;

use crate::text::push_char;

verus! {

/// The extended grapheme clusters of a text, in order.
pub uninterp spec fn grapheme_segments_of(s: Seq<char>) -> Seq<Seq<char>>;

/// The word-boundary segments of a text, in order: words and the runs
/// between them.
pub uninterp spec fn word_segments_of(s: Seq<char>) -> Seq<Seq<char>>;

/// The views of a list of owned segments.
pub open spec fn seg_views(v: Seq<String>) -> Seq<Seq<char>> {
    v.map_values(|g: String| g@)
}

/// Relies on unicode_segmentation's `graphemes` (extended clusters): the
/// segments are non-empty and concatenate back to the input.
#[verifier::external_body]
pub fn graphemes_vec(s: &str) -> (r: Vec<String>)
    ensures
        seg_views(r@) == grapheme_segments_of(s@),
        seg_views(r@).flatten() == s@,
        forall|k: int| 0 <= k < r@.len() ==> (#[trigger] r@[k])@.len() > 0,
{
    s.graphemes(true).map(|g| g.to_string()).collect()
}

/// Relies on unicode_segmentation's `split_word_bounds`: the segments are
/// non-empty and concatenate back to the input.
#[verifier::external_body]
pub fn word_bounds_vec(s: &str) -> (r: Vec<String>)
    ensures
        seg_views(r@) == word_segments_of(s@),
        seg_views(r@).flatten() == s@,
        forall|k: int| 0 <= k < r@.len() ==> (#[trigger] r@[k])@.len() > 0,
{
    s.split_word_bounds().map(|g| g.to_string()).collect()
}

/// The number of grapheme clusters in a text: the unit of cursor movement
/// and of column width.
pub fn grapheme_count(s: &str) -> (r: usize)
    ensures
        r == grapheme_segments_of(s@).len(),
{
    let segs = graphemes_vec(s);
    segs.len()
}

/// Append the segments `from .. to` onto `out`.
fn append_segments(out: &mut String, segs: &Vec<String>, from: usize, to: usize)
    requires
        from <= to <= segs@.len(),
    ensures
        final(out)@ == old(out)@ + seg_views(segs@).subrange(from as int, to as int).flatten(),
{
    let mut k = from;
    proof {
        assert(seg_views(segs@).subrange(from as int, from as int) =~= Seq::<Seq<char>>::empty());
        assert(Seq::<Seq<char>>::empty().flatten() =~= Seq::<char>::empty());
        assert(out@ + Seq::<char>::empty() =~= out@);
    }
    while k < to
        invariant
            from <= k <= to <= segs@.len(),
            out@ == old(out)@ + seg_views(segs@).subrange(from as int, k as int).flatten(),
        decreases to - k,
    {
        out.append(segs[k].as_str());
        proof {
            let views = seg_views(segs@);
            assert(views.subrange(from as int, k + 1) =~= views.subrange(from as int, k as int)
                .push(views[k as int]));
            views.subrange(from as int, k as int).lemma_flatten_push(views[k as int]);
            assert(out@ =~= old(out)@ + views.subrange(from as int, k + 1).flatten());
        }
        k = k + 1;
    }
}

/// The text with `c` inserted before grapheme `i` (at the end when `i` is
/// past the last grapheme).
pub open spec fn spec_insert_at_grapheme(s: Seq<char>, i: int, c: char) -> Seq<char> {
    let segs = grapheme_segments_of(s);
    let k = if i < segs.len() {
        i
    } else {
        segs.len() as int
    };
    segs.take(k).flatten() + seq![c] + segs.skip(k).flatten()
}

/// The text with grapheme `i` removed (unchanged when `i` is out of range).
pub open spec fn spec_delete_at_grapheme(s: Seq<char>, i: int) -> Seq<char> {
    let segs = grapheme_segments_of(s);
    if 0 <= i < segs.len() {
        segs.take(i).flatten() + segs.skip(i + 1).flatten()
    } else {
        s
    }
}

proof fn lemma_take_skip_flatten(segs: Seq<Seq<char>>, k: int)
    requires
        0 <= k <= segs.len(),
    ensures
        segs.take(k).flatten() + segs.skip(k).flatten() == segs.flatten(),
{
    vstd::seq_lib::lemma_flatten_concat(segs.take(k), segs.skip(k));
    assert(segs.take(k) + segs.skip(k) =~= segs);
}

/// Insert `c` before the `i`-th grapheme of `s`; the new cursor sits just
/// after the inserted character, `min(i, grapheme count) + 1` graphemes in.
pub fn insert_char_at_grapheme(s: &str, i: usize, c: char) -> (r: (String, usize))
    requires
        i < usize::MAX,
    ensures
        r.0@ == spec_insert_at_grapheme(s@, i as int, c),
        r.1 == if (i as int) < grapheme_segments_of(s@).len() {
            i + 1
        } else {
            grapheme_segments_of(s@).len() as int + 1
        },
{
    let segs = graphemes_vec(s);
    let k: usize = if i < segs.len() {
        i
    } else {
        segs.len()
    };
    let mut out = String::new();
    append_segments(&mut out, &segs, 0, k);
    push_char(&mut out, c);
    append_segments(&mut out, &segs, k, segs.len());
    proof {
        let views = seg_views(segs@);
        assert(views.subrange(0, k as int) =~= views.take(k as int));
        assert(views.subrange(k as int, views.len() as int) =~= views.skip(k as int));
        assert(views.take(k as int).flatten().push(c) =~= views.take(k as int).flatten() + seq![c]);
        assert(out@ =~= views.take(k as int).flatten() + seq![c] + views.skip(k as int).flatten());
    }
    (out, k + 1)
}

/// Remove the `i`-th grapheme of `s`; out-of-range indices leave the text
/// unchanged.
pub fn delete_char_at_grapheme(s: &str, i: usize) -> (r: String)
    ensures
        r@ == spec_delete_at_grapheme(s@, i as int),
{
    let segs = graphemes_vec(s);
    if i >= segs.len() {
        return s.to_owned();
    }
    let mut out = String::new();
    append_segments(&mut out, &segs, 0, i);
    append_segments(&mut out, &segs, i + 1, segs.len());
    proof {
        let views = seg_views(segs@);
        assert(views.subrange(0, i as int) =~= views.take(i as int));
        assert(views.subrange(i + 1, views.len() as int) =~= views.skip(i + 1));
        assert(out@ =~= views.take(i as int).flatten() + views.skip(i + 1).flatten());
    }
    out
}

/// Inserting at grapheme `i` leaves the graphemes before `i` in place as
/// characters: the new text begins with the old text's first `i` clusters.
pub proof fn lemma_insert_preserves_prefix(s: Seq<char>, i: int, c: char)
    requires
        0 <= i <= grapheme_segments_of(s).len(),
    ensures
        spec_insert_at_grapheme(s, i, c) == grapheme_segments_of(s).take(i).flatten() + seq![c]
            + grapheme_segments_of(s).skip(i).flatten(),
        grapheme_segments_of(s).take(i).flatten() + grapheme_segments_of(s).skip(i).flatten()
            == grapheme_segments_of(s).flatten(),
{
    lemma_take_skip_flatten(grapheme_segments_of(s), i);
}

} // verus!
