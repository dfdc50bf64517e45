//! The line highlighter: resolves possibly-overlapping rule matches into a
//! single deterministic color per byte (highest priority wins, first come
//! first served on ties), then collapses the per-byte colors into a minimal
//! ordered list of contiguous same-color spans.

use vstd::prelude::*;
use crate::syntax::Syntax;

verus! {

/// One contiguous run of a line rendered in a single color.  The spans of a
/// line are ordered left to right and their texts concatenate back to the
/// line exactly.
pub struct HighlightSpan {
    pub text: Vec<u8>,
    pub color: String,
}

/// Spans as mathematical (text, color) pairs.
pub open spec fn span_views(spans: Seq<HighlightSpan>) -> Seq<(Seq<u8>, Seq<char>)> {
    spans.map_values(|sp: HighlightSpan| (sp.text@, sp.color@))
}

/// The color a grid mark stands for: the marked rule's color, or the
/// default color for the out-of-range mark that means "unset".
pub open spec fn color_of_mark(syn: Syntax, mark: usize) -> Seq<char> {
    if (mark as int) < syn.rules@.len() {
        syn.rules@[mark as int].color@
    } else {
        syn.default_color@
    }
}

/// The per-byte color assignment a mark grid stands for.
pub open spec fn byte_colors(syn: Syntax, marks: Seq<usize>) -> Seq<Seq<char>> {
    marks.map_values(|m: usize| color_of_mark(syn, m))
}

/// Whether byte `i` falls inside one of the half-open match ranges.
pub open spec fn in_ranges(ranges: Seq<(usize, usize)>, i: int) -> bool {
    exists|k: int| 0 <= k < ranges.len() && (#[trigger] ranges[k]).0 <= i < ranges[k].1
}

/// Relies on `regex::bytes::Regex::find_iter`: successive non-overlapping
/// matches, each a byte range within the haystack with `start <= end`.
/// Which ranges come back is not assumed; callers state what holds of every
/// outcome.
#[verifier::external_body]
fn regex_find_ranges(re: &regex::bytes::Regex, hay: &[u8]) -> (r: Vec<(usize, usize)>)
    ensures
        forall|k: int| 0 <= k < r@.len() ==> (#[trigger] r@[k]).0 <= r@[k].1 <= hay@.len(),
{
    let mut v = Vec::new();
    for m in re.find_iter(hay) {
        v.push((m.start(), m.end()));
    }
    v
}

/// Assigns `mark` to every byte covered by one of the ranges that no earlier
/// pass has assigned yet (its mark is still `unset`): a byte once claimed by
/// a higher-priority rule is never overwritten.
pub fn paint_matches(marks: &mut Vec<usize>, unset: usize, ranges: &Vec<(usize, usize)>, mark: usize)
    requires
        forall|k: int| 0 <= k < ranges@.len() ==> (#[trigger] ranges@[k]).1 <= old(marks)@.len(),
    ensures
        final(marks)@.len() == old(marks)@.len(),
        forall|i: int|
            0 <= i < final(marks)@.len() ==> #[trigger] final(marks)@[i] == (if old(marks)@[i]
                == unset && in_ranges(ranges@, i) {
                mark
            } else {
                old(marks)@[i]
            }),
{
    let ghost orig = old(marks)@;
    let mut k: usize = 0;
    proof {
        assert(forall|i: int| !in_ranges(ranges@.take(0), i));
    }
    while k < ranges.len()
        invariant
            k <= ranges@.len(),
            marks@.len() == orig.len(),
            forall|j: int| 0 <= j < ranges@.len() ==> (#[trigger] ranges@[j]).1 <= orig.len(),
            forall|i: int|
                0 <= i < marks@.len() ==> #[trigger] marks@[i] == (if orig[i] == unset
                    && in_ranges(ranges@.take(k as int), i) {
                    mark
                } else {
                    orig[i]
                }),
        decreases ranges@.len() - k,
    {
        let (a, b) = ranges[k];
        let mut i: usize = a;
        while i < b
            invariant
                k < ranges@.len(),
                (a, b) == ranges@[k as int],
                a <= i,
                i <= b || i == a,
                b <= orig.len(),
                marks@.len() == orig.len(),
                forall|idx: int|
                    0 <= idx < marks@.len() ==> #[trigger] marks@[idx] == (if orig[idx] == unset && (
                    in_ranges(ranges@.take(k as int), idx) || (a <= idx < i)) {
                        mark
                    } else {
                        orig[idx]
                    }),
            decreases b - i,
        {
            if marks[i] == unset {
                marks.set(i, mark);
            }
            i = i + 1;
        }
        proof {
            assert forall|idx: int| 0 <= idx < marks@.len() implies #[trigger] marks@[idx] == (if
            orig[idx] == unset && in_ranges(ranges@.take(k + 1), idx) {
                mark
            } else {
                orig[idx]
            }) by {
                assert(ranges@.take(k + 1) =~= ranges@.take(k as int).push(ranges@[k as int]));
                if in_ranges(ranges@.take(k + 1), idx) {
                    let w = choose|w: int|
                        0 <= w < ranges@.take(k + 1).len() && (#[trigger] ranges@.take(k + 1)[w]).0
                            <= idx < ranges@.take(k + 1)[w].1;
                    if w < k {
                        assert(ranges@.take(k as int)[w] == ranges@.take(k + 1)[w]);
                        assert(in_ranges(ranges@.take(k as int), idx));
                    }
                }
                if in_ranges(ranges@.take(k as int), idx) {
                    let w = choose|w: int|
                        0 <= w < ranges@.take(k as int).len() && (#[trigger] ranges@.take(
                            k as int,
                        )[w]).0 <= idx < ranges@.take(k as int)[w].1;
                    assert(ranges@.take(k + 1)[w] == ranges@.take(k as int)[w]);
                    assert(in_ranges(ranges@.take(k + 1), idx));
                }
                if a <= idx < b {
                    assert(ranges@.take(k + 1)[k as int] == ranges@[k as int]);
                    assert(in_ranges(ranges@.take(k + 1), idx));
                }
            }
        }
        k = k + 1;
    }
    proof {
        assert(ranges@.take(ranges@.len() as int) =~= ranges@);
    }
}

/// The spans of the first `n` bytes of a line under a per-byte color
/// assignment: each byte extends the last span when it has the same color
/// and opens a new span otherwise, so spans are maximal same-color runs.
pub open spec fn spans_upto(line: Seq<u8>, colors: Seq<Seq<char>>, n: int) -> Seq<
    (Seq<u8>, Seq<char>),
>
    decreases n,
{
    if n <= 0 {
        Seq::<(Seq<u8>, Seq<char>)>::empty()
    } else {
        let prev = spans_upto(line, colors, n - 1);
        let b = line[n - 1];
        let c = colors[n - 1];
        if prev.len() > 0 && prev.last().1 == c {
            prev.drop_last().push((prev.last().0.push(b), c))
        } else {
            prev.push((seq![b], c))
        }
    }
}

/// The concatenation of span texts, in order.
pub open spec fn concat_texts(spans: Seq<(Seq<u8>, Seq<char>)>) -> Seq<u8>
    decreases spans.len(),
{
    if spans.len() == 0 {
        Seq::<u8>::empty()
    } else {
        concat_texts(spans.drop_last()) + spans.last().0
    }
}

/// The span decomposition is a lossless partition into maximal runs: the
/// texts concatenate back to the prefix they cover, no span is empty, and
/// no two adjacent spans share a color.
pub proof fn lemma_spans_upto_props(line: Seq<u8>, colors: Seq<Seq<char>>, n: int)
    requires
        0 <= n <= line.len(),
        colors.len() == line.len(),
    ensures
        concat_texts(spans_upto(line, colors, n)) == line.take(n),
        forall|i: int| 0 <= i < spans_upto(line, colors, n).len() ==> (#[trigger] spans_upto(
            line,
            colors,
            n,
        )[i]).0.len() > 0,
        forall|i: int|
            0 <= i && i + 1 < spans_upto(line, colors, n).len() ==> (#[trigger] spans_upto(
                line,
                colors,
                n,
            )[i]).1 != spans_upto(line, colors, n)[i + 1].1,
        n > 0 ==> spans_upto(line, colors, n).len() > 0 && spans_upto(line, colors, n).last().1
            == colors[n - 1],
        n == 0 ==> spans_upto(line, colors, n).len() == 0,
        forall|i: int|
            0 <= i < spans_upto(line, colors, n).len() ==> exists|k: int|
                0 <= k < n && (#[trigger] spans_upto(line, colors, n)[i]).1 == colors[k],
    decreases n,
{
    if n <= 0 {
        assert(line.take(0) =~= Seq::<u8>::empty());
    } else {
        lemma_spans_upto_props(line, colors, n - 1);
        let prev = spans_upto(line, colors, n - 1);
        let cur = spans_upto(line, colors, n);
        let b = line[n - 1];
        let c = colors[n - 1];
        assert(line.take(n) =~= line.take(n - 1).push(b));
        if prev.len() > 0 && prev.last().1 == c {
            assert(cur == prev.drop_last().push((prev.last().0.push(b), c)));
            assert(cur.drop_last() =~= prev.drop_last());
            assert(concat_texts(cur) == concat_texts(prev.drop_last()) + prev.last().0.push(b));
            assert(concat_texts(prev) == concat_texts(prev.drop_last()) + prev.last().0);
            assert(concat_texts(cur) =~= line.take(n));
            let y = (prev.last().0.push(b), c);
            let base = prev.drop_last();
            assert forall|i: int| 0 <= i && i + 1 < cur.len() implies (#[trigger] cur[i]).1 != cur[i
                + 1].1 by {
                assert(cur.len() == prev.len());
                assert(cur[i] == base.push(y)[i]);
                assert(base.push(y)[i] == base[i]);
                assert(base[i] == prev[i]);
                if i + 1 < cur.len() - 1 {
                    assert(cur[i + 1] == base.push(y)[i + 1]);
                    assert(base.push(y)[i + 1] == base[i + 1]);
                    assert(base[i + 1] == prev[i + 1]);
                } else {
                    assert(cur[i + 1] == base.push(y)[i + 1]);
                    assert(base.push(y)[i + 1] == y);
                    assert(prev[i + 1] == prev.last());
                    assert(prev[i + 1].1 == c);
                }
                assert(prev[i].1 != prev[i + 1].1);
            }
            assert forall|i: int| 0 <= i < cur.len() implies exists|k: int|
                0 <= k < n && (#[trigger] cur[i]).1 == colors[k] by {
                if i < cur.len() - 1 {
                    assert(cur[i] == base.push(y)[i]);
                    assert(base.push(y)[i] == base[i]);
                    assert(base[i] == prev[i]);
                    let k = choose|k: int| 0 <= k < n - 1 && (prev[i]).1 == colors[k];
                    assert(0 <= k < n && cur[i].1 == colors[k]);
                } else {
                    assert(cur[i] == base.push(y)[i]);
                    assert(base.push(y)[i] == y);
                    assert(cur[i].1 == colors[n - 1]);
                }
            }
        } else {
            assert(cur == prev.push((seq![b], c)));
            assert(cur.drop_last() =~= prev);
            assert(concat_texts(cur) == concat_texts(prev) + seq![b]);
            assert(concat_texts(cur) =~= line.take(n));
            let y = (seq![b], c);
            assert forall|i: int| 0 <= i && i + 1 < cur.len() implies (#[trigger] cur[i]).1 != cur[i
                + 1].1 by {
                assert(cur[i] == prev.push(y)[i]);
                assert(prev.push(y)[i] == prev[i]);
                if i + 1 < prev.len() {
                    assert(cur[i + 1] == prev.push(y)[i + 1]);
                    assert(prev.push(y)[i + 1] == prev[i + 1]);
                    assert(prev[i].1 != prev[i + 1].1);
                } else {
                    assert(cur[i + 1] == prev.push(y)[i + 1]);
                    assert(prev.push(y)[i + 1] == y);
                    assert(prev[i] == prev.last());
                    assert(prev.last().1 != c);
                }
            }
            assert forall|i: int| 0 <= i < cur.len() implies exists|k: int|
                0 <= k < n && (#[trigger] cur[i]).1 == colors[k] by {
                if i < cur.len() - 1 {
                    assert(cur[i] == prev.push(y)[i]);
                    assert(prev.push(y)[i] == prev[i]);
                    let k = choose|k: int| 0 <= k < n - 1 && (prev[i]).1 == colors[k];
                    assert(0 <= k < n && cur[i].1 == colors[k]);
                } else {
                    assert(cur[i] == prev.push(y)[i]);
                    assert(prev.push(y)[i] == y);
                    assert(cur[i].1 == colors[n - 1]);
                }
            }
        }
    }
}

/// Collapses a mark grid into the ordered span list it stands for: adjacent
/// bytes of identical color merge into one span.
pub fn spans_from_colors(syntax: &Syntax, line: &[u8], marks: &Vec<usize>) -> (r: Vec<
    HighlightSpan,
>)
    requires
        marks@.len() == line@.len(),
    ensures
        span_views(r@) == spans_upto(line@, byte_colors(*syntax, marks@), line@.len() as int),
{
    let ghost colors = byte_colors(*syntax, marks@);
    let mut r: Vec<HighlightSpan> = Vec::new();
    let mut i: usize = 0;
    proof {
        assert(span_views(r@) =~= spans_upto(line@, colors, 0));
    }
    while i < line.len()
        invariant
            i <= line@.len(),
            marks@.len() == line@.len(),
            colors == byte_colors(*syntax, marks@),
            span_views(r@) == spans_upto(line@, colors, i as int),
        decreases line@.len() - i,
    {
        let m = marks[i];
        let b = line[i];
        let cur_color: &String = if m < syntax.rules.len() {
            &syntax.rules[m].color
        } else {
            &syntax.default_color
        };
        proof {
            assert(cur_color@ == colors[i as int]);
        }
        let ghost prev_views = span_views(r@);
        let mut merged = false;
        if r.len() > 0 {
            let last_ix = r.len() - 1;
            if *(&r[last_ix].color) == *cur_color {
                merged = true;
            }
        }
        if merged {
            proof {
                assert(r@.len() > 0);
            }
            let mut sp = r.pop().unwrap();
            sp.text.push(b);
            r.push(sp);
            proof {
                assert(prev_views.len() > 0 && prev_views.last().1 == colors[i as int]);
                assert(span_views(r@) =~= prev_views.drop_last().push(
                    (prev_views.last().0.push(b), colors[i as int]),
                ));
            }
        } else {
            let mut t: Vec<u8> = Vec::new();
            t.push(b);
            r.push(HighlightSpan { text: t, color: cur_color.clone() });
            proof {
                assert(!(prev_views.len() > 0 && prev_views.last().1 == colors[i as int]));
                assert(span_views(r@) =~= prev_views.push((seq![b], colors[i as int])));
            }
        }
        i = i + 1;
    }
    proof {
        assert(i as int == line@.len());
    }
    r
}

/// Highlights one line under a syntax definition.
///
/// With no rules or an empty line, the whole line is one span in the
/// default color.  Otherwise every rule, in stored (priority) order, claims
/// the bytes its pattern matches that no earlier rule claimed; unclaimed
/// bytes take the default color; and the per-byte colors collapse into
/// maximal same-color spans.  In every case the span texts concatenate back
/// to the line exactly and no two adjacent spans share a color.
pub fn highlight_line(syntax: &Syntax, line: &[u8]) -> (r: Vec<HighlightSpan>)
    ensures
        concat_texts(span_views(r@)) == line@,
        forall|i: int|
            0 <= i && i + 1 < r@.len() ==> (#[trigger] span_views(r@)[i]).1 != span_views(r@)[i + 1].1,
        syntax.rules@.len() == 0 || line@.len() == 0 ==> span_views(r@) == seq![
            (line@, syntax.default_color@),
        ],
        line@.len() > 0 ==> r@.len() >= 1,
        forall|i: int| 0 <= i < r@.len() ==> line@.len() > 0 ==> (#[trigger] span_views(
            r@,
        )[i]).0.len() > 0,
        forall|i: int|
            0 <= i < r@.len() ==> ((exists|k: int|
                0 <= k < syntax.rules@.len() && (#[trigger] span_views(r@)[i]).1
                    == syntax.rules@[k].color@) || span_views(r@)[i].1 == syntax.default_color@),
{
    if syntax.rules.len() == 0 || line.len() == 0 {
        let mut t: Vec<u8> = Vec::new();
        let mut j: usize = 0;
        proof {
            assert(t@ =~= line@.take(0));
        }
        while j < line.len()
            invariant
                j <= line@.len(),
                t@ == line@.take(j as int),
            decreases line@.len() - j,
        {
            t.push(line[j]);
            proof {
                assert(line@.take(j + 1) =~= line@.take(j as int).push(line@[j as int]));
            }
            j = j + 1;
        }
        proof {
            assert(line@.take(line@.len() as int) =~= line@);
        }
        let mut r: Vec<HighlightSpan> = Vec::new();
        r.push(HighlightSpan { text: t, color: syntax.default_color.clone() });
        proof {
            assert(span_views(r@) =~= seq![(line@, syntax.default_color@)]);
            assert(span_views(r@).drop_last() =~= Seq::<(Seq<u8>, Seq<char>)>::empty());
            assert(concat_texts(span_views(r@)) == concat_texts(span_views(r@).drop_last())
                + span_views(r@).last().0);
            assert(concat_texts(span_views(r@)) =~= line@);
        }
        return r;
    }
    let n = line.len();
    let unset = syntax.rules.len();
    let mut marks: Vec<usize> = Vec::new();
    let mut j: usize = 0;
    while j < n
        invariant
            j <= n,
            marks@.len() == j,
        decreases n - j,
    {
        marks.push(unset);
        j = j + 1;
    }
    let mut rix: usize = 0;
    while rix < syntax.rules.len()
        invariant
            marks@.len() == n,
            n == line@.len(),
        decreases syntax.rules@.len() - rix,
    {
        let ranges = regex_find_ranges(&syntax.rules[rix].regex, line);
        paint_matches(&mut marks, unset, &ranges, rix);
        rix = rix + 1;
    }
    let r = spans_from_colors(syntax, line, &marks);
    proof {
        let colors = byte_colors(*syntax, marks@);
        lemma_spans_upto_props(line@, colors, n as int);
        assert(line@.take(n as int) =~= line@);
        assert forall|i: int| 0 <= i < r@.len() implies ((exists|k: int|
            0 <= k < syntax.rules@.len() && (#[trigger] span_views(r@)[i]).1
                == syntax.rules@[k].color@) || span_views(r@)[i].1 == syntax.default_color@) by {
            let k = choose|k: int| 0 <= k < n && (span_views(r@)[i]).1 == colors[k];
            assert(colors[k] == color_of_mark(*syntax, marks@[k]));
        }
    }
    r
}

} // verus!
