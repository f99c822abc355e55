use vstd::prelude::*;
use crate::scan::{views_of, markers_of, markers, markers_from, marker_at, close_from, EachBlock, Marker};

verus! {

/// `s` with the bytes `a..b` replaced by `v`.
pub open spec fn replace_range(s: Seq<u8>, a: int, b: int, v: Seq<u8>) -> Seq<u8> {
    s.take(a) + v + s.skip(b)
}

/// The markers lie inside `lo..hi`, each non-empty, in increasing order and
/// without overlap.
pub open spec fn well_placed(ms: Seq<Marker>, lo: int, hi: int) -> bool {
    &&& forall|i: int| 0 <= i < ms.len() ==> lo <= #[trigger] ms[i].start < ms[i].end <= hi
    &&& forall|i: int| 0 <= i < ms.len() - 1 ==> #[trigger] ms[i].end <= ms[i + 1].start
}

/// `text` after the markers `i..` have been replaced by their values,
/// rightmost first.
pub open spec fn substitute_from(text: Seq<u8>, ms: Seq<Marker>, vals: Seq<Seq<u8>>, i: int) -> Seq<u8>
    decreases ms.len() - i,
{
    if i < 0 || i >= ms.len() {
        text
    } else {
        replace_range(substitute_from(text, ms, vals, i + 1), ms[i].start, ms[i].end, vals[i])
    }
}

/// `text` with each marker replaced by the value at the same position of
/// `vals`, rightmost marker first.
pub open spec fn render(text: Seq<u8>, ms: Seq<Marker>, vals: Seq<Seq<u8>>) -> Seq<u8> {
    substitute_from(text, ms, vals, 0)
}

/// The text from byte `from` on, with markers `i..` replaced: the bytes up
/// to marker `i`, its value, then the same from the end of marker `i`.
pub open spec fn layout_from(text: Seq<u8>, ms: Seq<Marker>, vals: Seq<Seq<u8>>, i: int, from: int) -> Seq<u8>
    decreases ms.len() - i,
{
    if i < 0 || i >= ms.len() {
        text.subrange(from, text.len() as int)
    } else {
        text.subrange(from, ms[i].start) + vals[i] + layout_from(text, ms, vals, i + 1, ms[i].end)
    }
}

/// Where the untouched text before marker `i` ends.
pub open spec fn bound(text: Seq<u8>, ms: Seq<Marker>, i: int) -> int {
    if 0 <= i < ms.len() {
        ms[i].start
    } else {
        text.len() as int
    }
}

pub proof fn lemma_layout_prefix(text: Seq<u8>, ms: Seq<Marker>, vals: Seq<Seq<u8>>, i: int, from: int)
    requires
        0 <= i <= ms.len(),
        0 <= from <= bound(text, ms, i) <= text.len(),
    ensures
        layout_from(text, ms, vals, i, from) == text.subrange(from, bound(text, ms, i))
            + layout_from(text, ms, vals, i, bound(text, ms, i)),
{
    let b = bound(text, ms, i);
    if i >= ms.len() {
        assert(text.subrange(from, text.len() as int) =~= text.subrange(from, b) + text.subrange(b, text.len() as int));
    } else {
        assert(text.subrange(from, b) =~= text.subrange(from, b) + text.subrange(b, b));
        assert(text.subrange(b, b) + vals[i] =~= vals[i]);
    }
}

proof fn lemma_substitute_layout(text: Seq<u8>, ms: Seq<Marker>, vals: Seq<Seq<u8>>, i: int)
    requires
        0 <= i <= ms.len(),
        well_placed(ms, 0, text.len() as int),
    ensures
        substitute_from(text, ms, vals, i) == text.take(bound(text, ms, i)) + layout_from(
            text,
            ms,
            vals,
            i,
            bound(text, ms, i),
        ),
    decreases ms.len() - i,
{
    if i == ms.len() {
        assert(text =~= text.take(text.len() as int) + text.subrange(text.len() as int, text.len() as int));
    } else {
        lemma_substitute_layout(text, ms, vals, i + 1);
        let b = bound(text, ms, i + 1);
        let prev = substitute_from(text, ms, vals, i + 1);
        let rest = layout_from(text, ms, vals, i + 1, b);
        let s = ms[i].start;
        let e = ms[i].end;
        if i + 1 < ms.len() {
            assert(ms[i].end <= ms[i + 1].start);
        }
        assert(e <= b);
        lemma_layout_prefix(text, ms, vals, i + 1, e);
        assert(prev.take(s) =~= text.take(s));
        assert(prev.skip(e) =~= text.subrange(e, b) + rest);
        assert(layout_from(text, ms, vals, i, s) =~= text.subrange(s, s) + vals[i] + (text.subrange(e, b) + rest));
        assert(substitute_from(text, ms, vals, i) =~= text.take(s) + layout_from(text, ms, vals, i, s));
    }
}

/// Replacing markers rightmost first puts every value where its marker
/// stood: the output is the text before the first marker, its value, the
/// text between the first and the second marker, the second value, and so
/// on to the text after the last marker, whatever the values' lengths.
pub proof fn lemma_rightmost_first_layout(text: Seq<u8>, ms: Seq<Marker>, vals: Seq<Seq<u8>>)
    requires
        well_placed(ms, 0, text.len() as int),
    ensures
        render(text, ms, vals) == layout_from(text, ms, vals, 0, 0),
{
    lemma_substitute_layout(text, ms, vals, 0);
    lemma_layout_prefix(text, ms, vals, 0, 0);
    assert(text.subrange(0, bound(text, ms, 0)) =~= text.take(bound(text, ms, 0)));
}

proof fn lemma_markers_from_placed(s: Seq<u8>, p: int)
    requires
        0 <= p,
    ensures
        well_placed(markers_from(s, p), p, s.len() as int),
    decreases s.len() - p,
{
    if p < s.len() {
        if marker_at(s, p) {
            let e = close_from(s, p + 5) + 1;
            lemma_markers_from_placed(s, e);
            let ms = markers_from(s, p);
            let rest = markers_from(s, e);
            assert(ms =~= seq![ms[0]] + rest);
            assert forall|i: int| 0 <= i < ms.len() - 1 implies #[trigger] ms[i].end <= ms[i + 1].start by {
                if i > 0 {
                    assert(ms[i] == rest[i - 1] && ms[i + 1] == rest[i]);
                } else {
                    assert(ms[1] == rest[0]);
                }
            }
            assert forall|i: int| 0 <= i < ms.len() implies p <= #[trigger] ms[i].start < ms[i].end <= s.len() by {
                if i > 0 {
                    assert(ms[i] == rest[i - 1]);
                }
            }
        } else {
            lemma_markers_from_placed(s, p + 1);
        }
    }
}

/// The markers found in a template lie inside it, in order, apart.
pub proof fn lemma_markers_placed(s: Seq<u8>)
    ensures
        well_placed(markers(s), 0, s.len() as int),
{
    lemma_markers_from_placed(s, 0);
}

pub(crate) fn copy_range(src: &[u8], a: usize, b: usize, out: &mut Vec<u8>)
    requires
        a <= b <= src@.len(),
    ensures
        final(out)@ == old(out)@ + src@.subrange(a as int, b as int),
{
    let mut k: usize = a;
    while k < b
        invariant
            a <= k <= b <= src@.len(),
            out@ == old(out)@ + src@.subrange(a as int, k as int),
        decreases b - k,
    {
        out.push(src[k]);
        proof {
            assert(out@ =~= old(out)@ + src@.subrange(a as int, k + 1));
        }
        k = k + 1;
    }
}

/// `content` with each block replaced by the value at the same position of
/// `values`, rightmost block first so that the ranges of the blocks still to
/// be replaced stay valid.
pub fn replace_each_blocks(content: &[u8], values: &[Vec<u8>], blocks: &[EachBlock]) -> (r: Vec<u8>)
    requires
        values@.len() == blocks@.len(),
        well_placed(markers_of(blocks@), 0, content@.len() as int),
    ensures
        r@ == render(content@, markers_of(blocks@), views_of(values@)),
{
    let ghost ms = markers_of(blocks@);
    let ghost vals = views_of(values@);
    let mut result: Vec<u8> = Vec::new();
    copy_range(content, 0, content.len(), &mut result);
    assert(result@ =~= content@);
    let mut i: usize = blocks.len();
    while i > 0
        invariant
            i <= blocks@.len(),
            values@.len() == blocks@.len(),
            ms == markers_of(blocks@),
            vals == views_of(values@),
            well_placed(ms, 0, content@.len() as int),
            result@ == substitute_from(content@, ms, vals, i as int),
        decreases i,
    {
        i = i - 1;
        let b = &blocks[i];
        proof {
            lemma_substitute_layout(content@, ms, vals, i + 1);
            assert(ms[i as int] == b@);
            assert(0 <= ms[i as int].start < ms[i as int].end <= content@.len());
            if i + 1 < blocks@.len() {
                assert(ms[i + 1].start < ms[i + 1].end <= content@.len());
            }
            if i + 1 < blocks@.len() {
                assert(ms[i as int].end <= ms[i + 1].start);
            }
            let bb = bound(content@, ms, i + 1);
            assert(b.end <= bb <= content@.len());
            assert(result@.len() >= bb);
        }
        let mut next: Vec<u8> = Vec::new();
        copy_range(result.as_slice(), 0, b.start, &mut next);
        copy_range(values[i].as_slice(), 0, values[i].len(), &mut next);
        copy_range(result.as_slice(), b.end, result.len(), &mut next);
        proof {
            assert(values@[i as int]@.subrange(0, values@[i as int]@.len() as int) =~= vals[i as int]);
            assert(result@.subrange(0, b.start as int) =~= result@.take(b.start as int));
            assert(result@.subrange(b.end as int, result@.len() as int) =~= result@.skip(b.end as int));
        }
        result = next;
    }
    result
}

/// `m` moved by `d` bytes.
pub open spec fn shifted(m: Marker, d: int) -> Marker {
    Marker { values: m.values, start: m.start + d, end: m.end + d }
}

/// The markers without marker `i`, those after it moved by `d` bytes.
pub open spec fn without_marker(ms: Seq<Marker>, i: int, d: int) -> Seq<Marker> {
    Seq::new((ms.len() - 1) as nat, |j: int| if j < i { ms[j] } else { shifted(ms[j + 1], d) })
}

proof fn lemma_placed_ordered(ms: Seq<Marker>, lo: int, hi: int, j: int, i: int)
    requires
        well_placed(ms, lo, hi),
        0 <= j < i < ms.len(),
    ensures
        ms[j].end <= ms[i].start,
    decreases i,
{
    if i > j + 1 {
        lemma_placed_ordered(ms, lo, hi, j, i - 1);
        assert(ms[i - 1].start < ms[i - 1].end);
        assert(ms[i - 1].end <= ms[i].start);
    } else {
        assert(ms[j].end <= ms[j + 1].start);
    }
}

proof fn lemma_layout_after(
    text: Seq<u8>,
    ms: Seq<Marker>,
    vals: Seq<Seq<u8>>,
    i: int,
    j: int,
    from: int,
)
    requires
        well_placed(ms, 0, text.len() as int),
        vals.len() == ms.len(),
        0 <= i < j <= ms.len(),
        ms[i].end <= from <= bound(text, ms, j),
    ensures
        ({
            let d = vals[i].len() - (ms[i].end - ms[i].start);
            layout_from(text, ms, vals, j, from) == layout_from(
                replace_range(text, ms[i].start, ms[i].end, vals[i]),
                without_marker(ms, i, d),
                vals.remove(i),
                j - 1,
                from + d,
            )
        }),
    decreases ms.len() - j,
{
    let d = vals[i].len() - (ms[i].end - ms[i].start);
    let t2 = replace_range(text, ms[i].start, ms[i].end, vals[i]);
    let ms2 = without_marker(ms, i, d);
    let vals2 = vals.remove(i);
    assert(ms[i].start < ms[i].end <= text.len());
    assert(t2.len() == text.len() + d);
    if j < ms.len() {
        assert(ms[j].start < ms[j].end <= text.len());
        if j + 1 < ms.len() {
            assert(ms[j].end <= ms[j + 1].start);
            assert(ms[j + 1].start < ms[j + 1].end);
        }
        lemma_layout_after(text, ms, vals, i, j + 1, ms[j].end);
        assert(ms2[j - 1] == shifted(ms[j], d));
        assert(vals2[j - 1] == vals[j]);
        assert(t2.subrange(from + d, ms[j].start + d) =~= text.subrange(from, ms[j].start));
    } else {
        assert(t2.subrange(from + d, t2.len() as int) =~= text.subrange(from, text.len() as int));
    }
}

proof fn lemma_layout_before(
    text: Seq<u8>,
    ms: Seq<Marker>,
    vals: Seq<Seq<u8>>,
    i: int,
    j: int,
    from: int,
)
    requires
        well_placed(ms, 0, text.len() as int),
        vals.len() == ms.len(),
        0 <= j <= i < ms.len(),
        0 <= from <= ms[j].start,
    ensures
        ({
            let d = vals[i].len() - (ms[i].end - ms[i].start);
            layout_from(text, ms, vals, j, from) == layout_from(
                replace_range(text, ms[i].start, ms[i].end, vals[i]),
                without_marker(ms, i, d),
                vals.remove(i),
                j,
                from,
            )
        }),
    decreases i - j,
{
    let s = ms[i].start;
    let e = ms[i].end;
    let v = vals[i];
    let d = v.len() - (e - s);
    let t2 = replace_range(text, s, e, v);
    let ms2 = without_marker(ms, i, d);
    let vals2 = vals.remove(i);
    assert(s < e <= text.len());
    assert(t2.len() == text.len() + d);
    if j < i {
        lemma_placed_ordered(ms, 0, text.len() as int, j, i);
        assert(ms[j].start < ms[j].end);
        assert(ms[j].end <= ms[j + 1].start);
        lemma_layout_before(text, ms, vals, i, j + 1, ms[j].end);
        assert(ms2[j] == ms[j]);
        assert(vals2[j] == vals[j]);
        assert(t2.subrange(from, ms[j].start) =~= text.subrange(from, ms[j].start));
    } else {
        if i + 1 < ms.len() {
            assert(e <= ms[i + 1].start);
            assert(ms[i + 1].start < ms[i + 1].end <= text.len());
            assert(ms2[i] == shifted(ms[i + 1], d));
        }
        lemma_layout_after(text, ms, vals, i, i + 1, e);
        assert(e + d <= bound(t2, ms2, i) <= t2.len());
        lemma_layout_prefix(t2, ms2, vals2, i, from);
        lemma_layout_prefix(t2, ms2, vals2, i, e + d);
        assert(t2.subrange(from, e + d) =~= text.subrange(from, s) + v);
        assert(layout_from(t2, ms2, vals2, i, from) =~= t2.subrange(from, e + d) + layout_from(
            t2,
            ms2,
            vals2,
            i,
            e + d,
        )) by {
            assert(t2.subrange(from, bound(t2, ms2, i)) =~= t2.subrange(from, e + d) + t2.subrange(e + d, bound(t2, ms2, i)));
        }
    }
}

/// Replacing marker `i` by its value in the template itself, and then the
/// other markers by theirs, gives the same text as replacing all markers:
/// substitution changes nothing but the markers' bytes.
pub proof fn lemma_value_written_in(text: Seq<u8>, ms: Seq<Marker>, vals: Seq<Seq<u8>>, i: int)
    requires
        well_placed(ms, 0, text.len() as int),
        vals.len() == ms.len(),
        0 <= i < ms.len(),
    ensures
        render(text, ms, vals) == render(
            replace_range(text, ms[i].start, ms[i].end, vals[i]),
            without_marker(ms, i, vals[i].len() - (ms[i].end - ms[i].start)),
            vals.remove(i),
        ),
{
    let s = ms[i].start;
    let e = ms[i].end;
    let d = vals[i].len() - (e - s);
    let t2 = replace_range(text, s, e, vals[i]);
    let ms2 = without_marker(ms, i, d);
    assert(s < e <= text.len());
    assert(well_placed(ms2, 0, t2.len() as int)) by {
        assert forall|j: int| 0 <= j < ms2.len() implies 0 <= #[trigger] ms2[j].start < ms2[j].end <= t2.len() by {
            if j >= i {
                lemma_placed_ordered(ms, 0, text.len() as int, i, j + 1);
                assert(ms[j + 1].start < ms[j + 1].end <= text.len());
            } else {
                assert(ms[j].start < ms[j].end <= text.len());
                lemma_placed_ordered(ms, 0, text.len() as int, j, i);
            }
        }
        assert forall|j: int| 0 <= j < ms2.len() - 1 implies #[trigger] ms2[j].end <= ms2[j + 1].start by {
            if j >= i {
                assert(ms[j + 1].end <= ms[j + 2].start);
            } else if j + 1 < i {
                assert(ms[j].end <= ms[j + 1].start);
            } else {
                assert(ms[j].end <= ms[j + 1].start);
                lemma_placed_ordered(ms, 0, text.len() as int, i, i + 1);
            }
        }
    }
    lemma_rightmost_first_layout(text, ms, vals);
    lemma_rightmost_first_layout(t2, ms2, vals.remove(i));
    assert(0 <= ms[0].start);
    lemma_layout_before(text, ms, vals, i, 0, 0);
}

} // verus!
