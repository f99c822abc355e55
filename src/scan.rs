use vstd::prelude::*;

verus! {

/// Width of the UTF-8 encoding of a Unicode `White_Space` character that
/// begins at byte `i` of `s`, or 0 where none begins there.
pub open spec fn ws_width_at(s: Seq<u8>, i: int) -> int {
    if 0 <= i < s.len() && (9 <= s[i] <= 13 || s[i] == 32) {
        1
    } else if 0 <= i && i + 1 < s.len() && s[i] == 0xC2 && (s[i + 1] == 0x85 || s[i + 1] == 0xA0) {
        2
    } else if 0 <= i && i + 2 < s.len() && (
        (s[i] == 0xE1 && s[i + 1] == 0x9A && s[i + 2] == 0x80)
        || (s[i] == 0xE2 && s[i + 1] == 0x80 && (0x80 <= s[i + 2] <= 0x8A || s[i + 2] == 0xA8
            || s[i + 2] == 0xA9 || s[i + 2] == 0xAF))
        || (s[i] == 0xE2 && s[i + 1] == 0x81 && s[i + 2] == 0x9F)
        || (s[i] == 0xE3 && s[i + 1] == 0x80 && s[i + 2] == 0x80)) {
        3
    } else {
        0
    }
}

/// Width of the encoding of a whitespace character that ends just before
/// byte `j` of `s`, or 0 where none ends there.
pub open spec fn ws_width_before(s: Seq<u8>, j: int) -> int {
    if ws_width_at(s, j - 1) == 1 {
        1
    } else if ws_width_at(s, j - 2) == 2 {
        2
    } else if ws_width_at(s, j - 3) == 3 {
        3
    } else {
        0
    }
}

/// `s` without its leading whitespace.
pub open spec fn trim_start(s: Seq<u8>) -> Seq<u8>
    decreases s.len(),
{
    let w = ws_width_at(s, 0);
    if w > 0 {
        trim_start(s.skip(w))
    } else {
        s
    }
}

/// `s` without its trailing whitespace.
pub open spec fn trim_end(s: Seq<u8>) -> Seq<u8>
    decreases s.len(),
{
    let w = ws_width_before(s, s.len() as int);
    if w > 0 {
        trim_end(s.take(s.len() - w))
    } else {
        s
    }
}

/// `s` without leading and trailing whitespace.
pub open spec fn trim(s: Seq<u8>) -> Seq<u8> {
    trim_end(trim_start(s))
}

fn ws_width_at_exec(s: &[u8], i: usize, hi: usize) -> (r: usize)
    requires
        i <= hi <= s@.len(),
    ensures
        r as int == ws_width_at(s@.subrange(0, hi as int), i as int),
{
    if i < hi && ((9 <= s[i] && s[i] <= 13) || s[i] == 32) {
        1
    } else if hi - i > 1 && s[i] == 0xC2 && (s[i + 1] == 0x85 || s[i + 1] == 0xA0) {
        2
    } else if hi - i > 2 && (
        (s[i] == 0xE1 && s[i + 1] == 0x9A && s[i + 2] == 0x80)
        || (s[i] == 0xE2 && s[i + 1] == 0x80 && ((0x80 <= s[i + 2] && s[i + 2] <= 0x8A)
            || s[i + 2] == 0xA8 || s[i + 2] == 0xA9 || s[i + 2] == 0xAF))
        || (s[i] == 0xE2 && s[i + 1] == 0x81 && s[i + 2] == 0x9F)
        || (s[i] == 0xE3 && s[i + 1] == 0x80 && s[i + 2] == 0x80)) {
        3
    } else {
        0
    }
}

/// Copies `s` without the whitespace at either end, as `str::trim` does on
/// the UTF-8 text that `s` encodes.
pub fn trim_whitespace(s: &[u8]) -> (r: Vec<u8>)
    ensures
        r@ == trim(s@),
{
    let mut lo: usize = 0;
    assert(s@.skip(0) =~= s@);
    while lo < s.len() && ws_width_at_exec(s, lo, s.len()) > 0
        invariant
            lo <= s@.len(),
            trim_start(s@) == trim_start(s@.skip(lo as int)),
        decreases s@.len() - lo,
    {
        let w = ws_width_at_exec(s, lo, s.len());
        proof {
            assert(s@.subrange(0, s@.len() as int) =~= s@);
            assert(ws_width_at(s@.skip(lo as int), 0) == w);
            assert(s@.skip(lo as int).skip(w as int) =~= s@.skip(lo + w));
        }
        lo = lo + w;
    }
    proof {
        assert(s@.subrange(0, s@.len() as int) =~= s@);
        if lo < s@.len() {
            assert(ws_width_at(s@.skip(lo as int), 0) == ws_width_at(s@, lo as int));
        } else {
            assert(ws_width_at(s@.skip(lo as int), 0) == 0);
        }
        assert(trim_start(s@.skip(lo as int)) == s@.skip(lo as int));
        assert(s@.skip(lo as int) =~= s@.subrange(lo as int, s@.len() as int));
    }
    let mut hi: usize = s.len();
    loop
        invariant
            lo <= hi <= s@.len(),
            trim(s@) == trim_end(s@.subrange(lo as int, hi as int)),
        ensures
            lo <= hi <= s@.len(),
            trim(s@) == s@.subrange(lo as int, hi as int),
        decreases hi - lo,
    {
        let ghost t = s@.subrange(lo as int, hi as int);
        let mut w: usize = 0;
        if hi - lo >= 1 && ws_width_at_exec(s, hi - 1, hi) == 1 {
            w = 1;
        } else if hi - lo >= 2 && ws_width_at_exec(s, hi - 2, hi) == 2 {
            w = 2;
        } else if hi - lo >= 3 && ws_width_at_exec(s, hi - 3, hi) == 3 {
            w = 3;
        }
        proof {
            let u = s@.subrange(0, hi as int);
            if hi >= lo + 1 {
                assert(ws_width_at(t, t.len() - 1) == ws_width_at(u, hi - 1));
            }
            if hi >= lo + 2 {
                assert(ws_width_at(t, t.len() - 2) == ws_width_at(u, hi - 2));
            }
            if hi >= lo + 3 {
                assert(ws_width_at(t, t.len() - 3) == ws_width_at(u, hi - 3));
            }
            assert(w == ws_width_before(t, t.len() as int));
            assert(t.take(t.len() - w) =~= s@.subrange(lo as int, hi - w));
        }
        if w == 0 {
            assert(trim_end(t) == t);
            break;
        }
        hi = hi - w;
    }
    let mut r: Vec<u8> = Vec::new();
    let mut k: usize = lo;
    while k < hi
        invariant
            lo <= k <= hi <= s@.len(),
            r@ == s@.subrange(lo as int, k as int),
        decreases hi - k,
    {
        r.push(s[k]);
        proof {
            assert(r@ =~= s@.subrange(lo as int, k + 1));
        }
        k = k + 1;
    }
    r
}

/// The views of a sequence of byte vectors.
pub open spec fn views_of(v: Seq<Vec<u8>>) -> Seq<Seq<u8>> {
    v.map_values(|b: Vec<u8>| b@)
}

/// The pieces of `s` between its commas, in order: one more piece than
/// there are commas, so an empty `s` is a single empty piece.
pub open spec fn split_commas(s: Seq<u8>) -> Seq<Seq<u8>>
    decreases s.len(),
{
    if s.len() == 0 {
        seq![Seq::empty()]
    } else {
        let r = split_commas(s.drop_last());
        if s.last() == 44u8 {
            r.push(Seq::empty())
        } else {
            r.update(r.len() - 1, r.last().push(s.last()))
        }
    }
}

/// The values that a marker with inner text `inner` declares.
pub open spec fn values_of(inner: Seq<u8>) -> Seq<Seq<u8>> {
    split_commas(inner).map_values(|p: Seq<u8>| trim(p))
}

/// Splits `s[lo..hi]` on commas and trims each piece.
fn split_values(s: &[u8], lo: usize, hi: usize) -> (r: Vec<Vec<u8>>)
    requires
        lo <= hi <= s@.len(),
    ensures
        views_of(r@) == values_of(s@.subrange(lo as int, hi as int)),
{
    let mut values: Vec<Vec<u8>> = Vec::new();
    let mut current: Vec<u8> = Vec::new();
    let mut k: usize = lo;
    proof {
        assert(s@.subrange(lo as int, lo as int) =~= Seq::<u8>::empty());
        assert(views_of(values@) =~= split_commas(Seq::<u8>::empty()).drop_last().map_values(
            |p: Seq<u8>| trim(p),
        ));
    }
    while k < hi
        invariant
            lo <= k <= hi <= s@.len(),
            split_commas(s@.subrange(lo as int, k as int)).len() >= 1,
            views_of(values@) == split_commas(s@.subrange(lo as int, k as int)).drop_last().map_values(
                |p: Seq<u8>| trim(p),
            ),
            current@ == split_commas(s@.subrange(lo as int, k as int)).last(),
        decreases hi - k,
    {
        let ghost t = s@.subrange(lo as int, k as int);
        let ghost t2 = s@.subrange(lo as int, k + 1);
        let ghost sp = split_commas(t);
        proof {
            assert(t2.drop_last() =~= t);
            assert(t2.last() == s@[k as int]);
        }
        if s[k] == 44u8 {
            let piece = trim_whitespace(current.as_slice());
            let ghost old_values = values@;
            values.push(piece);
            current = Vec::new();
            proof {
                let sp2 = split_commas(t2);
                assert(sp2 == sp.push(Seq::empty()));
                assert(sp2.drop_last() =~= sp);
                assert(values@ =~= old_values.push(piece));
                assert(sp =~= sp.drop_last().push(sp.last()));
                assert(views_of(values@) =~= views_of(old_values).push(piece@));
                assert(sp.map_values(|p: Seq<u8>| trim(p)) =~= sp.drop_last().map_values(
                    |p: Seq<u8>| trim(p),
                ).push(trim(sp.last())));
                assert(views_of(values@) =~= views_of(old_values).push(piece@));
        assert(sp.map_values(|p: Seq<u8>| trim(p)) =~= sp.drop_last().map_values(
            |p: Seq<u8>| trim(p),
        ).push(trim(sp.last())));
        assert(views_of(values@) =~= sp.map_values(|p: Seq<u8>| trim(p)));
                assert(current@ =~= sp2.last());
            }
        } else {
            current.push(s[k]);
            proof {
                let sp2 = split_commas(t2);
                assert(sp2 == sp.update(sp.len() - 1, sp.last().push(s@[k as int])));
                assert(sp2.drop_last() =~= sp.drop_last());
            }
        }
        k = k + 1;
    }
    let piece = trim_whitespace(current.as_slice());
    let ghost old_values = values@;
    values.push(piece);
    proof {
        let sp = split_commas(s@.subrange(lo as int, hi as int));
        assert(values@ =~= old_values.push(piece));
        assert(sp =~= sp.drop_last().push(sp.last()));
        assert(views_of(values@) =~= views_of(old_values).push(piece@));
        assert(sp.map_values(|p: Seq<u8>| trim(p)) =~= sp.drop_last().map_values(
            |p: Seq<u8>| trim(p),
        ).push(trim(sp.last())));
        assert(views_of(values@) =~= sp.map_values(|p: Seq<u8>| trim(p)));
    }
    values
}

/// One `EACH<...>` marker found in a template: its values, and the byte
/// range `start..end` that it covers, delimiters included.
pub struct EachBlock {
    pub values: Vec<Vec<u8>>,
    pub start: usize,
    pub end: usize,
}

/// What a marker is, as a value.
pub ghost struct Marker {
    pub values: Seq<Seq<u8>>,
    pub start: int,
    pub end: int,
}

impl View for EachBlock {
    type V = Marker;

    open spec fn view(&self) -> Marker {
        Marker { values: views_of(self.values@), start: self.start as int, end: self.end as int }
    }
}

/// The views of a sequence of blocks.
pub open spec fn markers_of(bs: Seq<EachBlock>) -> Seq<Marker> {
    bs.map_values(|b: EachBlock| b@)
}

/// The opening token `EACH<` starts at byte `i` of `s`.
pub open spec fn opens_at(s: Seq<u8>, i: int) -> bool {
    0 <= i && i + 5 <= s.len() && s[i] == 69u8 && s[i + 1] == 65u8 && s[i + 2] == 67u8
        && s[i + 3] == 72u8 && s[i + 4] == 60u8
}

/// The index of the first `>` at or after `k`, or the length of `s` if none.
pub open spec fn close_from(s: Seq<u8>, k: int) -> int
    decreases s.len() - k,
{
    if k >= s.len() {
        s.len() as int
    } else if s[k] == 62u8 {
        k
    } else {
        close_from(s, k + 1)
    }
}

/// A marker starts at byte `i`: the opening token, at least one byte other
/// than `>`, then a `>`.
pub open spec fn marker_at(s: Seq<u8>, i: int) -> bool {
    opens_at(s, i) && i + 5 < close_from(s, i + 5) < s.len()
}

/// The marker that starts at byte `i`.
pub open spec fn marker(s: Seq<u8>, i: int) -> Marker {
    let c = close_from(s, i + 5);
    Marker { values: values_of(s.subrange(i + 5, c)), start: i, end: c + 1 }
}

/// The markers of `s` at or after byte `p`, leftmost first, none overlapping.
pub open spec fn markers_from(s: Seq<u8>, p: int) -> Seq<Marker>
    decreases s.len() - p,
{
    if p < 0 || p >= s.len() {
        Seq::empty()
    } else if marker_at(s, p) {
        seq![marker(s, p)] + markers_from(s, close_from(s, p + 5) + 1)
    } else {
        markers_from(s, p + 1)
    }
}

/// All markers of the template `s`, in order of appearance.
pub open spec fn markers(s: Seq<u8>) -> Seq<Marker> {
    markers_from(s, 0)
}

/// Finds every `EACH<...>` marker of `content`, leftmost first: for each one
/// its byte range and its comma separated values, each trimmed of
/// whitespace. A `EACH<` with no `>` after it, or with `>` right after it,
/// is ordinary text.
pub fn parse_each_blocks(content: &[u8]) -> (r: Vec<EachBlock>)
    ensures
        markers_of(r@) == markers(content@),
{
    let ghost s = content@;
    let len = content.len();
    let mut blocks: Vec<EachBlock> = Vec::new();
    let mut p: usize = 0;
    while p < len
        invariant
            len == s.len(),
            s == content@,
            p <= len,
            markers_of(blocks@) + markers_from(s, p as int) == markers(s),
        decreases len - p,
    {
        let opens = len - p >= 5 && content[p] == 69u8 && content[p + 1] == 65u8
            && content[p + 2] == 67u8 && content[p + 3] == 72u8 && content[p + 4] == 60u8;
        let mut found = false;
        if opens {
            let mut k: usize = p + 5;
            while k < len && content[k] != 62u8
                invariant
                    len == s.len(),
                    s == content@,
                    p + 5 <= k <= len,
                    close_from(s, p + 5) == close_from(s, k as int),
                decreases len - k,
            {
                k = k + 1;
            }
            assert(close_from(s, k as int) == k);
            if k > p + 5 && k < len {
                let values = split_values(content, p + 5, k);
                let ghost old_blocks = blocks@;
                let b = EachBlock { values, start: p, end: k + 1 };
                proof {
                    assert(b@ == marker(s, p as int));
                }
                blocks.push(b);
                proof {
                    assert(markers_of(blocks@) =~= markers_of(old_blocks).push(b@));
                    assert(markers_from(s, p as int) == seq![marker(s, p as int)] + markers_from(
                        s,
                        k + 1,
                    ));
                    assert(markers_of(blocks@) + markers_from(s, k + 1) =~= markers_of(old_blocks)
                        + markers_from(s, p as int));
                }
                p = k + 1;
                found = true;
            }
        }
        if !found {
            proof {
                assert(!marker_at(s, p as int));
                assert(markers_from(s, p as int) == markers_from(s, p + 1));
            }
            p = p + 1;
        }
    }
    proof {
        assert(markers_from(s, p as int) == Seq::<Marker>::empty());
        assert(markers_of(blocks@) =~= markers_of(blocks@) + markers_from(s, p as int));
    }
    blocks
}

} // verus!
