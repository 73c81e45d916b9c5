//! Deterministic image-segmentation pipeline: from a raw palette-indexed
//! bitmap with alpha metadata to one cropped, bordered, binarized grayscale
//! image per text line.

use crate::opt::Opt;
use crate::opt::Threshold;
use vstd::prelude::*;

verus! {

use vstd::arithmetic::div_mod::lemma_fundamental_div_mod;
use vstd::arithmetic::div_mod::lemma_mod_bound;

/// A time span with millisecond precision.
#[derive(Clone, Copy, Debug, PartialEq, Eq, Structural)]
pub struct TimeSpan {
    pub start_ms: i64,
    pub end_ms: i64,
}

/// One decoded subtitle event: geometry, raw index buffer, the event-local
/// palette and its alpha array (both stored in reverse presentation order, a
/// convention of the source bitmap format), and its time span.
pub struct SubtitleEvent {
    pub start_ms: i64,
    pub end_ms: i64,
    pub force: bool,
    pub width: usize,
    pub height: usize,
    /// Row-major per-pixel indices into the local palette; each is below 4.
    pub raw: Vec<u8>,
    /// Four indices into the 16-entry global palette, reversed: local slot
    /// `s` of the raw buffer corresponds to entry `3 - s` here.
    pub palette: Vec<u8>,
    /// Four alpha values in the same reversed convention.
    pub alpha: Vec<u8>,
}

impl SubtitleEvent {
    pub open spec fn wf(self) -> bool {
        &&& self.raw@.len() == self.width * self.height
        &&& forall|i: int| 0 <= i < self.raw@.len() ==> self.raw@[i] < 4
        &&& self.palette@.len() == 4
        &&& forall|i: int| 0 <= i < 4 ==> self.palette@[i] < 16
        &&& self.alpha@.len() == 4
    }
}

/// Whether local palette slot `s` appears anywhere in the raw buffer.
pub open spec fn slot_used(raw: Seq<u8>, s: int) -> bool {
    exists|i: int| 0 <= i < raw.len() && raw[i] as int == s
}

/// Whether slot `s` is visible: it is used by some pixel and its alpha entry
/// (read at the reversed index) is non-zero.
pub open spec fn visible_slot(ev: SubtitleEvent, s: int) -> bool {
    slot_used(ev.raw@, s) && ev.alpha@[3 - s] != 0
}

/// The visibility mask of all four slots.
pub open spec fn visibility_mask(ev: SubtitleEvent) -> Seq<bool> {
    Seq::new(4, |s: int| visible_slot(ev, s))
}

/// Luminance of local slot `s`: its palette entry is read at the reversed
/// index, then looked up in the 16-entry luminance palette.
pub open spec fn slot_luminance(lum: Seq<u32>, pal: Seq<u8>, s: int) -> int {
    lum[pal[3 - s] as int] as int
}

/// Maximum luminance among the visible slots below `n`; 0 when none is
/// visible.
pub open spec fn max_visible_luminance_upto(
    lum: Seq<u32>,
    pal: Seq<u8>,
    vis: Seq<bool>,
    n: int,
) -> int
    decreases n,
{
    if n <= 0 {
        0
    } else {
        let prev = max_visible_luminance_upto(lum, pal, vis, n - 1);
        if vis[n - 1] && slot_luminance(lum, pal, n - 1) > prev {
            slot_luminance(lum, pal, n - 1)
        } else {
            prev
        }
    }
}

/// Maximum luminance among all four slots that are visible; 0 when none is.
pub open spec fn max_visible_luminance(lum: Seq<u32>, pal: Seq<u8>, vis: Seq<bool>) -> int {
    max_visible_luminance_upto(lum, pal, vis, 4)
}

/// Whether slot `s` is classified as ink: some visible slot has non-zero
/// luminance, `s` itself is visible, and its luminance normalized by the
/// maximum strictly exceeds the threshold.
pub open spec fn ink_slot(
    lum: Seq<u32>,
    pal: Seq<u8>,
    vis: Seq<bool>,
    thr: Threshold,
    s: int,
) -> bool {
    let m = max_visible_luminance(lum, pal, vis);
    m > 0 && vis[s] && slot_luminance(lum, pal, s) * thr.den > thr.num * m
}

/// The ink classification of all four slots.
pub open spec fn ink_table(lum: Seq<u32>, pal: Seq<u8>, vis: Seq<bool>, thr: Threshold) -> Seq<
    bool,
> {
    Seq::new(4, |s: int| ink_slot(lum, pal, vis, thr, s))
}

/// Inputs on which the binarizer's model is meaningful.
pub open spec fn binarize_inputs_wf(lum: Seq<u32>, pal: Seq<u8>, vis: Seq<bool>) -> bool {
    &&& lum.len() == 16
    &&& pal.len() == 4
    &&& (forall|i: int| 0 <= i < 4 ==> pal[i] < 16)
    &&& vis.len() == 4
}

proof fn lemma_max_upto_bounds(lum: Seq<u32>, pal: Seq<u8>, vis: Seq<bool>, n: int)
    requires
        0 <= n <= 4,
        binarize_inputs_wf(lum, pal, vis),
    ensures
        max_visible_luminance_upto(lum, pal, vis, n) >= 0,
        forall|s: int|
            0 <= s < n && vis[s] ==> slot_luminance(lum, pal, s) <= max_visible_luminance_upto(
                lum,
                pal,
                vis,
                n,
            ),
        max_visible_luminance_upto(lum, pal, vis, n) > 0 ==> exists|s: int|
            0 <= s < n && vis[s] && slot_luminance(lum, pal, s) == max_visible_luminance_upto(
                lum,
                pal,
                vis,
                n,
            ),
    decreases n,
{
    if n > 0 {
        lemma_max_upto_bounds(lum, pal, vis, n - 1);
    }
}

/// Binarizer: classifies each local palette slot as ink or background by
/// normalized luminance against the threshold. Invisible slots are always
/// background; a blank image (no visible slot, or all at zero luminance)
/// yields an all-background table.
pub fn binarize_palette(
    palette: &Vec<u32>,
    sub_palette: &Vec<u8>,
    sub_palette_visibility: &Vec<bool>,
    threshold: Threshold,
) -> (r: Vec<bool>)
    requires
        binarize_inputs_wf(palette@, sub_palette@, sub_palette_visibility@),
        threshold.wf(),
    ensures
        r@ == ink_table(palette@, sub_palette@, sub_palette_visibility@, threshold),
{
    let ghost lum = palette@;
    let ghost pal = sub_palette@;
    let ghost vis = sub_palette_visibility@;
    // Find the max luminance among visible slots, so each can be normalized
    // by it. The sub palette is read in reversed order.
    let mut max_luminance: u32 = 0;
    let mut s: usize = 0;
    while s < 4
        invariant
            binarize_inputs_wf(lum, pal, vis),
            lum == palette@,
            pal == sub_palette@,
            vis == sub_palette_visibility@,
            s <= 4,
            max_luminance as int == max_visible_luminance_upto(lum, pal, vis, s as int),
        decreases 4 - s,
    {
        if sub_palette_visibility[s] {
            let luminance = palette[sub_palette[3 - s] as usize];
            if luminance > max_luminance {
                max_luminance = luminance;
            }
        }
        s = s + 1;
    }

    let mut r: Vec<bool> = Vec::new();
    if max_luminance == 0 {
        // Blank image.
        r.push(false);
        r.push(false);
        r.push(false);
        r.push(false);
        proof {
            assert(r@ =~= ink_table(lum, pal, vis, threshold));
        }
        return r;
    }

    let mut s: usize = 0;
    while s < 4
        invariant
            binarize_inputs_wf(lum, pal, vis),
            lum == palette@,
            pal == sub_palette@,
            vis == sub_palette_visibility@,
            threshold.wf(),
            s <= 4,
            max_luminance as int == max_visible_luminance(lum, pal, vis),
            max_luminance > 0,
            r@.len() == s,
            forall|t: int| 0 <= t < s ==> r@[t] == ink_slot(lum, pal, vis, threshold, t),
        decreases 4 - s,
    {
        let ink = if sub_palette_visibility[s] {
            let luminance = palette[sub_palette[3 - s] as usize];
            proof {
                assert((luminance as int) * (threshold.den as int) <= 0xffff_ffff * 0xffff_ffff
                    && (threshold.num as int) * (max_luminance as int) <= 0xffff_ffff * 0xffff_ffff)
                    by (nonlinear_arith)
                    requires
                        luminance <= 0xffff_ffffu32,
                        threshold.den <= 0xffff_ffffu32,
                        threshold.num <= 0xffff_ffffu32,
                        max_luminance <= 0xffff_ffffu32,
                ;
            }
            (luminance as u64) * (threshold.den as u64) > (threshold.num as u64) * (max_luminance
                as u64)
        } else {
            false
        };
        r.push(ink);
        s = s + 1;
    }
    proof {
        assert(r@ =~= ink_table(lum, pal, vis, threshold));
    }
    r
}

/// At threshold one (`num == den`), no slot is ink: normalized luminance
/// never strictly exceeds one.
pub proof fn lemma_threshold_one_no_ink(lum: Seq<u32>, pal: Seq<u8>, vis: Seq<bool>, thr: Threshold)
    requires
        binarize_inputs_wf(lum, pal, vis),
        thr.wf(),
        thr.num == thr.den,
    ensures
        forall|s: int| 0 <= s < 4 ==> !ink_table(lum, pal, vis, thr)[s],
{
    lemma_max_upto_bounds(lum, pal, vis, 4);
    let m = max_visible_luminance(lum, pal, vis);
    assert forall|s: int| 0 <= s < 4 implies !ink_table(lum, pal, vis, thr)[s] by {
        if m > 0 && vis[s] {
            let l = slot_luminance(lum, pal, s);
            assert(l <= m);
            assert(l * thr.den <= thr.num * m) by (nonlinear_arith)
                requires
                    l <= m,
                    thr.num == thr.den,
                    thr.den > 0,
            ;
        }
    }
}

/// At threshold zero, every visible slot with non-zero luminance is ink, and
/// nothing else is.
pub proof fn lemma_threshold_zero_ink(lum: Seq<u32>, pal: Seq<u8>, vis: Seq<bool>, thr: Threshold)
    requires
        binarize_inputs_wf(lum, pal, vis),
        thr.wf(),
        thr.num == 0,
    ensures
        forall|s: int|
            0 <= s < 4 ==> ink_table(lum, pal, vis, thr)[s] == (vis[s] && slot_luminance(
                lum,
                pal,
                s,
            ) > 0),
{
    lemma_max_upto_bounds(lum, pal, vis, 4);
    let m = max_visible_luminance(lum, pal, vis);
    assert forall|s: int| 0 <= s < 4 implies ink_table(lum, pal, vis, thr)[s] == (vis[s]
        && slot_luminance(lum, pal, s) > 0) by {
        let l = slot_luminance(lum, pal, s);
        if m > 0 {
            if vis[s] {
                assert(l * thr.den > 0 <==> l > 0) by (nonlinear_arith)
                    requires
                        thr.den > 0,
                        l >= 0,
                ;
            }
        } else {
            // Max luminance zero: every visible slot's luminance is zero.
            if vis[s] {
                assert(l <= m);
            }
        }
    }
}

/// A blank event: when every visible slot has zero luminance, the whole ink
/// table is background, so the event yields zero text regions.
pub proof fn lemma_blank_event_no_ink(lum: Seq<u32>, pal: Seq<u8>, vis: Seq<bool>, thr: Threshold)
    requires
        binarize_inputs_wf(lum, pal, vis),
        thr.wf(),
        forall|s: int| 0 <= s < 4 && vis[s] ==> slot_luminance(lum, pal, s) == 0,
    ensures
        forall|s: int| 0 <= s < 4 ==> !ink_table(lum, pal, vis, thr)[s],
{
    lemma_max_upto_bounds(lum, pal, vis, 4);
}

/// An event whose raw buffer uses only fully transparent slots (alpha zero at
/// the reversed index) has an all-false visibility mask.
pub proof fn lemma_transparent_event_invisible(ev: SubtitleEvent)
    requires
        ev.wf(),
        forall|s: int| 0 <= s < 4 && slot_used(ev.raw@, s) ==> ev.alpha@[3 - s] == 0,
    ensures
        forall|s: int| 0 <= s < 4 ==> !visibility_mask(ev)[s],
{
}

/// Whether slot `s` appears in `raw`.
fn slot_appears(raw: &Vec<u8>, s: u8) -> (r: bool)
    ensures
        r == slot_used(raw@, s as int),
{
    let n = raw.len();
    let mut i: usize = 0;
    while i < n
        invariant
            n == raw@.len(),
            i <= n,
            forall|j: int| 0 <= j < i ==> raw@[j] != s,
        decreases n - i,
    {
        if raw[i] == s {
            return true;
        }
        i = i + 1;
    }
    false
}

/// Visibility Analyzer: marks each of the four local palette slots as visible
/// if some pixel uses it and its (reversed-index) alpha is non-zero.
pub fn generate_visibility_palette(ev: &SubtitleEvent) -> (r: Vec<bool>)
    requires
        ev.wf(),
    ensures
        r@ == visibility_mask(*ev),
{
    let mut r: Vec<bool> = Vec::new();
    let mut s: usize = 0;
    while s < 4
        invariant
            ev.wf(),
            s <= 4,
            r@.len() == s,
            forall|t: int| 0 <= t < s ==> r@[t] == visible_slot(*ev, t),
        decreases 4 - s,
    {
        let used = slot_appears(&ev.raw, s as u8);
        let vis = used && ev.alpha[3 - s] != 0;
        r.push(vis);
        s = s + 1;
    }
    proof {
        assert(r@ =~= visibility_mask(*ev));
    }
    r
}

/// Left and right boundaries of the ink pixels on one scanline.
#[derive(Clone, Copy, Debug)]
pub struct ScanlineExtent {
    pub left: usize,
    pub right: usize,
}

/// The mathematical value of an optional extent.
pub open spec fn extent_view(e: Option<ScanlineExtent>) -> Option<(int, int)> {
    match e {
        Option::None => Option::None,
        Option::Some(se) => Option::Some((se.left as int, se.right as int)),
    }
}

/// Whether the pixel at column `x` of row `y` is ink under the given table.
pub open spec fn px_ink(ev: SubtitleEvent, ink: Seq<bool>, x: int, y: int) -> bool {
    ink[ev.raw@[y * ev.width + x] as int]
}

/// The extent contributed by the single column `x` of row `y`.
pub open spec fn col_extent(ev: SubtitleEvent, ink: Seq<bool>, x: int, y: int) -> Option<
    (int, int),
> {
    if px_ink(ev, ink, x, y) {
        Option::Some((x, x))
    } else {
        Option::None
    }
}

/// Merge of two partial extents: componentwise min/max, with an absent side
/// as the identity.
pub open spec fn merge_extents(a: Option<(int, int)>, b: Option<(int, int)>) -> Option<(int, int)> {
    match (a, b) {
        (Option::None, _) => b,
        (_, Option::None) => a,
        (Option::Some((al, ar)), Option::Some((bl, br))) => Option::Some(
            (
                if al <= bl {
                    al
                } else {
                    bl
                },
                if ar >= br {
                    ar
                } else {
                    br
                },
            ),
        ),
    }
}

/// The extent of row `y` over the column range [lo, hi): the fold of the
/// per-column extents under `merge_extents`.
pub open spec fn row_extent(ev: SubtitleEvent, ink: Seq<bool>, y: int, lo: int, hi: int) -> Option<
    (int, int),
>
    decreases hi - lo,
{
    if lo >= hi {
        Option::None
    } else {
        merge_extents(row_extent(ev, ink, y, lo, hi - 1), col_extent(ev, ink, hi - 1, y))
    }
}

/// The per-row extents of a whole image.
pub open spec fn row_extents_spec(ev: SubtitleEvent, ink: Seq<bool>) -> Seq<Option<(int, int)>> {
    Seq::new(ev.height as nat, |y: int| row_extent(ev, ink, y, 0, ev.width as int))
}

/// The extent merge is commutative.
pub proof fn lemma_merge_extents_commutative(a: Option<(int, int)>, b: Option<(int, int)>)
    ensures
        merge_extents(a, b) == merge_extents(b, a),
{
}

/// The extent merge is associative.
pub proof fn lemma_merge_extents_associative(
    a: Option<(int, int)>,
    b: Option<(int, int)>,
    c: Option<(int, int)>,
)
    ensures
        merge_extents(merge_extents(a, b), c) == merge_extents(a, merge_extents(b, c)),
{
}

/// A row's extent over [lo, hi) is the merge of its extents over [lo, mid)
/// and [mid, hi): with commutativity and associativity, computing partial
/// extents over any column chunking and merging them in any order yields the
/// single sequential pass's result.
pub proof fn lemma_row_extent_split(
    ev: SubtitleEvent,
    ink: Seq<bool>,
    y: int,
    lo: int,
    mid: int,
    hi: int,
)
    requires
        lo <= mid <= hi,
    ensures
        row_extent(ev, ink, y, lo, hi) == merge_extents(
            row_extent(ev, ink, y, lo, mid),
            row_extent(ev, ink, y, mid, hi),
        ),
    decreases hi - mid,
{
    if mid == hi {
        lemma_merge_extents_commutative(row_extent(ev, ink, y, lo, mid), Option::None);
    } else {
        lemma_row_extent_split(ev, ink, y, lo, mid, hi - 1);
        lemma_merge_extents_associative(
            row_extent(ev, ink, y, lo, mid),
            row_extent(ev, ink, y, mid, hi - 1),
            col_extent(ev, ink, hi - 1, y),
        );
    }
}

/// What a row's extent means: absent exactly when the range has no ink
/// column; otherwise the tight bounds of the ink columns in the range.
pub proof fn lemma_row_extent_characterization(
    ev: SubtitleEvent,
    ink: Seq<bool>,
    y: int,
    lo: int,
    hi: int,
)
    requires
        lo <= hi,
    ensures
        match row_extent(ev, ink, y, lo, hi) {
            Option::None => forall|x: int| lo <= x < hi ==> !px_ink(ev, ink, x, y),
            Option::Some(e) => {
                &&& lo <= e.0 <= e.1 < hi
                &&& px_ink(ev, ink, e.0, y)
                &&& px_ink(ev, ink, e.1, y)
                &&& forall|x: int| lo <= x < hi && px_ink(ev, ink, x, y) ==> e.0 <= x <= e.1
            },
        },
    decreases hi - lo,
{
    if lo < hi {
        lemma_row_extent_characterization(ev, ink, y, lo, hi - 1);
    }
}

/// Scanline Inventory: per image row, the horizontal span of its ink pixels,
/// or absent when the row has none.
pub fn inventory_scanlines(ev: &SubtitleEvent, ink: &Vec<bool>) -> (r: Vec<Option<ScanlineExtent>>)
    requires
        ev.wf(),
        ink@.len() == 4,
    ensures
        r@.len() == ev.height,
        forall|y: int|
            0 <= y < ev.height ==> extent_view(r@[y]) == row_extent(
                *ev,
                ink@,
                y,
                0,
                ev.width as int,
            ),
{
    let width = ev.width;
    let height = ev.height;
    let raw_len = ev.raw.len();
    let mut r: Vec<Option<ScanlineExtent>> = Vec::new();
    let mut y: usize = 0;
    while y < height
        invariant
            ev.wf(),
            ink@.len() == 4,
            width == ev.width,
            height == ev.height,
            raw_len == ev.raw@.len(),
            y <= height,
            r@.len() == y,
            forall|yy: int|
                0 <= yy < y ==> extent_view(r@[yy]) == row_extent(*ev, ink@, yy, 0, width as int),
        decreases height - y,
    {
        let mut cur: Option<ScanlineExtent> = None;
        let mut x: usize = 0;
        while x < width
            invariant
                ev.wf(),
                ink@.len() == 4,
                width == ev.width,
                height == ev.height,
                raw_len == ev.raw@.len(),
                y < height,
                x <= width,
                extent_view(cur) == row_extent(*ev, ink@, y as int, 0, x as int),
            decreases width - x,
        {
            proof {
                assert((y as int) * (width as int) + (x as int) < (width as int) * (height as int))
                    by (nonlinear_arith)
                    requires
                        0 <= x < width as int,
                        0 <= y < height as int,
                ;
            }
            let offset = y * width + x;
            let palette_ix = ev.raw[offset] as usize;
            if ink[palette_ix] {
                cur = match cur {
                    Some(extent) => Some(
                        ScanlineExtent {
                            left: if x < extent.left {
                                x
                            } else {
                                extent.left
                            },
                            right: if x > extent.right {
                                x
                            } else {
                                extent.right
                            },
                        },
                    ),
                    None => Some(ScanlineExtent { left: x, right: x }),
                };
            }
            x = x + 1;
        }
        r.push(cur);
        y = y + 1;
    }
    r
}

/// A half-open range of consecutive ink-bearing rows.
#[derive(Clone, Copy, Debug, PartialEq, Eq, Structural)]
pub struct RowGroup {
    pub start: usize,
    pub end: usize,
}

/// The mathematical value of a row group.
pub open spec fn group_view(g: RowGroup) -> (int, int) {
    (g.start as int, g.end as int)
}

/// The mathematical values of a list of row groups.
pub open spec fn groups_view(gs: Seq<RowGroup>) -> Seq<(int, int)> {
    Seq::new(gs.len(), |i: int| group_view(gs[i]))
}

/// The mathematical values of a scanline list.
pub open spec fn rows_view(s: Seq<Option<ScanlineExtent>>) -> Seq<Option<(int, int)>> {
    Seq::new(s.len(), |y: int| extent_view(s[y]))
}

/// Whether row `y` has an extent.
pub open spec fn row_present(rows: Seq<Option<(int, int)>>, y: int) -> bool {
    rows[y] is Some
}

/// A well-formed group: a non-empty in-bounds range of present rows, maximal
/// on both sides (the row before its start and the row at its end, where they
/// exist, are absent).
pub open spec fn wf_group(rows: Seq<Option<(int, int)>>, g: (int, int)) -> bool {
    &&& 0 <= g.0 < g.1 <= rows.len()
    &&& (forall|y: int| g.0 <= y < g.1 ==> row_present(rows, y))
    &&& (g.0 == 0 || !row_present(rows, g.0 - 1))
    &&& (g.1 == rows.len() || !row_present(rows, g.1))
}

/// Groups listed top to bottom, without overlap.
pub open spec fn groups_ordered(gs: Seq<(int, int)>) -> bool {
    forall|i: int, j: int| 0 <= i < j < gs.len() ==> (#[trigger] gs[i]).1 <= (#[trigger] gs[j]).0
}

/// Every present row lies in some group.
pub open spec fn groups_cover(rows: Seq<Option<(int, int)>>, gs: Seq<(int, int)>) -> bool {
    forall|y: int|
        0 <= y < rows.len() && row_present(rows, y) ==> exists|i: int|
            0 <= i < gs.len() && (#[trigger] gs[i]).0 <= y < gs[i].1
}

/// The complete characterization of the group decomposition: each group is
/// maximal, the groups are ordered, and together they cover every present
/// row. Exactly one list of groups satisfies this for given rows.
pub open spec fn valid_groups(rows: Seq<Option<(int, int)>>, gs: Seq<(int, int)>) -> bool {
    &&& (forall|i: int| 0 <= i < gs.len() ==> wf_group(rows, #[trigger] gs[i]))
    &&& groups_ordered(gs)
    &&& groups_cover(rows, gs)
}

/// Contiguous Group Finder: a single top-to-bottom pass that groups
/// consecutive present rows into maximal line candidates. A fully blank
/// event (no present row) yields an empty list.
pub fn find_contiguous_scanline_groups(scanlines: &Vec<Option<ScanlineExtent>>) -> (r: Vec<
    RowGroup,
>)
    ensures
        valid_groups(rows_view(scanlines@), groups_view(r@)),
{
    let ghost rows = rows_view(scanlines@);
    let n = scanlines.len();
    let mut r: Vec<RowGroup> = Vec::new();
    let mut cur_start: Option<usize> = None;
    let mut y: usize = 0;
    while y < n
        invariant
            rows == rows_view(scanlines@),
            n == scanlines@.len(),
            y <= n,
            forall|i: int| 0 <= i < r@.len() ==> wf_group(rows, group_view(#[trigger] r@[i])),
            forall|i: int, j: int|
                0 <= i < j < r@.len() ==> group_view(#[trigger] r@[i]).1 <= group_view(
                    #[trigger] r@[j],
                ).0,
            forall|i: int| 0 <= i < r@.len() ==> group_view(#[trigger] r@[i]).1 <= y,
            forall|yy: int|
                0 <= yy < y && row_present(rows, yy) ==> (exists|i: int|
                    0 <= i < r@.len() && group_view(#[trigger] r@[i]).0 <= yy < group_view(
                        r@[i],
                    ).1) || (cur_start is Some && cur_start->0 <= yy),
            match cur_start {
                Some(s) => {
                    &&& s < y
                    &&& (forall|yy: int| s <= yy < y ==> row_present(rows, yy))
                    &&& (s == 0 || !row_present(rows, s as int - 1))
                    &&& (forall|i: int| 0 <= i < r@.len() ==> group_view(#[trigger] r@[i]).1 <= s)
                },
                None => true,
            },
        decreases n - y,
    {
        let present = scanlines[y].is_some();
        match cur_start {
            None => {
                if present {
                    cur_start = Some(y);
                }
            },
            Some(s) => {
                if !present {
                    let ghost old_r = r@;
                    r.push(RowGroup { start: s, end: y });
                    proof {
                        assert forall|yy: int| 0 <= yy < y + 1 && row_present(rows, yy) implies (
                        exists|i: int|
                            0 <= i < r@.len() && group_view(#[trigger] r@[i]).0 <= yy < group_view(
                                r@[i],
                            ).1) by {
                            if yy < s {
                                if row_present(rows, yy) {
                                    let i = choose|i: int|
                                        0 <= i < old_r.len() && group_view(
                                            #[trigger] old_r[i],
                                        ).0 <= yy < group_view(old_r[i]).1;
                                    assert(r@[i] == old_r[i]);
                                }
                            } else if yy < y {
                                let i = r@.len() - 1;
                                assert(group_view(r@[i]).0 <= yy < group_view(r@[i]).1);
                            }
                        }
                    }
                    cur_start = None;
                }
            },
        }
        y = y + 1;
    }
    match cur_start {
        Some(s) => {
            let ghost old_r = r@;
            r.push(RowGroup { start: s, end: n });
            proof {
                assert forall|yy: int| 0 <= yy < n && row_present(rows, yy) implies (exists|i: int|
                    0 <= i < r@.len() && group_view(#[trigger] r@[i]).0 <= yy < group_view(
                        r@[i],
                    ).1) by {
                    if yy < s {
                        let i = choose|i: int|
                            0 <= i < old_r.len() && group_view(#[trigger] old_r[i]).0 <= yy
                                < group_view(old_r[i]).1;
                        assert(r@[i] == old_r[i]);
                    } else {
                        let i = r@.len() - 1;
                        assert(group_view(r@[i]).0 <= yy < group_view(r@[i]).1);
                    }
                }
            }
        },
        None => {},
    }
    proof {
        let gs = groups_view(r@);
        assert forall|i: int| 0 <= i < gs.len() implies wf_group(rows, #[trigger] gs[i]) by {
            assert(gs[i] == group_view(r@[i]));
        }
        assert forall|y2: int|
            0 <= y2 < rows.len() && row_present(rows, y2) implies exists|i: int|
            0 <= i < gs.len() && (#[trigger] gs[i]).0 <= y2 < gs[i].1 by {
            let i = choose|i: int|
                0 <= i < r@.len() && group_view(#[trigger] r@[i]).0 <= y2 < group_view(r@[i]).1;
            assert(gs[i] == group_view(r@[i]));
            assert(0 <= i < gs.len() && gs[i].0 <= y2 < gs[i].1);
        }
    }
    r
}

/// A rectangular subregion of an image: half-open column and row ranges.
#[derive(Clone, Copy, Debug, PartialEq, Eq, Structural)]
pub struct ImageRegion {
    pub x_start: usize,
    pub x_end: usize,
    pub y_start: usize,
    pub y_end: usize,
}

/// Left bound of the extent of row `y` (meaningful when the row is present).
pub open spec fn row_left(rows: Seq<Option<(int, int)>>, y: int) -> int {
    (rows[y]->0).0
}

/// Right bound of the extent of row `y` (meaningful when the row is present).
pub open spec fn row_right(rows: Seq<Option<(int, int)>>, y: int) -> int {
    (rows[y]->0).1
}

/// A non-empty group of present rows that lies within the row list.
pub open spec fn group_in_rows(rows: Seq<Option<(int, int)>>, g: (int, int)) -> bool {
    &&& 0 <= g.0 < g.1 <= rows.len()
    &&& forall|y: int| g.0 <= y < g.1 ==> row_present(rows, y)
}

/// The tightest box covering every extent of the group: its row range is the
/// group itself; its column range starts at the least left bound, and ends
/// one past the greatest right bound.
pub open spec fn region_for_group(
    rows: Seq<Option<(int, int)>>,
    g: (int, int),
    reg: ImageRegion,
) -> bool {
    &&& reg.y_start == g.0 && reg.y_end == g.1
    &&& (forall|y: int|
        g.0 <= y < g.1 ==> reg.x_start <= #[trigger] row_left(rows, y) && row_right(rows, y)
            < reg.x_end)
    &&& (exists|y: int| g.0 <= y < g.1 && #[trigger] row_left(rows, y) == reg.x_start)
    &&& (exists|y: int| g.0 <= y < g.1 && #[trigger] row_right(rows, y) == reg.x_end - 1)
}

/// Region Extractor: one tight bounding region per row group, in the groups'
/// own top-to-bottom order.
pub fn scanline_groups_to_image_regions(
    scanlines: &Vec<Option<ScanlineExtent>>,
    scanline_groups: &Vec<RowGroup>,
) -> (r: Vec<ImageRegion>)
    requires
        forall|i: int|
            0 <= i < scanline_groups@.len() ==> group_in_rows(
                rows_view(scanlines@),
                group_view(#[trigger] scanline_groups@[i]),
            ),
        forall|y: int|
            0 <= y < scanlines@.len() && scanlines@[y] is Some ==> (scanlines@[y]->0).right
                < usize::MAX,
    ensures
        r@.len() == scanline_groups@.len(),
        forall|i: int|
            0 <= i < r@.len() ==> region_for_group(
                rows_view(scanlines@),
                group_view(scanline_groups@[i]),
                #[trigger] r@[i],
            ),
{
    let ghost rows = rows_view(scanlines@);
    let mut r: Vec<ImageRegion> = Vec::new();
    let mut i: usize = 0;
    while i < scanline_groups.len()
        invariant
            rows == rows_view(scanlines@),
            forall|k: int|
                0 <= k < scanline_groups@.len() ==> group_in_rows(
                    rows,
                    group_view(#[trigger] scanline_groups@[k]),
                ),
            forall|y: int|
                0 <= y < scanlines@.len() && scanlines@[y] is Some ==> (scanlines@[y]->0).right
                    < usize::MAX,
            i <= scanline_groups@.len(),
            r@.len() == i,
            forall|k: int|
                0 <= k < i ==> region_for_group(
                    rows,
                    group_view(scanline_groups@[k]),
                    #[trigger] r@[k],
                ),
        decreases scanline_groups@.len() - i,
    {
        let g = scanline_groups[i];
        let (mut left, mut right) = match &scanlines[g.start] {
            Some(e) => {
                proof {
                    assert(row_left(rows, g.start as int) == e.left as int);
                    assert(row_right(rows, g.start as int) == e.right as int);
                }
                (e.left, e.right)
            },
            None => {
                proof {
                    assert(row_present(rows, g.start as int));
                    assert(false);
                }
                (0, 0)
            },
        };
        let mut y = g.start + 1;
        while y < g.end
            invariant
                rows == rows_view(scanlines@),
                group_in_rows(rows, group_view(g)),
                forall|yy: int|
                    0 <= yy < scanlines@.len() && scanlines@[yy] is Some ==> (
                    scanlines@[yy]->0).right < usize::MAX,
                g.start < y <= g.end,
                forall|yy: int|
                    g.start <= yy < y ==> left <= #[trigger] row_left(rows, yy) && row_right(
                        rows,
                        yy,
                    ) <= right,
                exists|yy: int| g.start <= yy < y && #[trigger] row_left(rows, yy) == left,
                exists|yy: int| g.start <= yy < y && #[trigger] row_right(rows, yy) == right,
                right < usize::MAX,
            decreases g.end - y,
        {
            let ghost prev_left = left as int;
            let ghost prev_right = right as int;
            match &scanlines[y] {
                Some(e) => {
                    proof {
                        assert(row_left(rows, y as int) == e.left as int);
                        assert(row_right(rows, y as int) == e.right as int);
                    }
                    if e.left < left {
                        left = e.left;
                    }
                    if e.right > right {
                        right = e.right;
                    }
                    proof {
                        if left as int == prev_left {
                            let yy0 = choose|yy: int|
                                g.start <= yy < y && #[trigger] row_left(rows, yy) == prev_left;
                            assert(g.start <= yy0 < y + 1 && row_left(rows, yy0) == left as int);
                        } else {
                            assert(row_left(rows, y as int) == left as int);
                        }
                        if right as int == prev_right {
                            let yy1 = choose|yy: int|
                                g.start <= yy < y && #[trigger] row_right(rows, yy) == prev_right;
                            assert(g.start <= yy1 < y + 1 && row_right(rows, yy1) == right as int);
                        } else {
                            assert(row_right(rows, y as int) == right as int);
                        }
                        assert forall|yy: int| g.start <= yy < y + 1 implies left
                            <= #[trigger] row_left(rows, yy) && row_right(rows, yy) <= right by {
                            if yy < y {
                                assert(prev_left <= row_left(rows, yy) && row_right(rows, yy)
                                    <= prev_right);
                            } else {
                                assert(row_left(rows, yy) == e.left as int && row_right(rows, yy)
                                    == e.right as int);
                            }
                        }
                    }
                },
                None => {
                    proof {
                        assert(row_present(rows, y as int));
                        assert(false);
                    }
                },
            }
            y = y + 1;
        }
        r.push(ImageRegion { x_start: left, x_end: right + 1, y_start: g.start, y_end: g.end });
        i = i + 1;
    }
    r
}

/// A grayscale bitmap in row-major order; every sample is 0 (ink) or 255
/// (background or border).
pub struct RenderedImage {
    pub width: usize,
    pub height: usize,
    pub data: Vec<u8>,
}

impl RenderedImage {
    pub open spec fn wf(self) -> bool {
        self.data@.len() == self.width * self.height
    }
}

/// Index of the sample at column `x` of row `y` in a row-major bitmap of
/// width `w`.
pub open spec fn pixel_index(w: int, x: int, y: int) -> int {
    y * w + x
}

/// Interior width of a region.
pub open spec fn region_w(reg: ImageRegion) -> int {
    reg.x_end - reg.x_start
}

/// Interior height of a region.
pub open spec fn region_h(reg: ImageRegion) -> int {
    reg.y_end - reg.y_start
}

/// A region that lies within the event's bitmap and is non-empty.
pub open spec fn region_in_event(ev: SubtitleEvent, reg: ImageRegion) -> bool {
    &&& reg.x_start < reg.x_end <= ev.width
    &&& reg.y_start < reg.y_end <= ev.height
}

/// The sample rendered at output position (x, y): white on the border frame,
/// else black exactly where the underlying event pixel is ink.
pub open spec fn rendered_pixel(
    ev: SubtitleEvent,
    ink: Seq<bool>,
    reg: ImageRegion,
    border: int,
    x: int,
    y: int,
) -> u8 {
    if x < border || x >= border + region_w(reg) || y < border || y >= border + region_h(reg) {
        255u8
    } else if px_ink(ev, ink, reg.x_start + (x - border), reg.y_start + (y - border)) {
        0u8
    } else {
        255u8
    }
}

/// The full correctness of one rendered line image: its dimensions are the
/// region's interior plus the border on all four sides, and every sample is
/// `rendered_pixel`.
pub open spec fn image_of_region(
    ev: SubtitleEvent,
    ink: Seq<bool>,
    reg: ImageRegion,
    border: int,
    img: RenderedImage,
) -> bool {
    &&& img.width == region_w(reg) + 2 * border
    &&& img.height == region_h(reg) + 2 * border
    &&& img.data@.len() == img.width * img.height
    &&& forall|x: int, y: int|
        0 <= x < img.width && 0 <= y < img.height ==> img.data@[pixel_index(
            img.width as int,
            x,
            y,
        )] == #[trigger] rendered_pixel(ev, ink, reg, border, x, y)
}

/// Image Renderer: rasterizes one region into a bordered, binarized grayscale
/// bitmap.
pub fn render_region(
    ev: &SubtitleEvent,
    ink: &Vec<bool>,
    region: &ImageRegion,
    border: usize,
) -> (r: RenderedImage)
    requires
        ev.wf(),
        ink@.len() == 4,
        region_in_event(*ev, *region),
        (region_w(*region) + 2 * border) * (region_h(*region) + 2 * border) <= usize::MAX,
    ensures
        image_of_region(*ev, ink@, *region, border as int, r),
{
    let iw = region.x_end - region.x_start;
    let ih = region.y_end - region.y_start;
    let raw_len = ev.raw.len();
    proof {
        assert((iw + 2 * border) <= (iw + 2 * border) * (ih + 2 * border) && (ih + 2 * border) <= (
        iw + 2 * border) * (ih + 2 * border)) by (nonlinear_arith)
            requires
                iw >= 1,
                ih >= 1,
                border >= 0,
        ;
    }
    let w = iw + border + border;
    let h = ih + border + border;
    let mut data: Vec<u8> = Vec::new();
    let mut y: usize = 0;
    while y < h
        invariant
            ev.wf(),
            ink@.len() == 4,
            region_in_event(*ev, *region),
            raw_len == ev.raw@.len(),
            iw == region_w(*region),
            ih == region_h(*region),
            w == iw + 2 * border,
            h == ih + 2 * border,
            w * h <= usize::MAX,
            y <= h,
            data@.len() == y * w,
            forall|xx: int, yy: int|
                0 <= xx < w && 0 <= yy && pixel_index(w as int, xx, yy) < data@.len()
                    ==> data@[pixel_index(w as int, xx, yy)] == #[trigger] rendered_pixel(
                    *ev,
                    ink@,
                    *region,
                    border as int,
                    xx,
                    yy,
                ),
        decreases h - y,
    {
        let mut x: usize = 0;
        proof {
            assert((y + 1) * w == y * w + w && y * w >= 0) by (nonlinear_arith)
                requires
                    w >= 0,
                    y >= 0,
            ;
            assert((y + 1) * w <= h * w) by (nonlinear_arith)
                requires
                    y + 1 <= h,
                    w >= 0,
            ;
            assert(h * w == w * h) by (nonlinear_arith);
        }
        while x < w
            invariant
                ev.wf(),
                ink@.len() == 4,
                region_in_event(*ev, *region),
                raw_len == ev.raw@.len(),
                iw == region_w(*region),
                ih == region_h(*region),
                w == iw + 2 * border,
                h == ih + 2 * border,
                y < h,
                x <= w,
                y * w + w <= usize::MAX,
                data@.len() == y * w + x,
                forall|xx: int, yy: int|
                    0 <= xx < w && 0 <= yy && pixel_index(w as int, xx, yy) < data@.len()
                        ==> data@[pixel_index(w as int, xx, yy)] == #[trigger] rendered_pixel(
                        *ev,
                        ink@,
                        *region,
                        border as int,
                        xx,
                        yy,
                    ),
            decreases w - x,
        {
            let pix: u8 = if x < border || x >= iw + border || y < border || y >= ih + border {
                255
            } else {
                let gx = region.x_start + (x - border);
                let gy = region.y_start + (y - border);
                proof {
                    assert((gy as int) * (ev.width as int) + (gx as int) < (ev.width as int) * (
                    ev.height as int) && (gy as int) * (ev.width as int) >= 0) by (nonlinear_arith)
                        requires
                            0 <= gx < ev.width as int,
                            0 <= gy < ev.height as int,
                    ;
                }
                let offset = gy * ev.width + gx;
                if ink[ev.raw[offset] as usize] {
                    0
                } else {
                    255
                }
            };
            data.push(pix);
            proof {
                assert forall|xx: int, yy: int|
                    0 <= xx < w && 0 <= yy && pixel_index(w as int, xx, yy)
                        < data@.len() implies data@[pixel_index(w as int, xx, yy)]
                    == #[trigger] rendered_pixel(*ev, ink@, *region, border as int, xx, yy) by {
                    if pixel_index(w as int, xx, yy) == data@.len() - 1 {
                        assert(xx == x as int && yy == y as int) by (nonlinear_arith)
                            requires
                                0 <= xx < w as int,
                                0 <= x < w as int,
                                0 <= yy,
                                0 <= y,
                                yy * (w as int) + xx == (y as int) * (w as int) + (x as int),
                        ;
                    }
                }
            }
            x = x + 1;
        }
        y = y + 1;
    }
    let r = RenderedImage { width: w, height: h, data };
    proof {
        assert forall|x: int, y2: int| 0 <= x < r.width && 0 <= y2 < r.height implies r.data@[
        pixel_index(r.width as int, x, y2)] == #[trigger] rendered_pixel(
            *ev,
            ink@,
            *region,
            border as int,
            x,
            y2,
        ) by {
            assert(0 <= pixel_index(w as int, x, y2) < (h as int) * (w as int)) by (nonlinear_arith)
                requires
                    0 <= x < w as int,
                    0 <= y2 < h as int,
            ;
        }
        assert((h as int) * (w as int) == (w as int) * (h as int)) by (nonlinear_arith);
    }
    r
}

/// The ink table of one event: its visibility mask binarized against the
/// luminance palette and threshold.
pub open spec fn event_ink(ev: SubtitleEvent, lum: Seq<u32>, thr: Threshold) -> Seq<bool> {
    ink_table(lum, ev.palette@, visibility_mask(ev), thr)
}

/// The per-row extents of one event under its ink table.
pub open spec fn event_rows(ev: SubtitleEvent, lum: Seq<u32>, thr: Threshold) -> Seq<
    Option<(int, int)>,
> {
    row_extents_spec(ev, event_ink(ev, lum, thr))
}

/// Whether any row of the event carries ink: exactly the events that yield at
/// least one text region.
pub open spec fn event_has_text(ev: SubtitleEvent, lum: Seq<u32>, thr: Threshold) -> bool {
    exists|y: int| 0 <= y < ev.height && (#[trigger] event_rows(ev, lum, thr)[y]) is Some
}

/// The full correctness of an event's rendered line images: one image per
/// group of the (unique) group decomposition of the event's rows, in
/// top-to-bottom order, each rendering the group's tight bounding region.
pub open spec fn image_matches_group(
    ev: SubtitleEvent,
    lum: Seq<u32>,
    thr: Threshold,
    border: int,
    g: (int, int),
    img: RenderedImage,
) -> bool {
    exists|reg: ImageRegion|
        #[trigger] region_for_group(event_rows(ev, lum, thr), g, reg) && image_of_region(
            ev,
            event_ink(ev, lum, thr),
            reg,
            border,
            img,
        )
}

pub open spec fn groups_images_match(
    ev: SubtitleEvent,
    lum: Seq<u32>,
    thr: Threshold,
    border: int,
    gs: Seq<(int, int)>,
    imgs: Seq<RenderedImage>,
) -> bool {
    &&& valid_groups(event_rows(ev, lum, thr), gs)
    &&& imgs.len() == gs.len()
    &&& forall|k: int|
        0 <= k < gs.len() ==> image_matches_group(ev, lum, thr, border, #[trigger] gs[k], imgs[k])
}

pub open spec fn images_of_event(
    ev: SubtitleEvent,
    lum: Seq<u32>,
    thr: Threshold,
    border: int,
    imgs: Seq<RenderedImage>,
) -> bool {
    exists|gs: Seq<(int, int)>| #[trigger] groups_images_match(ev, lum, thr, border, gs, imgs)
}

/// Splits one event into its rendered text line images, or nothing when the
/// binarized image is blank (a skipped event, not an error).
pub fn subtitle_to_images(
    ev: &SubtitleEvent,
    palette: &Vec<u32>,
    threshold: Threshold,
    border: usize,
) -> (r: Option<Vec<RenderedImage>>)
    requires
        ev.wf(),
        palette@.len() == 16,
        threshold.wf(),
        (ev.width + 2 * border) * (ev.height + 2 * border) <= usize::MAX,
    ensures
        r is Some <==> event_has_text(*ev, palette@, threshold),
        r is Some ==> images_of_event(*ev, palette@, threshold, border as int, (r->0)@),
{
    let ghost lum = palette@;
    let ghost ink = event_ink(*ev, lum, threshold);
    let ghost rows = event_rows(*ev, lum, threshold);
    let width = ev.width;
    let height = ev.height;

    let sub_palette_visibility = generate_visibility_palette(ev);
    let binarized_palette = binarize_palette(palette, &ev.palette, &sub_palette_visibility, threshold);
    proof {
        assert(binarized_palette@ == ink);
    }
    let scanlines = inventory_scanlines(ev, &binarized_palette);
    proof {
        assert(rows_view(scanlines@) =~= rows);
        assert forall|y: int|
            0 <= y < scanlines@.len() && scanlines@[y] is Some implies (scanlines@[y]->0).right
            < usize::MAX by {
            lemma_row_extent_characterization(*ev, ink, y, 0, width as int);
            assert(extent_view(scanlines@[y]) == rows[y]);
        }
    }
    let scanline_groups = find_contiguous_scanline_groups(&scanlines);
    if scanline_groups.len() == 0 {
        // No ink-bearing row: a present row would have to be covered by some
        // group.
        proof {
            assert forall|y: int| 0 <= y < height implies !((#[trigger] rows[y]) is Some) by {
                assert(row_present(rows_view(scanlines@), y) ==> false);
            }
        }
        return None;
    }
    proof {
        let gs = groups_view(scanline_groups@);
        assert(wf_group(rows, gs[0]));
        assert(row_present(rows, gs[0].0));
        assert(event_has_text(*ev, lum, threshold));
        assert forall|i: int| 0 <= i < scanline_groups@.len() implies group_in_rows(
            rows_view(scanlines@),
            group_view(#[trigger] scanline_groups@[i]),
        ) && wf_group(rows, group_view(scanline_groups@[i])) by {
            assert(wf_group(rows, gs[i]) && gs[i] == group_view(scanline_groups@[i]));
        }
    }
    let image_regions = scanline_groups_to_image_regions(&scanlines, &scanline_groups);

    let mut images: Vec<RenderedImage> = Vec::new();
    let n = image_regions.len();
    let mut k: usize = 0;
    while k < n
        invariant
            ev.wf(),
            palette@.len() == 16,
            threshold.wf(),
            (ev.width + 2 * border) * (ev.height + 2 * border) <= usize::MAX,
            lum == palette@,
            ink == event_ink(*ev, lum, threshold),
            rows == event_rows(*ev, lum, threshold),
            width == ev.width,
            height == ev.height,
            binarized_palette@ == ink,
            rows.len() == height,
            n == image_regions@.len(),
            n == scanline_groups@.len(),
            forall|i: int|
                0 <= i < n ==> region_for_group(
                    rows,
                    group_view(scanline_groups@[i]),
                    #[trigger] image_regions@[i],
                ),
            forall|i: int| 0 <= i < n ==> wf_group(rows, group_view(#[trigger] scanline_groups@[i])),
            k <= n,
            images@.len() == k,
            forall|i: int|
                0 <= i < k ==> image_of_region(
                    *ev,
                    ink,
                    image_regions@[i],
                    border as int,
                    #[trigger] images@[i],
                ),
        decreases n - k,
    {
        let region = &image_regions[k];
        proof {
            let g = group_view(scanline_groups@[k as int]);
            assert(region_for_group(rows, g, *region));
            assert(wf_group(rows, g));
            // The region is non-empty and lies within the event's bitmap.
            let yl = choose|y: int| g.0 <= y < g.1 && #[trigger] row_left(rows, y) == region.x_start;
            let yr = choose|y: int|
                g.0 <= y < g.1 && #[trigger] row_right(rows, y) == region.x_end - 1;
            lemma_row_extent_characterization(*ev, ink, yl, 0, width as int);
            lemma_row_extent_characterization(*ev, ink, yr, 0, width as int);
            assert(row_present(rows, yl) && rows[yl] == row_extent(*ev, ink, yl, 0, width as int));
            assert(row_present(rows, yr) && rows[yr] == row_extent(*ev, ink, yr, 0, width as int));
            assert(row_left(rows, yl) <= row_right(rows, yl));
            assert(region.x_start < region.x_end);
            assert(row_right(rows, yr) < width);
            assert(region.x_end <= width);
            assert(region_in_event(*ev, *region));
            assert((region_w(*region) + 2 * border) * (region_h(*region) + 2 * border) <= (
            ev.width + 2 * border) * (ev.height + 2 * border)) by (nonlinear_arith)
                requires
                    0 < region_w(*region) + 2 * border <= ev.width + 2 * border,
                    0 < region_h(*region) + 2 * border <= ev.height + 2 * border,
            ;
        }
        let img = render_region(ev, &binarized_palette, region, border);
        images.push(img);
        k = k + 1;
    }
    proof {
        let gs = groups_view(scanline_groups@);
        assert(valid_groups(event_rows(*ev, lum, threshold), gs));
        assert(images@.len() == gs.len());
        assert forall|k2: int| 0 <= k2 < gs.len() implies image_matches_group(
            *ev,
            lum,
            threshold,
            border as int,
            #[trigger] gs[k2],
            images@[k2],
        ) by {
            let reg = image_regions@[k2];
            assert(gs[k2] == group_view(scanline_groups@[k2]));
            assert(region_for_group(event_rows(*ev, lum, threshold), gs[k2], reg));
            assert(image_of_region(
                *ev,
                event_ink(*ev, lum, threshold),
                reg,
                border as int,
                images@[k2],
            ));
        }
        assert(groups_images_match(*ev, lum, threshold, border as int, gs, images@));
        assert(images_of_event(*ev, lum, threshold, border as int, images@));
    }
    Some(images)
}

/// One preprocessed subtitle: the event's time span and force-display flag,
/// with its rendered line images in top-to-bottom order.
pub struct PreprocessedVobSubtitle {
    pub time_span: TimeSpan,
    pub force: bool,
    pub images: Vec<RenderedImage>,
}

/// What preprocessing one event yields.
pub open spec fn sub_of_event(
    ev: SubtitleEvent,
    lum: Seq<u32>,
    thr: Threshold,
    border: int,
    sub: PreprocessedVobSubtitle,
) -> bool {
    &&& sub.time_span.start_ms == ev.start_ms
    &&& sub.time_span.end_ms == ev.end_ms
    &&& sub.force == ev.force
    &&& images_of_event(ev, lum, thr, border, sub.images@)
}

/// An event the pipeline may be given: well-formed, with dimensions small
/// enough that a bordered rendering of it has an addressable size.
pub open spec fn event_input_ok(ev: SubtitleEvent, border: int) -> bool {
    &&& ev.wf()
    &&& (ev.width + 2 * border) * (ev.height + 2 * border) <= usize::MAX
}

/// The subtitles are exactly the text-bearing events, in input order: `idx`
/// lists the originating event of each output, strictly increasing, and every
/// text-bearing event is listed.
pub open spec fn preprocess_match(
    events: Seq<SubtitleEvent>,
    lum: Seq<u32>,
    thr: Threshold,
    border: int,
    idx: Seq<int>,
    subs: Seq<PreprocessedVobSubtitle>,
) -> bool {
    &&& idx.len() == subs.len()
    &&& (forall|a: int, b: int| 0 <= a < b < idx.len() ==> #[trigger] idx[a] < #[trigger] idx[b])
    &&& (forall|k: int| 0 <= k < idx.len() ==> 0 <= #[trigger] idx[k] < events.len())
    &&& (forall|k: int|
        0 <= k < idx.len() ==> event_has_text(events[#[trigger] idx[k]], lum, thr))
    &&& (forall|k: int|
        0 <= k < idx.len() ==> sub_of_event(events[#[trigger] idx[k]], lum, thr, border, subs[k]))
    &&& (forall|j: int|
        0 <= j < events.len() && event_has_text(#[trigger] events[j], lum, thr) ==> exists|k: int|
            0 <= k < idx.len() && #[trigger] idx[k] == j)
}

/// The whole preprocessing relation, with the index list as a witness.
pub open spec fn preprocess_ok(
    events: Seq<SubtitleEvent>,
    lum: Seq<u32>,
    thr: Threshold,
    border: int,
    subs: Seq<PreprocessedVobSubtitle>,
) -> bool {
    exists|idx: Seq<int>| #[trigger] preprocess_match(events, lum, thr, border, idx, subs)
}

/// Turns the decoded events into binarized, per-line subtitle images. Events
/// whose binarized image is blank are skipped; the rest appear in input
/// order.
pub fn preprocess_subtitles(
    subtitles: &Vec<SubtitleEvent>,
    palette: &Vec<u32>,
    opt: &Opt,
) -> (r: Vec<PreprocessedVobSubtitle>)
    requires
        palette@.len() == 16,
        opt.wf(),
        forall|i: int|
            0 <= i < subtitles@.len() ==> event_input_ok(
                #[trigger] subtitles@[i],
                opt.border as int,
            ),
    ensures
        preprocess_ok(subtitles@, palette@, opt.threshold, opt.border as int, r@),
{
    let threshold = opt.threshold;
    let border = opt.border;
    let ghost events = subtitles@;
    let ghost lum = palette@;
    let mut r: Vec<PreprocessedVobSubtitle> = Vec::new();
    let ghost mut idx: Seq<int> = Seq::empty();
    let n = subtitles.len();
    let mut j: usize = 0;
    while j < n
        invariant
            events == subtitles@,
            lum == palette@,
            palette@.len() == 16,
            threshold.wf(),
            forall|i: int|
                0 <= i < subtitles@.len() ==> event_input_ok(#[trigger] subtitles@[i], border as int),
            n == events.len(),
            j <= n,
            idx.len() == r@.len(),
            forall|a: int, b: int| 0 <= a < b < idx.len() ==> #[trigger] idx[a] < #[trigger] idx[b],
            forall|k: int| 0 <= k < idx.len() ==> 0 <= #[trigger] idx[k] < j,
            forall|k: int| 0 <= k < idx.len() ==> event_has_text(events[#[trigger] idx[k]], lum, threshold),
            forall|k: int|
                0 <= k < idx.len() ==> sub_of_event(
                    events[#[trigger] idx[k]],
                    lum,
                    threshold,
                    border as int,
                    r@[k],
                ),
            forall|jj: int|
                0 <= jj < j && event_has_text(#[trigger] events[jj], lum, threshold) ==> exists|k: int|
                    0 <= k < idx.len() && #[trigger] idx[k] == jj,
        decreases n - j,
    {
        let ev = &subtitles[j];
        match subtitle_to_images(ev, palette, threshold, border) {
            Some(images) => {
                let ghost old_idx = idx;
                let ghost old_r = r@;
                r.push(
                    PreprocessedVobSubtitle {
                        time_span: TimeSpan { start_ms: ev.start_ms, end_ms: ev.end_ms },
                        force: ev.force,
                        images,
                    },
                );
                proof {
                    idx = idx.push(j as int);
                    assert forall|k: int| 0 <= k < idx.len() implies sub_of_event(
                        events[#[trigger] idx[k]],
                        lum,
                        threshold,
                        border as int,
                        r@[k],
                    ) && event_has_text(events[idx[k]], lum, threshold) && 0 <= idx[k] < j + 1 by {
                        if k < old_idx.len() {
                            assert(idx[k] == old_idx[k] && r@[k] == old_r[k]);
                        } else {
                            assert(idx[k] == j as int);
                            assert(sub_of_event(
                                events[j as int],
                                lum,
                                threshold,
                                border as int,
                                r@[k],
                            ));
                        }
                    }
                    assert forall|jj: int|
                        0 <= jj < j + 1 && event_has_text(
                            #[trigger] events[jj],
                            lum,
                            threshold,
                        ) implies exists|k: int| 0 <= k < idx.len() && #[trigger] idx[k] == jj by {
                        if jj < j {
                            let k = choose|k: int| 0 <= k < old_idx.len() && #[trigger] old_idx[k] == jj;
                            assert(idx[k] == jj);
                        } else {
                            assert(idx[idx.len() - 1] == jj);
                        }
                    }
                    assert forall|a: int, b: int| 0 <= a < b < idx.len() implies #[trigger] idx[a]
                        < #[trigger] idx[b] by {
                        if b < idx.len() - 1 {
                            assert(idx[a] == old_idx[a] && idx[b] == old_idx[b]);
                        } else {
                            assert(idx[a] == old_idx[a] && idx[a] < j as int);
                        }
                    }
                }
            },
            None => {},
        }
        j = j + 1;
    }
    proof {
        assert(preprocess_match(events, lum, threshold, border as int, idx, r@));
    }
    r
}

/// At threshold one, every event is blank: no slot binarizes to ink, so no
/// row carries ink and the event yields zero regions.
pub proof fn lemma_threshold_one_no_text(ev: SubtitleEvent, lum: Seq<u32>, thr: Threshold)
    requires
        ev.wf(),
        lum.len() == 16,
        thr.wf(),
        thr.num == thr.den,
    ensures
        !event_has_text(ev, lum, thr),
{
    lemma_threshold_one_no_ink(lum, ev.palette@, visibility_mask(ev), thr);
    lemma_no_ink_no_text(ev, lum, thr);
}

/// An event whose visible slots all have zero luminance is blank: zero
/// regions, skipped rather than failed.
pub proof fn lemma_blank_event_no_text(ev: SubtitleEvent, lum: Seq<u32>, thr: Threshold)
    requires
        ev.wf(),
        lum.len() == 16,
        thr.wf(),
        forall|s: int|
            0 <= s < 4 && visible_slot(ev, s) ==> slot_luminance(lum, ev.palette@, s) == 0,
    ensures
        !event_has_text(ev, lum, thr),
{
    lemma_blank_event_no_ink(lum, ev.palette@, visibility_mask(ev), thr);
    lemma_no_ink_no_text(ev, lum, thr);
}

/// An event whose raw buffer uses only fully transparent slots is blank:
/// zero regions, skipped rather than failed.
pub proof fn lemma_transparent_event_no_text(ev: SubtitleEvent, lum: Seq<u32>, thr: Threshold)
    requires
        ev.wf(),
        lum.len() == 16,
        thr.wf(),
        forall|s: int| 0 <= s < 4 && slot_used(ev.raw@, s) ==> ev.alpha@[3 - s] == 0,
    ensures
        !event_has_text(ev, lum, thr),
{
    lemma_transparent_event_invisible(ev);
    assert forall|s: int| 0 <= s < 4 && visible_slot(ev, s) implies slot_luminance(
        lum,
        ev.palette@,
        s,
    ) == 0 by {
        assert(!visibility_mask(ev)[s]);
    }
    lemma_blank_event_no_text(ev, lum, thr);
}

proof fn lemma_overlapping_groups_eq(rows: Seq<Option<(int, int)>>, g1: (int, int), g2: (
    int,
    int,
), y: int)
    requires
        wf_group(rows, g1),
        wf_group(rows, g2),
        g1.0 <= y < g1.1,
        g2.0 <= y < g2.1,
    ensures
        g1 == g2,
{
    if g1.0 < g2.0 {
        assert(row_present(rows, g2.0 - 1));
        assert(false);
    }
    if g2.0 < g1.0 {
        assert(row_present(rows, g1.0 - 1));
        assert(false);
    }
    if g1.1 < g2.1 {
        assert(row_present(rows, g1.1));
        assert(false);
    }
    if g2.1 < g1.1 {
        assert(row_present(rows, g2.1));
        assert(false);
    }
}

proof fn lemma_groups_agree(
    rows: Seq<Option<(int, int)>>,
    gs1: Seq<(int, int)>,
    gs2: Seq<(int, int)>,
    i: int,
)
    requires
        valid_groups(rows, gs1),
        valid_groups(rows, gs2),
        0 <= i,
        i < gs1.len() || i < gs2.len(),
    ensures
        i < gs1.len() && i < gs2.len() && gs1[i] == gs2[i],
    decreases i,
{
    if i < gs1.len() {
        let g = gs1[i];
        assert(wf_group(rows, g));
        assert(row_present(rows, g.0));
        let j = choose|j: int| 0 <= j < gs2.len() && (#[trigger] gs2[j]).0 <= g.0 < gs2[j].1;
        lemma_overlapping_groups_eq(rows, g, gs2[j], g.0);
        if j < i {
            lemma_groups_agree(rows, gs1, gs2, j);
            assert(gs1[j].1 <= gs1[i].0);
            assert(false);
        } else if j > i {
            let g2i = gs2[i];
            assert(wf_group(rows, g2i));
            assert(row_present(rows, g2i.0));
            let i2 = choose|k: int| 0 <= k < gs1.len() && (#[trigger] gs1[k]).0 <= g2i.0 < gs1[k].1;
            lemma_overlapping_groups_eq(rows, gs1[i2], g2i, g2i.0);
            if i2 < i {
                lemma_groups_agree(rows, gs1, gs2, i2);
                assert(gs2[i2].1 <= gs2[i].0);
                assert(false);
            } else if i2 == i {
                assert(gs2[i].1 <= gs2[j].0);
                assert(false);
            } else {
                assert(gs1[i].1 <= gs1[i2].0);
                assert(gs2[i].1 <= gs2[j].0);
                assert(false);
            }
        }
    } else {
        let g = gs2[i];
        assert(wf_group(rows, g));
        assert(row_present(rows, g.0));
        let j = choose|j: int| 0 <= j < gs1.len() && (#[trigger] gs1[j]).0 <= g.0 < gs1[j].1;
        lemma_overlapping_groups_eq(rows, gs1[j], g, g.0);
        lemma_groups_agree(rows, gs1, gs2, j);
        assert(gs2[j].1 <= gs2[i].0);
        assert(false);
    }
}

/// Determinism of segmentation: for given rows exactly one list of groups is
/// maximal, ordered and covering, so any two runs of the group finder agree.
pub proof fn lemma_valid_groups_unique(
    rows: Seq<Option<(int, int)>>,
    gs1: Seq<(int, int)>,
    gs2: Seq<(int, int)>,
)
    requires
        valid_groups(rows, gs1),
        valid_groups(rows, gs2),
    ensures
        gs1 == gs2,
{
    if gs1.len() < gs2.len() {
        lemma_groups_agree(rows, gs1, gs2, gs1.len() as int);
    }
    if gs2.len() < gs1.len() {
        lemma_groups_agree(rows, gs1, gs2, gs2.len() as int);
    }
    assert forall|i: int| 0 <= i < gs1.len() implies gs1[i] == gs2[i] by {
        lemma_groups_agree(rows, gs1, gs2, i);
    }
    assert(gs1 =~= gs2);
}

/// Determinism of the whole pipeline on one event: any two image lists that
/// satisfy the pipeline's contract for the same event and configuration are
/// identical, sample for sample.
pub proof fn lemma_images_of_event_unique(
    ev: SubtitleEvent,
    lum: Seq<u32>,
    thr: Threshold,
    border: int,
    imgs1: Seq<RenderedImage>,
    imgs2: Seq<RenderedImage>,
)
    requires
        border >= 0,
        images_of_event(ev, lum, thr, border, imgs1),
        images_of_event(ev, lum, thr, border, imgs2),
    ensures
        imgs1.len() == imgs2.len(),
        forall|k: int|
            0 <= k < imgs1.len() ==> (#[trigger] imgs1[k]).width == imgs2[k].width
                && imgs1[k].height == imgs2[k].height && imgs1[k].data@ == imgs2[k].data@,
{
    let rows = event_rows(ev, lum, thr);
    let gs1 = choose|gs: Seq<(int, int)>| #[trigger] groups_images_match(ev, lum, thr, border, gs, imgs1);
    let gs2 = choose|gs: Seq<(int, int)>| #[trigger] groups_images_match(ev, lum, thr, border, gs, imgs2);
    lemma_valid_groups_unique(rows, gs1, gs2);
    assert forall|k: int| 0 <= k < imgs1.len() implies (#[trigger] imgs1[k]).width
        == imgs2[k].width && imgs1[k].height == imgs2[k].height && imgs1[k].data@
        == imgs2[k].data@ by {
        let g = gs1[k];
        assert(image_matches_group(ev, lum, thr, border, gs1[k], imgs1[k]));
        assert(image_matches_group(ev, lum, thr, border, gs2[k], imgs2[k]));
        let reg1 = choose|reg: ImageRegion|
            #[trigger] region_for_group(rows, g, reg) && image_of_region(
                ev,
                event_ink(ev, lum, thr),
                reg,
                border,
                imgs1[k],
            );
        let reg2 = choose|reg: ImageRegion|
            #[trigger] region_for_group(rows, g, reg) && image_of_region(
                ev,
                event_ink(ev, lum, thr),
                reg,
                border,
                imgs2[k],
            );
        let yl1 = choose|y: int| g.0 <= y < g.1 && #[trigger] row_left(rows, y) == reg1.x_start;
        let yl2 = choose|y: int| g.0 <= y < g.1 && #[trigger] row_left(rows, y) == reg2.x_start;
        let yr1 = choose|y: int| g.0 <= y < g.1 && #[trigger] row_right(rows, y) == reg1.x_end - 1;
        let yr2 = choose|y: int| g.0 <= y < g.1 && #[trigger] row_right(rows, y) == reg2.x_end - 1;
        assert(reg1.x_start <= row_left(rows, yl2) && reg2.x_start <= row_left(rows, yl1));
        assert(reg1.x_start <= row_left(rows, yr2) && reg2.x_start <= row_left(rows, yr1));
        assert(reg1.x_end > row_right(rows, yr2) && reg2.x_end > row_right(rows, yr1));
        assert(reg1 == reg2);
        let img1 = imgs1[k];
        let img2 = imgs2[k];
        let w = img1.width as int;
        let h = img1.height as int;
        assert(img2.width == w && img2.height == h);
        assert forall|n: int| 0 <= n < img1.data@.len() implies img1.data@[n] == img2.data@[n] by {
            assert(w > 0 && h > 0) by (nonlinear_arith)
                requires
                    0 <= n < w * h,
                    w >= 0,
                    h >= 0,
            ;
            lemma_fundamental_div_mod(n, w);
            lemma_mod_bound(n, w);
            let x = n % w;
            let y = n / w;
            assert(y >= 0 && y < h) by (nonlinear_arith)
                requires
                    w > 0,
                    0 <= n < w * h,
                    n == w * y + x,
                    0 <= x < w,
            ;
            assert(n == pixel_index(w, x, y)) by (nonlinear_arith)
                requires
                    n == w * y + x,
            ;
            assert(img1.data@[pixel_index(w, x, y)] == rendered_pixel(
                ev,
                event_ink(ev, lum, thr),
                reg1,
                border,
                x,
                y,
            ));
            assert(img2.data@[pixel_index(w, x, y)] == rendered_pixel(
                ev,
                event_ink(ev, lum, thr),
                reg1,
                border,
                x,
                y,
            ));
        }
        assert(img1.data@ =~= img2.data@);
    }
}

/// With an all-background ink table, no row carries ink.
pub proof fn lemma_no_ink_no_text(ev: SubtitleEvent, lum: Seq<u32>, thr: Threshold)
    requires
        ev.wf(),
        forall|s: int| 0 <= s < 4 ==> !(#[trigger] event_ink(ev, lum, thr)[s]),
    ensures
        !event_has_text(ev, lum, thr),
{
    let ink = event_ink(ev, lum, thr);
    let rows = event_rows(ev, lum, thr);
    assert forall|y: int| 0 <= y < ev.height implies !((#[trigger] rows[y]) is Some) by {
        lemma_row_extent_characterization(ev, ink, y, 0, ev.width as int);
        if rows[y] is Some {
            let e = row_extent(ev, ink, y, 0, ev.width as int)->0;
            assert(px_ink(ev, ink, e.0, y));
            assert(y * ev.width + e.0 < ev.width * ev.height && y * ev.width + e.0 >= 0)
                by (nonlinear_arith)
                requires
                    0 <= e.0 < ev.width as int,
                    0 <= y < ev.height as int,
            ;
            assert(ev.raw@[y * ev.width + e.0] < 4);
            assert(false);
        }
    }
}

} // verus!
