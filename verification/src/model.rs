use crate::images::{ManifestEntry, SourceImage, BACKGROUND};
use vstd::prelude::*;

verus! {

/// The packing cursor: the top-left corner of the free part of the current
/// shelf, and the height of the tallest image placed on that shelf so far.
pub ghost struct Cursor {
    pub x: int,
    pub y: int,
    pub row_h: int,
}

/// The rectangle assigned to the source image at index `idx` of the input.
pub ghost struct Placement {
    pub idx: int,
    pub x: int,
    pub y: int,
    pub width: int,
    pub height: int,
}

/// One manifest line, abstracted to its mathematical content.
pub ghost struct EntryView {
    pub id: Seq<char>,
    pub x: int,
    pub y: int,
    pub width: int,
    pub height: int,
}

/// What one step of shelf packing decides: the cursor afterwards, and the
/// origin the image was placed at, if it was placed at all.
pub ghost struct StepOutcome {
    pub cursor: Cursor,
    pub origin: Option<(int, int)>,
}

pub open spec fn start_cursor() -> Cursor {
    Cursor { x: 0, y: 0, row_h: 0 }
}

pub open spec fn width_at(images: Seq<SourceImage>, i: int) -> int {
    images[i].width as int
}

pub open spec fn height_at(images: Seq<SourceImage>, i: int) -> int {
    images[i].height as int
}

pub open spec fn images_wf(images: Seq<SourceImage>) -> bool {
    forall|i: int| 0 <= i < images.len() ==> (#[trigger] images[i]).wf()
}

/// One attempt to place a `w` x `h` image with cursor `c` in an atlas of
/// side `s`. An image that cannot fit below the current shelf is skipped
/// outright; one that does not fit on the rest of the current shelf moves
/// the cursor to a fresh shelf first, and is skipped if it does not fit
/// there; the boundary itself always counts as fitting.
pub open spec fn place_step(s: int, c: Cursor, w: int, h: int) -> StepOutcome {
    if c.y + h > s || w > s {
        StepOutcome { cursor: c, origin: None }
    } else if c.x + w > s {
        let ny = c.y + c.row_h;
        if ny + h > s {
            StepOutcome { cursor: Cursor { x: 0, y: ny, row_h: 0 }, origin: None }
        } else {
            StepOutcome { cursor: Cursor { x: w, y: ny, row_h: h }, origin: Some((0, ny)) }
        }
    } else {
        StepOutcome {
            cursor: Cursor {
                x: c.x + w,
                y: c.y,
                row_h: if c.row_h >= h { c.row_h } else { h },
            },
            origin: Some((c.x, c.y)),
        }
    }
}

/// Stable insertion of index `i` into `ord`: `i` goes after every index whose
/// image is at least as tall, so equal heights keep their input order.
pub open spec fn insert_by_height(images: Seq<SourceImage>, ord: Seq<int>, i: int) -> Seq<int>
    decreases ord.len(),
{
    if ord.len() == 0 {
        seq![i]
    } else if height_at(images, ord[0]) >= height_at(images, i) {
        seq![ord[0]] + insert_by_height(images, ord.drop_first(), i)
    } else {
        seq![i] + ord
    }
}

/// The order of the first `n` input indices after the stable sort by
/// strictly decreasing height.
pub open spec fn order_up_to(images: Seq<SourceImage>, n: int) -> Seq<int>
    decreases n,
{
    if n <= 0 {
        Seq::empty()
    } else {
        insert_by_height(images, order_up_to(images, n - 1), n - 1)
    }
}

/// The order the packer walks the input in: indices sorted by decreasing
/// height, ties kept in input order.
pub open spec fn pack_order(images: Seq<SourceImage>) -> Seq<int> {
    order_up_to(images, images.len() as int)
}

/// The packer's whole state after some prefix of the walk: the cursor and
/// the placements made so far, in the order they were made.
pub ghost struct PackTrace {
    pub cursor: Cursor,
    pub placed: Seq<Placement>,
}

/// The packer's state after the first `j` images of `ord` have been offered
/// to an atlas of side `s`.
pub open spec fn pack_prefix(images: Seq<SourceImage>, ord: Seq<int>, s: int, j: int) -> PackTrace
    decreases j,
{
    if j <= 0 {
        PackTrace { cursor: start_cursor(), placed: Seq::empty() }
    } else {
        let prev = pack_prefix(images, ord, s, j - 1);
        let i = ord[j - 1];
        let st = place_step(s, prev.cursor, width_at(images, i), height_at(images, i));
        match st.origin {
            Some(o) => PackTrace {
                cursor: st.cursor,
                placed: prev.placed.push(
                    Placement {
                        idx: i,
                        x: o.0,
                        y: o.1,
                        width: width_at(images, i),
                        height: height_at(images, i),
                    },
                ),
            },
            None => PackTrace { cursor: st.cursor, placed: prev.placed },
        }
    }
}

/// Every placement the packer makes for `images` in an atlas of side `s`,
/// in the order they are made.
pub open spec fn packed_placements(images: Seq<SourceImage>, s: int) -> Seq<Placement> {
    pack_prefix(images, pack_order(images), s, pack_order(images).len() as int).placed
}

pub open spec fn entry_view(e: ManifestEntry) -> EntryView {
    EntryView {
        id: e.id@,
        x: e.x as int,
        y: e.y as int,
        width: e.width as int,
        height: e.height as int,
    }
}

pub open spec fn manifest_view(m: Seq<ManifestEntry>) -> Seq<EntryView> {
    m.map_values(|e: ManifestEntry| entry_view(e))
}

pub open spec fn placement_entry(images: Seq<SourceImage>, p: Placement) -> EntryView {
    EntryView { id: images[p.idx].id@, x: p.x, y: p.y, width: p.width, height: p.height }
}

/// The manifest the packer owes: one line per placement, in placement order.
pub open spec fn model_manifest(images: Seq<SourceImage>, s: int) -> Seq<EntryView> {
    packed_placements(images, s).map_values(|p: Placement| placement_entry(images, p))
}

/// Whether placement `p` covers the atlas position `(x, y)`.
pub open spec fn covers(p: Placement, x: int, y: int) -> bool {
    p.x <= x < p.x + p.width && p.y <= y < p.y + p.height
}

pub open spec fn covered_by_any(ps: Seq<Placement>, x: int, y: int) -> bool {
    exists|k: int| 0 <= k < ps.len() && covers(#[trigger] ps[k], x, y)
}

/// The pixel the finished atlas owes at `(x, y)`: the matching source pixel
/// where some placement covers the position, the background elsewhere.
pub open spec fn model_pixel(images: Seq<SourceImage>, s: int, x: int, y: int) -> u32 {
    let ps = packed_placements(images, s);
    if covered_by_any(ps, x, y) {
        let k = choose|k: int| 0 <= k < ps.len() && covers(#[trigger] ps[k], x, y);
        images[ps[k].idx].spec_pixel(x - ps[k].x, y - ps[k].y)
    } else {
        BACKGROUND
    }
}

/// A placement that lies inside the atlas.
pub open spec fn in_bounds(p: Placement, s: int) -> bool {
    0 <= p.x && 0 <= p.y && p.x + p.width <= s && p.y + p.height <= s
}

/// Two placements whose rectangles do not intersect.
pub open spec fn disjoint(p: Placement, q: Placement) -> bool {
    ||| p.x + p.width <= q.x
    ||| q.x + q.width <= p.x
    ||| p.y + p.height <= q.y
    ||| q.y + q.height <= p.y
}

/// Every element of `ord` is an index into `images`.
pub open spec fn order_ok(images: Seq<SourceImage>, ord: Seq<int>) -> bool {
    forall|k: int| 0 <= k < ord.len() ==> 0 <= #[trigger] ord[k] < images.len()
}

/// No element of `ord` occurs twice.
pub open spec fn distinct_seq(ord: Seq<int>) -> bool {
    forall|k1: int, k2: int| 0 <= k1 < k2 < ord.len() ==> ord[k1] != ord[k2]
}

/// How an already-made placement stands relative to the cursor: on a
/// finished shelf wholly above the current one, or on the current shelf,
/// left of the cursor and within the current row height.
pub open spec fn placement_before_cursor(p: Placement, c: Cursor) -> bool {
    ||| p.y + p.height <= c.y
    ||| (p.y == c.y && p.x + p.width <= c.x && p.y + p.height <= c.y + c.row_h)
}

/// The shelf invariant: what holds of the cursor and of every placement
/// after any prefix of the packing walk.
pub open spec fn trace_inv(
    images: Seq<SourceImage>,
    ord: Seq<int>,
    s: int,
    j: int,
    t: PackTrace,
) -> bool {
    &&& 0 <= t.cursor.x <= s
    &&& 0 <= t.cursor.y
    &&& 0 <= t.cursor.row_h
    &&& t.cursor.y + t.cursor.row_h <= s
    &&& t.placed.len() <= j
    &&& forall|k: int| 0 <= k < t.placed.len() ==> in_bounds(#[trigger] t.placed[k], s)
    &&& forall|k: int|
        0 <= k < t.placed.len() ==> placement_before_cursor(#[trigger] t.placed[k], t.cursor)
    &&& forall|k: int|
        0 <= k < t.placed.len() ==> {
            let p = #[trigger] t.placed[k];
            &&& 0 <= p.idx < images.len()
            &&& p.width == width_at(images, p.idx)
            &&& p.height == height_at(images, p.idx)
            &&& p.width >= 1
            &&& p.height >= 1
        }
    &&& forall|k: int|
        0 <= k < t.placed.len() ==> exists|m: int|
            0 <= m < j && ord[m] == (#[trigger] t.placed[k]).idx
    &&& forall|k1: int, k2: int|
        0 <= k1 < k2 < t.placed.len() ==> disjoint(
            #[trigger] t.placed[k1],
            #[trigger] t.placed[k2],
        )
    &&& forall|k1: int, k2: int|
        0 <= k1 < k2 < t.placed.len() ==> t.placed[k1].idx != t.placed[k2].idx
}

/// The shelf invariant holds after every prefix of the packing walk.
pub proof fn lemma_pack_prefix_inv(images: Seq<SourceImage>, ord: Seq<int>, s: int, j: int)
    requires
        images_wf(images),
        order_ok(images, ord),
        distinct_seq(ord),
        s >= 1,
        0 <= j <= ord.len(),
    ensures
        trace_inv(images, ord, s, j, pack_prefix(images, ord, s, j)),
    decreases j,
{
    if j > 0 {
        lemma_pack_prefix_inv(images, ord, s, j - 1);
        let prev = pack_prefix(images, ord, s, j - 1);
        let i = ord[j - 1];
        let w = width_at(images, i);
        let h = height_at(images, i);
        let st = place_step(s, prev.cursor, w, h);
        let t = pack_prefix(images, ord, s, j);
        assert(images[i].wf());
        assert(w >= 1 && h >= 1);
        if st.origin is Some {
            let o = st.origin->0;
            let np = Placement { idx: i, x: o.0, y: o.1, width: w, height: h };
            assert(t.placed == prev.placed.push(np));
            assert(t.placed[t.placed.len() - 1] == np);
            // The fresh placement does not reuse an index already placed.
            assert forall|k: int| 0 <= k < prev.placed.len() implies prev.placed[k].idx != i by {
                let m = choose|m: int| 0 <= m < j - 1 && ord[m] == prev.placed[k].idx;
                assert(ord[m] != ord[j - 1]);
            }
            // The fresh placement is disjoint from every earlier one.
            assert forall|k: int|
                0 <= k < prev.placed.len() implies disjoint(prev.placed[k], np) by {
                assert(placement_before_cursor(prev.placed[k], prev.cursor));
            }
            // Every earlier placement still stands before the new cursor.
            assert forall|k: int|
                0 <= k < prev.placed.len() implies placement_before_cursor(
                prev.placed[k],
                t.cursor,
            ) by {
                assert(placement_before_cursor(prev.placed[k], prev.cursor));
            }
            // Indices placed earlier still come from the walked prefix.
            assert forall|k: int| #![trigger t.placed[k]]
                0 <= k < t.placed.len() implies exists|m: int|
                0 <= m < j && #[trigger] ord[m] == t.placed[k].idx by {
                if k < prev.placed.len() {
                    let m = choose|m: int| 0 <= m < j - 1 && ord[m] == prev.placed[k].idx;
                    assert(0 <= m < j && ord[m] == t.placed[k].idx);
                } else {
                    assert(0 <= j - 1 < j && ord[j - 1] == t.placed[k].idx);
                }
            }
        } else {
            assert(t.placed == prev.placed);
            assert forall|k: int|
                0 <= k < prev.placed.len() implies placement_before_cursor(
                prev.placed[k],
                t.cursor,
            ) by {
                assert(placement_before_cursor(prev.placed[k], prev.cursor));
            }
            assert forall|k: int| #![trigger t.placed[k]]
                0 <= k < t.placed.len() implies exists|m: int|
                0 <= m < j && #[trigger] ord[m] == t.placed[k].idx by {
                let m = choose|m: int| 0 <= m < j - 1 && ord[m] == prev.placed[k].idx;
                assert(0 <= m < j && ord[m] == t.placed[k].idx);
            }
        }
    }
}

/// A stable insertion is an ordinary insertion at some position.
pub proof fn lemma_insert_by_height_is_insert(images: Seq<SourceImage>, ord: Seq<int>, i: int)
    ensures
        exists|pos: int|
            0 <= pos <= ord.len() && insert_by_height(images, ord, i) == #[trigger] ord.insert(
                pos,
                i,
            ),
    decreases ord.len(),
{
    if ord.len() == 0 {
        assert(insert_by_height(images, ord, i) =~= ord.insert(0, i));
    } else if height_at(images, ord[0]) >= height_at(images, i) {
        let rest = ord.drop_first();
        lemma_insert_by_height_is_insert(images, rest, i);
        let p = choose|p: int|
            0 <= p <= rest.len() && insert_by_height(images, rest, i) == #[trigger] rest.insert(
                p,
                i,
            );
        rest.insert_ensures(p, i);
        ord.insert_ensures(p + 1, i);
        assert(insert_by_height(images, ord, i) =~= ord.insert(p + 1, i));
    } else {
        ord.insert_ensures(0, i);
        assert(insert_by_height(images, ord, i) =~= ord.insert(0, i));
    }
}

/// The sorted order of the first `n` indices is a permutation of `0..n`.
pub proof fn lemma_order_up_to_props(images: Seq<SourceImage>, n: int)
    requires
        n >= 0,
    ensures
        order_up_to(images, n).len() == n,
        forall|k: int| 0 <= k < n ==> 0 <= #[trigger] order_up_to(images, n)[k] < n,
        distinct_seq(order_up_to(images, n)),
        forall|x: int| 0 <= x < n ==> order_up_to(images, n).contains(x),
    decreases n,
{
    if n > 0 {
        lemma_order_up_to_props(images, n - 1);
        let prev = order_up_to(images, n - 1);
        lemma_insert_by_height_is_insert(images, prev, n - 1);
        let pos = choose|pos: int|
            0 <= pos <= prev.len() && insert_by_height(images, prev, n - 1)
                == #[trigger] prev.insert(pos, n - 1);
        let cur = order_up_to(images, n);
        assert(cur == prev.insert(pos, n - 1));
        prev.insert_ensures(pos, n - 1);
        assert forall|k: int| 0 <= k < n implies 0 <= #[trigger] cur[k] < n by {
            if k < pos {
                assert(cur[k] == prev[k]);
            } else if k > pos {
                assert(cur[k] == prev[k - 1]);
            }
        }
        assert forall|k1: int, k2: int| 0 <= k1 < k2 < cur.len() implies cur[k1] != cur[k2] by {
            if k1 < pos {
                assert(cur[k1] == prev[k1]);
            } else if k1 > pos {
                assert(cur[k1] == prev[k1 - 1]);
            }
            if k2 < pos {
                assert(cur[k2] == prev[k2]);
            } else if k2 > pos {
                assert(cur[k2] == prev[k2 - 1]);
            }
        }
        assert forall|x: int| 0 <= x < n implies cur.contains(x) by {
            if x == n - 1 {
                assert(cur[pos] == x);
            } else {
                assert(prev.contains(x));
                let k = choose|k: int| 0 <= k < prev.len() && prev[k] == x;
                if k < pos {
                    assert(cur[k] == x);
                } else {
                    assert(cur[k + 1] == x);
                }
            }
        }
    }
}

/// The order the packer walks is a permutation of all input indices.
pub proof fn lemma_pack_order_props(images: Seq<SourceImage>)
    ensures
        pack_order(images).len() == images.len(),
        order_ok(images, pack_order(images)),
        distinct_seq(pack_order(images)),
        forall|x: int| 0 <= x < images.len() ==> pack_order(images).contains(x),
{
    lemma_order_up_to_props(images, images.len() as int);
}

/// Everything the packer promises of its two results at once.
pub open spec fn pack_post(
    images: Seq<SourceImage>,
    s: int,
    atlas: crate::images::AtlasBuffer,
    manifest: Seq<ManifestEntry>,
) -> bool {
    &&& atlas.wf()
    &&& atlas.size == s
    &&& manifest_view(manifest) == model_manifest(images, s)
    &&& forall|x: int, y: int|
        0 <= x < s && 0 <= y < s ==> atlas.spec_pixel(x, y) == model_pixel(images, s, x, y)
}

} // verus!
