use crate::images::{AtlasBuffer, ManifestEntry, SourceImage, BACKGROUND};
use crate::model::{
    covered_by_any, covers, disjoint, height_at, images_wf, in_bounds, insert_by_height,
    lemma_insert_by_height_is_insert, lemma_order_up_to_props, lemma_pack_order_props,
    lemma_pack_prefix_inv, manifest_view, model_manifest, model_pixel, order_ok, order_up_to,
    pack_order, pack_post, pack_prefix, packed_placements, place_step, placement_entry, width_at,
    Placement,
};
use vstd::arithmetic::div_mod::{
    lemma_fundamental_div_mod, lemma_mod_bound, lemma_multiply_divide_lt,
};
use vstd::prelude::*;

verus! {

/// Inputs whose identifiers can serve as unique manifest keys.
pub open spec fn distinct_ids(images: Seq<SourceImage>) -> bool {
    forall|i1: int, i2: int|
        0 <= i1 < i2 < images.len() ==> images[i1].id@ != images[i2].id@
}

/// No-overlap: two distinct placements of the output never intersect.
pub proof fn lemma_no_overlap(images: Seq<SourceImage>, s: int, k1: int, k2: int)
    requires
        images_wf(images),
        s >= 1,
        0 <= k1 < packed_placements(images, s).len(),
        0 <= k2 < packed_placements(images, s).len(),
        k1 != k2,
    ensures
        disjoint(packed_placements(images, s)[k1], packed_placements(images, s)[k2]),
{
    lemma_pack_order_props(images);
    lemma_pack_prefix_inv(images, pack_order(images), s, pack_order(images).len() as int);
}

/// In-bounds: every placement lies inside the atlas, and carries the exact
/// dimensions of the image it places.
pub proof fn lemma_in_bounds(images: Seq<SourceImage>, s: int, k: int)
    requires
        images_wf(images),
        s >= 1,
        0 <= k < packed_placements(images, s).len(),
    ensures
        in_bounds(packed_placements(images, s)[k], s),
        0 <= packed_placements(images, s)[k].idx < images.len(),
        packed_placements(images, s)[k].width == width_at(
            images,
            packed_placements(images, s)[k].idx,
        ),
        packed_placements(images, s)[k].height == height_at(
            images,
            packed_placements(images, s)[k].idx,
        ),
{
    lemma_pack_order_props(images);
    lemma_pack_prefix_inv(images, pack_order(images), s, pack_order(images).len() as int);
}

/// Pixel fidelity: within a placement's extent, the atlas pixel the model
/// owes is exactly the corresponding source pixel.
pub proof fn lemma_pixel_fidelity(images: Seq<SourceImage>, s: int, k: int, px: int, py: int)
    requires
        images_wf(images),
        s >= 1,
        0 <= k < packed_placements(images, s).len(),
        0 <= px < packed_placements(images, s)[k].width,
        0 <= py < packed_placements(images, s)[k].height,
    ensures
        model_pixel(
            images,
            s,
            packed_placements(images, s)[k].x + px,
            packed_placements(images, s)[k].y + py,
        ) == images[packed_placements(images, s)[k].idx].spec_pixel(px, py),
{
    lemma_pack_order_props(images);
    lemma_pack_prefix_inv(images, pack_order(images), s, pack_order(images).len() as int);
    let ps = packed_placements(images, s);
    let x = ps[k].x + px;
    let y = ps[k].y + py;
    assert(covers(ps[k], x, y));
    assert(covered_by_any(ps, x, y));
    let k2 = choose|k2: int| 0 <= k2 < ps.len() && covers(#[trigger] ps[k2], x, y);
    if k2 != k {
        assert(disjoint(ps[k], ps[k2]));
        assert(false);
    }
}

/// Monotonic skip: an image taller than the atlas is never placed.
pub proof fn lemma_too_tall_never_placed(images: Seq<SourceImage>, s: int, i: int, k: int)
    requires
        images_wf(images),
        s >= 1,
        0 <= i < images.len(),
        height_at(images, i) > s,
        0 <= k < packed_placements(images, s).len(),
    ensures
        packed_placements(images, s)[k].idx != i,
{
    lemma_in_bounds(images, s, k);
}

/// Monotonic skip at the manifest: no line of the manifest carries the
/// identifier of an image taller than the atlas.
pub proof fn lemma_too_tall_absent(images: Seq<SourceImage>, s: int, i: int, k: int)
    requires
        images_wf(images),
        distinct_ids(images),
        s >= 1,
        0 <= i < images.len(),
        height_at(images, i) > s,
        0 <= k < model_manifest(images, s).len(),
    ensures
        model_manifest(images, s)[k].id != images[i].id@,
{
    let ps = packed_placements(images, s);
    assert(model_manifest(images, s)[k] == placement_entry(images, ps[k]));
    lemma_too_tall_never_placed(images, s, i, k);
    lemma_in_bounds(images, s, k);
    if ps[k].idx < i {
        assert(images[ps[k].idx].id@ != images[i].id@);
    } else {
        assert(images[i].id@ != images[ps[k].idx].id@);
    }
}

/// Empty input: no placements, and every pixel the model owes is the
/// background.
pub proof fn lemma_empty_input(s: int)
    requires
        s >= 1,
    ensures
        model_manifest(Seq::<SourceImage>::empty(), s).len() == 0,
        packed_placements(Seq::<SourceImage>::empty(), s).len() == 0,
        forall|x: int, y: int|
            model_pixel(Seq::<SourceImage>::empty(), s, x, y) == BACKGROUND,
{
    let images = Seq::<SourceImage>::empty();
    assert(pack_order(images) == order_up_to(images, 0));
    assert(packed_placements(images, s) == pack_prefix(images, pack_order(images), s, 0).placed);
    assert forall|x: int, y: int|
        model_pixel(images, s, x, y) == BACKGROUND by {
        assert(!covered_by_any(packed_placements(images, s), x, y));
    }
}

/// The sum of the widths of the first `n` input images.
pub open spec fn total_width_up_to(images: Seq<SourceImage>, n: int) -> int
    decreases n,
{
    if n <= 0 {
        0
    } else {
        total_width_up_to(images, n - 1) + width_at(images, n - 1)
    }
}

/// The sum of the widths of all input images.
pub open spec fn total_width(images: Seq<SourceImage>) -> int {
    total_width_up_to(images, images.len() as int)
}

/// The sum of the widths of the first `j` images of the walk `ord`.
pub open spec fn order_width_sum(images: Seq<SourceImage>, ord: Seq<int>, j: int) -> int
    decreases j,
{
    if j <= 0 {
        0
    } else {
        order_width_sum(images, ord, j - 1) + width_at(images, ord[j - 1])
    }
}

proof fn lemma_sum_agrees(images: Seq<SourceImage>, a: Seq<int>, b: Seq<int>, j: int)
    requires
        forall|m: int| 0 <= m < j ==> a[m] == b[m],
    ensures
        order_width_sum(images, a, j) == order_width_sum(images, b, j),
    decreases j,
{
    if j > 0 {
        lemma_sum_agrees(images, a, b, j - 1);
    }
}

proof fn lemma_sum_insert(images: Seq<SourceImage>, ord: Seq<int>, i: int, pos: int)
    requires
        0 <= pos <= ord.len(),
    ensures
        order_width_sum(images, ord.insert(pos, i), ord.len() as int + 1) == order_width_sum(
            images,
            ord,
            ord.len() as int,
        ) + width_at(images, i),
    decreases ord.len(),
{
    let l = ord.len() as int;
    let ord2 = ord.insert(pos, i);
    ord.insert_ensures(pos, i);
    if pos == l {
        assert(ord2[l] == i);
        lemma_sum_agrees(images, ord2, ord, l);
    } else {
        assert(ord2[l] == ord[l - 1]);
        let od = ord.drop_last();
        let od2 = od.insert(pos, i);
        od.insert_ensures(pos, i);
        assert forall|m: int| 0 <= m < l implies ord2[m] == od2[m] by {
            if m < pos {
                assert(ord2[m] == ord[m]);
                assert(od2[m] == od[m]);
                assert(od[m] == ord[m]);
            } else if m > pos {
                assert(ord2[m] == ord[m - 1]);
                assert(od2[m] == od[m - 1]);
                assert(od[m - 1] == ord[m - 1]);
            }
        }
        lemma_sum_agrees(images, ord2, od2, l);
        lemma_sum_insert(images, od, i, pos);
        lemma_sum_agrees(images, ord, od, l - 1);
    }
}

proof fn lemma_order_sum(images: Seq<SourceImage>, n: int)
    requires
        0 <= n,
    ensures
        order_width_sum(images, order_up_to(images, n), n) == total_width_up_to(images, n),
    decreases n,
{
    if n > 0 {
        lemma_order_sum(images, n - 1);
        let prev = order_up_to(images, n - 1);
        lemma_order_up_to_props(images, n - 1);
        lemma_insert_by_height_is_insert(images, prev, n - 1);
        let pos = choose|pos: int|
            0 <= pos <= prev.len() && insert_by_height(images, prev, n - 1)
                == #[trigger] prev.insert(pos, n - 1);
        lemma_sum_insert(images, prev, n - 1, pos);
        lemma_sum_agrees(images, order_up_to(images, n), prev.insert(pos, n - 1), n);
    }
}

proof fn lemma_sum_nonneg_mono(images: Seq<SourceImage>, ord: Seq<int>, j1: int, j2: int)
    requires
        images_wf(images),
        order_ok(images, ord),
        0 <= j1 <= j2 <= ord.len(),
    ensures
        0 <= order_width_sum(images, ord, j1) <= order_width_sum(images, ord, j2),
    decreases j2,
{
    if j2 > j1 {
        lemma_sum_nonneg_mono(images, ord, j1, j2 - 1);
        assert(images[ord[j2 - 1]].wf());
    } else if j1 > 0 {
        lemma_sum_nonneg_mono(images, ord, j1 - 1, j1 - 1);
        assert(images[ord[j1 - 1]].wf());
    }
}

proof fn lemma_single_shelf_prefix(images: Seq<SourceImage>, ord: Seq<int>, s: int, j: int)
    requires
        images_wf(images),
        order_ok(images, ord),
        s >= 1,
        0 <= j <= ord.len(),
        order_width_sum(images, ord, ord.len() as int) <= s,
        forall|i: int| 0 <= i < images.len() ==> height_at(images, i) <= s,
    ensures
        pack_prefix(images, ord, s, j).cursor.y == 0,
        pack_prefix(images, ord, s, j).cursor.x == order_width_sum(images, ord, j),
        0 <= pack_prefix(images, ord, s, j).cursor.row_h <= s,
        pack_prefix(images, ord, s, j).placed.len() == j,
        forall|m: int|
            0 <= m < j ==> #[trigger] pack_prefix(images, ord, s, j).placed[m].idx == ord[m],
    decreases j,
{
    if j > 0 {
        lemma_single_shelf_prefix(images, ord, s, j - 1);
        let prev = pack_prefix(images, ord, s, j - 1);
        let i = ord[j - 1];
        assert(images[i].wf());
        let w = width_at(images, i);
        let h = height_at(images, i);
        lemma_sum_nonneg_mono(images, ord, j, ord.len() as int);
        lemma_sum_nonneg_mono(images, ord, j - 1, j);
        assert(0 <= i < images.len());
        assert(h <= s);
        let st = place_step(s, prev.cursor, w, h);
        assert(prev.cursor.x + w == order_width_sum(images, ord, j));
        assert(prev.cursor.x + w <= s);
        assert(st.origin == Some((prev.cursor.x, prev.cursor.y)));
        let t = pack_prefix(images, ord, s, j);
        assert(t.placed == prev.placed.push(
            Placement { idx: i, x: prev.cursor.x, y: prev.cursor.y, width: w, height: h },
        ));
        assert forall|m: int| 0 <= m < j implies #[trigger] t.placed[m].idx == ord[m] by {
            if m < j - 1 {
                assert(t.placed[m] == prev.placed[m]);
            }
        }
    }
}

/// Completeness under trivial fit: when no image is taller than the atlas
/// and all widths together fit on one shelf, as many placements are made as
/// there are input images.
pub proof fn lemma_single_shelf_complete(images: Seq<SourceImage>, s: int)
    requires
        images_wf(images),
        s >= 1,
        total_width(images) <= s,
        forall|i: int| 0 <= i < images.len() ==> height_at(images, i) <= s,
    ensures
        packed_placements(images, s).len() == images.len(),
{
    let ord = pack_order(images);
    lemma_pack_order_props(images);
    lemma_order_sum(images, images.len() as int);
    lemma_single_shelf_prefix(images, ord, s, ord.len() as int);
}

/// Completeness under trivial fit, image by image: under the same fit, each
/// input image has a placement of its own.
pub proof fn lemma_single_shelf_places_each(images: Seq<SourceImage>, s: int, i: int)
    requires
        images_wf(images),
        s >= 1,
        total_width(images) <= s,
        forall|i2: int| 0 <= i2 < images.len() ==> height_at(images, i2) <= s,
        0 <= i < images.len(),
    ensures
        exists|k: int|
            0 <= k < packed_placements(images, s).len() && #[trigger] packed_placements(
                images,
                s,
            )[k].idx == i,
{
    let ord = pack_order(images);
    lemma_pack_order_props(images);
    lemma_order_sum(images, images.len() as int);
    lemma_single_shelf_prefix(images, ord, s, ord.len() as int);
    assert(packed_placements(images, s) == pack_prefix(images, ord, s, ord.len() as int).placed);
    assert(ord.contains(i));
    let k = choose|k: int| 0 <= k < ord.len() && ord[k] == i;
    assert(pack_prefix(images, ord, s, ord.len() as int).placed[k].idx == ord[k]);
    assert(packed_placements(images, s)[k].idx == i);
}

/// Determinism: any two results that meet the packer's contract for the
/// same input are identical, manifest line for line and pixel for pixel.
pub proof fn lemma_pack_deterministic(
    images: Seq<SourceImage>,
    s: int,
    a1: AtlasBuffer,
    m1: Seq<ManifestEntry>,
    a2: AtlasBuffer,
    m2: Seq<ManifestEntry>,
)
    requires
        s >= 1,
        pack_post(images, s, a1, m1),
        pack_post(images, s, a2, m2),
    ensures
        manifest_view(m1) == manifest_view(m2),
        a1.pixels@ == a2.pixels@,
{
    assert(a1.pixels@.len() == a2.pixels@.len());
    assert forall|idx: int|
        0 <= idx < a1.pixels@.len() implies a1.pixels@[idx] == a2.pixels@[idx] by {
        let x = idx % s;
        let y = idx / s;
        lemma_mod_bound(idx, s);
        lemma_fundamental_div_mod(idx, s);
        assert(idx < s * s);
        lemma_multiply_divide_lt(idx, s, s);
        assert(0 <= y) by (nonlinear_arith)
            requires
                0 <= idx,
                s >= 1,
                idx == s * y + x,
                x < s,
        ;
        assert(y * s + x == idx);
        assert(a1.spec_pixel(x, y) == a1.pixels@[idx]);
        assert(a2.spec_pixel(x, y) == a2.pixels@[idx]);
        assert(a1.spec_pixel(x, y) == model_pixel(images, s, x, y));
        assert(a2.spec_pixel(x, y) == model_pixel(images, s, x, y));
    }
    assert(a1.pixels@ =~= a2.pixels@);
}

} // verus!
