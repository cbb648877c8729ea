use crate::images::{AtlasBuffer, ManifestEntry, SourceImage, BACKGROUND};
use crate::model::{
    covered_by_any, covers, disjoint, distinct_seq, entry_view, height_at, images_wf,
    insert_by_height, lemma_pack_order_props, lemma_pack_prefix_inv, manifest_view, model_pixel,
    order_ok, order_up_to, pack_order, pack_post, pack_prefix, packed_placements, place_step,
    placement_entry, trace_inv, Placement,
};
use vstd::prelude::*;

verus! {

/// A sequence of exec indices, read as the mathematical sequence it stands
/// for.
pub open spec fn order_view(o: Seq<usize>) -> Seq<int> {
    o.map_values(|u: usize| u as int)
}

/// Stable insertion of `i` into the already-sorted `ord` lands exactly at
/// the first position whose image is strictly shorter than image `i`.
proof fn lemma_insert_at(images: Seq<SourceImage>, ord: Seq<int>, i: int, pos: int)
    requires
        0 <= pos <= ord.len(),
        forall|m: int| 0 <= m < pos ==> height_at(images, #[trigger] ord[m]) >= height_at(
            images,
            i,
        ),
        pos < ord.len() ==> height_at(images, ord[pos]) < height_at(images, i),
    ensures
        insert_by_height(images, ord, i) == ord.insert(pos, i),
    decreases ord.len(),
{
    ord.insert_ensures(pos, i);
    if ord.len() == 0 {
        assert(insert_by_height(images, ord, i) =~= ord.insert(0, i));
    } else if pos == 0 {
        assert(height_at(images, ord[0]) < height_at(images, i));
        assert(insert_by_height(images, ord, i) =~= ord.insert(0, i));
    } else {
        let rest = ord.drop_first();
        assert(height_at(images, ord[0]) >= height_at(images, i));
        assert forall|m: int|
            0 <= m < pos - 1 implies height_at(images, #[trigger] rest[m]) >= height_at(
            images,
            i,
        ) by {
            assert(rest[m] == ord[m + 1]);
        }
        assert(pos - 1 < rest.len() ==> height_at(images, rest[pos - 1]) < height_at(images, i));
        lemma_insert_at(images, rest, i, pos - 1);
        rest.insert_ensures(pos - 1, i);
        assert(insert_by_height(images, ord, i) =~= ord.insert(pos, i));
    }
}

/// Finds where image `i`, of height `h`, goes in the already-sorted `order`:
/// after every image at least as tall, before the first strictly shorter one.
fn find_pos(images: &Vec<SourceImage>, order: &Vec<usize>, h: u32) -> (pos: usize)
    requires
        forall|k: int| 0 <= k < order@.len() ==> #[trigger] order@[k] < images@.len(),
    ensures
        pos <= order@.len(),
        forall|m: int| 0 <= m < pos ==> height_at(images@, #[trigger] order@[m] as int) >= h,
        pos < order@.len() ==> height_at(images@, order@[pos as int] as int) < h,
{
    let mut pos: usize = 0;
    while pos < order.len()
        invariant
            pos <= order@.len(),
            forall|k: int| 0 <= k < order@.len() ==> #[trigger] order@[k] < images@.len(),
            forall|m: int| 0 <= m < pos ==> height_at(images@, #[trigger] order@[m] as int) >= h,
        decreases order@.len() - pos,
    {
        let idx: usize = order[pos];
        if images[idx].height < h {
            return pos;
        }
        pos = pos + 1;
    }
    pos
}

/// Sorts the input indices by strictly decreasing image height, keeping
/// equal heights in input order, by straight insertion.
pub fn sort_order(images: &Vec<SourceImage>) -> (r: Vec<usize>)
    ensures
        order_view(r@) == pack_order(images@),
        r@.len() == images@.len(),
        forall|k: int| 0 <= k < r@.len() ==> #[trigger] r@[k] < images@.len(),
{
    let mut order: Vec<usize> = Vec::new();
    let n: usize = images.len();
    let mut i: usize = 0;
    while i < n
        invariant
            i <= n,
            n == images@.len(),
            order@.len() == i,
            order_view(order@) == order_up_to(images@, i as int),
            forall|k: int| 0 <= k < order@.len() ==> #[trigger] order@[k] < images@.len(),
        decreases n - i,
    {
        let h: u32 = images[i].height;
        let pos: usize = find_pos(images, &order, h);
        let ghost before = order@;
        order.insert(pos, i);
        proof {
            assert forall|m: int|
                0 <= m < pos implies height_at(images@, #[trigger] order_view(before)[m])
                >= height_at(images@, i as int) by {
                assert(order_view(before)[m] == before[m] as int);
            }
            assert(pos < before.len() ==> height_at(images@, order_view(before)[pos as int])
                < height_at(images@, i as int));
            lemma_insert_at(images@, order_view(before), i as int, pos as int);
            order_view(before).insert_ensures(pos as int, i as int);
            before.insert_ensures(pos as int, i as usize);
            assert(order_view(order@) =~= order_view(before).insert(pos as int, i as int));
            assert(order_up_to(images@, i + 1) == insert_by_height(
                images@,
                order_up_to(images@, i as int),
                i as int,
            ));
        }
        i = i + 1;
    }
    order
}

/// Copies every pixel of `img` into `atlas` with its top-left corner at
/// `(ox, oy)`, leaving every pixel outside that rectangle unchanged.
fn blit(atlas: &mut AtlasBuffer, img: &SourceImage, ox: u32, oy: u32)
    requires
        old(atlas).wf(),
        img.wf(),
        ox + img.width <= old(atlas).size,
        oy + img.height <= old(atlas).size,
    ensures
        final(atlas).wf(),
        final(atlas).size == old(atlas).size,
        forall|x: int, y: int|
            ox <= x < ox + img.width && oy <= y < oy + img.height ==> final(atlas).spec_pixel(
                x,
                y,
            ) == img.spec_pixel(x - ox, y - oy),
        forall|x: int, y: int|
            0 <= x < old(atlas).size && 0 <= y < old(atlas).size && !(ox <= x < ox + img.width
                && oy <= y < oy + img.height) ==> final(atlas).spec_pixel(x, y) == old(
                atlas,
            ).spec_pixel(x, y),
{
    let w: u32 = img.width;
    let h: u32 = img.height;
    let mut px: u32 = 0;
    while px < w
        invariant
            px <= w,
            w == img.width,
            h == img.height,
            img.wf(),
            atlas.wf(),
            atlas.size == old(atlas).size,
            ox + w <= atlas.size,
            oy + h <= atlas.size,
            forall|x: int, y: int|
                ox <= x < ox + px && oy <= y < oy + h ==> atlas.spec_pixel(x, y)
                    == img.spec_pixel(x - ox, y - oy),
            forall|x: int, y: int|
                0 <= x < atlas.size && 0 <= y < atlas.size && !(ox <= x < ox + px && oy <= y < oy
                    + h) ==> atlas.spec_pixel(x, y) == old(atlas).spec_pixel(x, y),
        decreases w - px,
    {
        let mut py: u32 = 0;
        while py < h
            invariant
                px < w,
                py <= h,
                w == img.width,
                h == img.height,
                img.wf(),
                atlas.wf(),
                atlas.size == old(atlas).size,
                ox + w <= atlas.size,
                oy + h <= atlas.size,
                forall|x: int, y: int|
                    ox <= x < ox + px && oy <= y < oy + h ==> atlas.spec_pixel(x, y)
                        == img.spec_pixel(x - ox, y - oy),
                forall|x: int, y: int|
                    x == ox + px && oy <= y < oy + py ==> atlas.spec_pixel(x, y)
                        == img.spec_pixel(x - ox, y - oy),
                forall|x: int, y: int|
                    0 <= x < atlas.size && 0 <= y < atlas.size && !(ox <= x < ox + px && oy <= y
                        < oy + h) && !(x == ox + px && oy <= y < oy + py) ==> atlas.spec_pixel(
                        x,
                        y,
                    ) == old(atlas).spec_pixel(x, y),
            decreases h - py,
        {
            let v: u32 = img.pixel(px, py);
            atlas.set_pixel(ox + px, oy + py, v);
            py = py + 1;
        }
        px = px + 1;
    }
}

/// Packs `images` into one `atlas_size` x `atlas_size` atlas by
/// decreasing-height shelf packing, and returns the atlas with the manifest
/// of every placement made. The two results are exactly the ones the
/// mathematical model owes: the manifest lists, in placement order, the
/// model's placements, and every atlas pixel is the model's pixel, so the
/// whole output is a function of the input alone. Images that cannot fit
/// are absent from the manifest and leave no trace on the atlas.
pub fn pack(images: &Vec<SourceImage>, atlas_size: u32) -> (r: (AtlasBuffer, Vec<ManifestEntry>))
    requires
        atlas_size >= 1,
        (atlas_size as int) * (atlas_size as int) <= usize::MAX as int,
        images_wf(images@),
    ensures
        pack_post(images@, atlas_size as int, r.0, r.1@),
{
    let s: u32 = atlas_size;
    let order: Vec<usize> = sort_order(images);
    let ghost ord = order_view(order@);
    proof {
        lemma_pack_order_props(images@);
    }
    let mut atlas = AtlasBuffer::new(s);
    let mut manifest: Vec<ManifestEntry> = Vec::new();
    let mut cx: u32 = 0;
    let mut cy: u32 = 0;
    let mut rh: u32 = 0;
    let n: usize = order.len();
    proof {
        assert(manifest_view(manifest@) =~= pack_prefix(
            images@,
            ord,
            s as int,
            0,
        ).placed.map_values(|p: Placement| placement_entry(images@, p)));
    }
    let mut j: usize = 0;
    while j < n
        invariant
            images_wf(images@),
            s >= 1,
            ord == pack_order(images@),
            order_ok(images@, ord),
            distinct_seq(ord),
            n == order@.len(),
            order_view(order@) == ord,
            ord.len() == n,
            forall|k: int| 0 <= k < order@.len() ==> #[trigger] order@[k] < images@.len(),
            j <= n,
            cx == pack_prefix(images@, ord, s as int, j as int).cursor.x,
            cy == pack_prefix(images@, ord, s as int, j as int).cursor.y,
            rh == pack_prefix(images@, ord, s as int, j as int).cursor.row_h,
            manifest_view(manifest@) == pack_prefix(
                images@,
                ord,
                s as int,
                j as int,
            ).placed.map_values(|p: Placement| placement_entry(images@, p)),
            atlas.wf(),
            atlas.size == s,
            forall|k: int, x: int, y: int|
                #![trigger pack_prefix(images@, ord, s as int, j as int).placed[k], atlas.spec_pixel(x, y)]
                0 <= k < pack_prefix(images@, ord, s as int, j as int).placed.len() && covers(
                    pack_prefix(images@, ord, s as int, j as int).placed[k],
                    x,
                    y,
                ) ==> atlas.spec_pixel(x, y) == images@[pack_prefix(
                    images@,
                    ord,
                    s as int,
                    j as int,
                ).placed[k].idx].spec_pixel(
                    x - pack_prefix(images@, ord, s as int, j as int).placed[k].x,
                    y - pack_prefix(images@, ord, s as int, j as int).placed[k].y,
                ),
            forall|x: int, y: int|
                0 <= x < s && 0 <= y < s && !covered_by_any(
                    pack_prefix(images@, ord, s as int, j as int).placed,
                    x,
                    y,
                ) ==> #[trigger] atlas.spec_pixel(x, y) == BACKGROUND,
        decreases n - j,
    {
        proof {
            lemma_pack_prefix_inv(images@, ord, s as int, j as int);
        }
        let ghost prev = pack_prefix(images@, ord, s as int, j as int);
        let i: usize = order[j];
        let img = &images[i];
        let w: u32 = img.width;
        let h: u32 = img.height;
        proof {
            assert(images@[i as int].wf());
            assert(ord[j as int] == i as int);
            assert(trace_inv(images@, ord, s as int, j as int, prev));
            assert(cy <= s && cx <= s && cy + rh <= s);
        }
        let ghost st = place_step(s as int, prev.cursor, w as int, h as int);
        let ghost t = pack_prefix(images@, ord, s as int, j as int + 1);
        proof {
            assert(t.cursor == st.cursor && t.placed == match st.origin {
                Some(o) => prev.placed.push(
                    Placement {
                        idx: i as int,
                        x: o.0,
                        y: o.1,
                        width: w as int,
                        height: h as int,
                    },
                ),
                None => prev.placed,
            });
        }
        let mut was_placed: bool = false;
        let mut ox: u32 = 0;
        let mut oy: u32 = 0;
        if h <= s - cy && w <= s {
            if w > s - cx {
                let ny: u32 = cy + rh;
                cx = 0;
                cy = ny;
                if h > s - ny {
                    rh = 0;
                } else {
                    rh = h;
                    was_placed = true;
                    ox = 0;
                    oy = ny;
                    cx = w;
                }
            } else {
                was_placed = true;
                ox = cx;
                oy = cy;
                if h > rh {
                    rh = h;
                }
                cx = cx + w;
            }
        }
        proof {
            assert(st.cursor.x == cx as int && st.cursor.y == cy as int && st.cursor.row_h
                == rh as int);
            if was_placed {
                assert(st.origin == Some((ox as int, oy as int)));
                assert(ox + w <= s && oy + h <= s);
            } else {
                assert(st.origin is None);
            }
        }
        let ghost atlas0 = atlas;
        let ghost np = Placement {
            idx: i as int,
            x: ox as int,
            y: oy as int,
            width: w as int,
            height: h as int,
        };
        if was_placed {
            blit(&mut atlas, img, ox, oy);
            let ghost manifest0 = manifest@;
            let entry = ManifestEntry { id: img.id.clone(), x: ox, y: oy, width: w, height: h };
            manifest.push(entry);
            proof {
                assert(t.placed == prev.placed.push(np));
                lemma_pack_prefix_inv(images@, ord, s as int, j as int + 1);
                assert(trace_inv(images@, ord, s as int, j as int + 1, t));
                // The manifest still mirrors the placements, line for line.
                assert(manifest@ == manifest0.push(entry));
                assert forall|k: int|
                    0 <= k < manifest@.len() implies entry_view(manifest@[k]) == placement_entry(
                    images@,
                    t.placed[k],
                ) by {
                    if k < manifest0.len() {
                        assert(manifest_view(manifest0).len() == manifest0.len());
                        assert(manifest_view(manifest0) == prev.placed.map_values(
                            |p: Placement| placement_entry(images@, p),
                        ));
                        assert(prev.placed.map_values(
                            |p: Placement| placement_entry(images@, p),
                        ).len() == prev.placed.len());
                        assert(manifest0.len() == prev.placed.len());
                        assert(manifest@[k] == manifest0[k]);
                        assert(entry_view(manifest0[k]) == manifest_view(manifest0)[k]);
                        assert(manifest_view(manifest0)[k] == prev.placed.map_values(
                            |p: Placement| placement_entry(images@, p),
                        )[k]);
                        assert(prev.placed.map_values(
                            |p: Placement| placement_entry(images@, p),
                        )[k] == placement_entry(images@, prev.placed[k]));
                        assert(t.placed[k] == prev.placed[k]);
                    } else {
                        assert(manifest@[k] == entry);
                        assert(t.placed[k] == np);
                        assert(entry_view(entry) == placement_entry(images@, np));
                    }
                }
                assert(manifest_view(manifest@) =~= t.placed.map_values(
                    |p: Placement| placement_entry(images@, p),
                ));
                // Pixels of every earlier placement were outside the blit
                // rectangle, so they kept their values.
                assert forall|k: int, x: int, y: int|
                    #![trigger t.placed[k], atlas.spec_pixel(x, y)]
                    0 <= k < t.placed.len() && covers(t.placed[k], x, y) implies atlas.spec_pixel(
                    x,
                    y,
                ) == images@[t.placed[k].idx].spec_pixel(
                    x - t.placed[k].x,
                    y - t.placed[k].y,
                ) by {
                    if k < prev.placed.len() {
                        assert(t.placed[k] == prev.placed[k]);
                        assert(disjoint(t.placed[k], t.placed[t.placed.len() - 1]));
                        assert(!(ox <= x < ox + w && oy <= y < oy + h));
                        assert(crate::model::in_bounds(prev.placed[k], s as int));
                        assert(atlas.spec_pixel(x, y) == atlas0.spec_pixel(x, y));
                    } else {
                        assert(t.placed[k] == np);
                        assert(ox <= x < ox + w && oy <= y < oy + h);
                    }
                }
                // Pixels no placement covers are still at the background.
                assert forall|x: int, y: int|
                    0 <= x < s && 0 <= y < s && !covered_by_any(t.placed, x, y) implies #[trigger]
                atlas.spec_pixel(x, y) == BACKGROUND by {
                    assert(!covers(t.placed[t.placed.len() - 1], x, y));
                    assert(!(ox <= x < ox + w && oy <= y < oy + h));
                    if covered_by_any(prev.placed, x, y) {
                        let k = choose|k: int|
                            0 <= k < prev.placed.len() && covers(#[trigger] prev.placed[k], x, y);
                        assert(covers(t.placed[k], x, y));
                        assert(covered_by_any(t.placed, x, y));
                    }
                    assert(atlas.spec_pixel(x, y) == atlas0.spec_pixel(x, y));
                }
            }
        } else {
            proof {
                assert(t.placed == prev.placed);
                assert(manifest_view(manifest@) == t.placed.map_values(
                    |p: Placement| placement_entry(images@, p),
                ));
            }
        }
        j = j + 1;
    }
    proof {
        let ps = packed_placements(images@, s as int);
        assert(ps == pack_prefix(images@, ord, s as int, n as int).placed);
        assert(manifest_view(manifest@) == ps.map_values(
            |p: Placement| placement_entry(images@, p),
        ));
        assert forall|x: int, y: int|
            0 <= x < s && 0 <= y < s implies atlas.spec_pixel(x, y) == model_pixel(
            images@,
            s as int,
            x,
            y,
        ) by {
            if covered_by_any(ps, x, y) {
                let k = choose|k: int| 0 <= k < ps.len() && covers(#[trigger] ps[k], x, y);
                assert(covers(ps[k], x, y));
                assert(atlas.spec_pixel(x, y) == images@[ps[k].idx].spec_pixel(
                    x - ps[k].x,
                    y - ps[k].y,
                ));
            }
        }
    }
    (atlas, manifest)
}

} // verus!
