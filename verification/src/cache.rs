//! A cache of textures: small images share an atlas texture, big ones get a texture each.
use vstd::prelude::*;

use std::sync::Arc;

use crate::atlas::{
    area_of, atlas_wf, ceil_pow2, ceil_pow2_spec, collapsed, disjoint, downgrade, insert_spec,
    lemma_ceil_pow2, lemma_ceil_pow2_below, lemma_collapsed_pruned, lemma_insert_after_pruning,
    lemma_insert_clear, lemma_insert_wf, lemma_outcome, lemma_prune_pruned, lemma_pruned_wf,
    lemma_vacant_accepts,
    occupied, outcome, prune_spec, pruned, square, Area, Atlas, WeakRef,
};
use crate::draw::Update;

verus! {

/// What a texture slot of the cache holds.
pub enum TextureSlot {
    /// An atlas that images are packed into.
    Atlas(Atlas<WeakRef<usize>>),
    /// A texture that holds one image, or the glyphs.
    Big,
}

/// A cache for textures and text
pub struct Cache {
    size: usize,
    textures: Vec<TextureSlot>,
    updates: Vec<Update>,
    image_id_counter: usize,
}

/// Where an image was put: the texture, the id that keeps its place in an atlas taken, and, for
/// an image in an atlas, its area and the side of the atlas.
pub struct Placement {
    pub texture: usize,
    pub image_id: Arc<usize>,
    pub atlas_area: Option<(Area, usize)>,
}

/// Whether `u` introduces texture `id` of `w` by `h` texels holding `data`.
pub open spec fn is_texture(u: Update, id: usize, w: u32, h: u32, data: Seq<u8>, atlas: bool) -> bool {
    u matches Update::Texture { id: i, size, data: d, atlas: a } && i == id && size@ == seq![w, h]
        && d@ == data && a == atlas
}

/// Whether `u` writes `data`, `w` by `h` texels, into texture `id` at `(x, y)`.
pub open spec fn is_subresource(u: Update, id: usize, x: u32, y: u32, w: u32, h: u32, data: Seq<u8>) -> bool {
    u matches Update::TextureSubresource { id: i, offset, size, data: d } && i == id && offset@ == seq![x, y]
        && size@ == seq![w, h] && d@ == data
}

/// The side of the atlas square that an image of `width` by `height` texels takes: the larger
/// of the two, rounded up to a power of two.
pub open spec fn image_side(width: u32, height: u32) -> int {
    ceil_pow2_spec(if width >= height { width as int } else { height as int })
}

/// What `place_image` makes of the cache `old`, asked for an image of `width` by `height`
/// texels holding `data` once the occupied areas flagged in `f` are freed: the cache `new`, and
/// the placement `r`. The image goes into the pruned atlas when it takes it, into a texture of
/// its own otherwise, and the texels go into the pending updates.
pub open spec fn image_placed_after(
    old: Cache,
    new: Cache,
    r: Placement,
    width: u32,
    height: u32,
    data: Seq<u8>,
    f: Seq<bool>,
) -> bool {
    &&& new.wf()
    &&& r.image_id@ == old.next_id()
    &&& new.next_id() == old.next_id() + 1
    &&& new.size_spec() == old.size_spec()
    &&& exists|v: WeakRef<usize>| #![trigger insert_spec(prune_spec(old.atlas(), f), v, image_side(width, height))]
    {
        let n = prune_spec(old.atlas(), f);
        insert_spec(n, v, image_side(width, height)) matches Some((res, after)) && after == new.atlas()
            && match res {
            Ok(x) => {
                &&& r.texture == 1
                &&& r.atlas_area == Some((
                    Area { left: x.left, top: x.top, right: (x.left + width) as usize, bottom: (x.top + height) as usize },
                    (area_of(n).right - area_of(n).left) as usize,
                ))
                &&& new.slot_count() == old.slot_count()
                &&& new.pending().len() == old.pending().len() + 1
                &&& new.pending().drop_last() == old.pending()
                &&& is_subresource(new.pending().last(), 1, x.left as u32, x.top as u32, width, height, data)
            },
            Err(_) => {
                &&& r.texture == old.slot_count()
                &&& r.atlas_area is None
                &&& new.slot_count() == old.slot_count() + 1
                &&& new.pending().len() == old.pending().len() + 1
                &&& new.pending().drop_last() == old.pending()
                &&& is_texture(new.pending().last(), old.slot_count() as usize, width, height, data, false)
            },
        }
    }
}

/// What `insert_image` makes of the cache `old`: `place_image` after the areas of the images
/// dropped by then are freed, whichever those are.
pub open spec fn image_placed(old: Cache, new: Cache, r: Placement, width: u32, height: u32, data: Seq<u8>) -> bool {
    exists|f: Seq<bool>|
        f.len() == occupied(old.atlas()).len() && #[trigger] image_placed_after(old, new, r, width, height, data, f)
}

impl Cache {
    /// The side of the textures.
    pub closed spec fn size_spec(&self) -> usize {
        self.size
    }

    /// The texture updates not taken yet.
    pub closed spec fn pending(&self) -> Seq<Update> {
        self.updates@
    }

    /// The number of texture slots.
    pub closed spec fn slot_count(&self) -> nat {
        self.textures@.len()
    }

    /// The id the next image gets.
    pub closed spec fn next_id(&self) -> usize {
        self.image_id_counter
    }

    /// The atlas of the cache.
    pub closed spec fn atlas(&self) -> Atlas<WeakRef<usize>> {
        self.textures@[1]->Atlas_0
    }

    /// The shape `new` gives the cache and inserting keeps: slot 0 holds the glyphs, slot 1 is the
    /// only atlas, and it is well-formed and covers the whole texture.
    pub closed spec fn wf(&self) -> bool {
        &&& self.textures@.len() >= 2
        &&& forall|i: int| 0 <= i < self.textures@.len() ==> (#[trigger] self.textures@[i] is Atlas <==> i == 1)
        &&& atlas_wf(self.atlas())
        &&& area_of(self.atlas()) == (Area { left: 0, top: 0, right: self.size, bottom: self.size })
    }

    /// Create a new cache. Size is the width and height of textures in pixels.
    pub fn new(size: usize) -> (c: Cache)
        ensures
            c.size_spec() == size,
            c.slot_count() == 2,
            c.next_id() == 1,
            c.atlas() == Atlas::<WeakRef<usize>>::Vacant(Area { left: 0, top: 0, right: size, bottom: size }),
            c.pending().len() == 2,
            is_texture(c.pending()[0], 0, size as u32, size as u32, Seq::empty(), true),
            is_texture(c.pending()[1], 1, size as u32, size as u32, Seq::empty(), true),
            square(area_of(c.atlas())) ==> c.wf(),
    {
        let atlas = Atlas::new(size);
        let mut textures: Vec<TextureSlot> = Vec::new();
        textures.push(TextureSlot::Big);
        textures.push(TextureSlot::Atlas(atlas));
        let mut updates: Vec<Update> = Vec::new();
        updates.push(Update::Texture { id: 0, size: [size as u32, size as u32], data: Vec::new(), atlas: true });
        updates.push(Update::Texture { id: 1, size: [size as u32, size as u32], data: Vec::new(), atlas: true });
        let c = Cache { size, textures, updates, image_id_counter: 1 };
        proof {
            assert(c.updates@[0]->Texture_size@ =~= seq![size as u32, size as u32]);
            assert(c.updates@[1]->Texture_size@ =~= seq![size as u32, size as u32]);
        }
        c
    }

    /// The width and height of the textures, in pixels.
    pub fn texture_size(&self) -> (r: usize)
        ensures
            r == self.size_spec(),
    {
        self.size
    }

    /// Take updates for the texture system from the cache
    pub fn take_updates(&mut self) -> (r: Vec<Update>)
        ensures
            r@ == old(self).pending(),
            final(self).pending() == Seq::<Update>::empty(),
            final(self).wf() == old(self).wf(),
            final(self).atlas() == old(self).atlas(),
            final(self).slot_count() == old(self).slot_count(),
            final(self).next_id() == old(self).next_id(),
            final(self).size_spec() == old(self).size_spec(),
    {
        let mut taken: Vec<Update> = Vec::new();
        std::mem::swap(&mut taken, &mut self.updates);
        taken
    }

    /// Whether inserting a square of side `s` into the atlas is defined whichever values of the
    /// atlas have expired: it is, unless a split node on the way has quarters narrower than `s`.
    pub closed spec fn insert_ok(&self, s: int) -> bool {
        forall|n: Atlas<WeakRef<usize>>, v: WeakRef<usize>|
            #[trigger] pruned(self.atlas(), n) ==> #[trigger] insert_spec(n, v, s) is Some
    }

    /// For each occupied area of the atlas, in the order of `occupied`, whether its image has been
    /// dropped.
    pub fn expiry_flags(&self) -> (f: Vec<bool>)
        requires
            self.wf(),
        ensures
            f@.len() == occupied(self.atlas()).len(),
    {
        match &self.textures[1] {
            TextureSlot::Atlas(atlas) => atlas.expiry_flags(),
            TextureSlot::Big => {
                proof {
                    assert(false);
                }
                Vec::new()
            },
        }
    }

    /// Frees the occupied areas of the atlas flagged in `expired`, in the order of `occupied`,
    /// merging quarters that all became vacant.
    pub fn free_flagged(&mut self, expired: &Vec<bool>)
        requires
            old(self).wf(),
            expired@.len() == occupied(old(self).atlas()).len(),
        ensures
            final(self).wf(),
            final(self).atlas() == prune_spec(old(self).atlas(), expired@),
            pruned(old(self).atlas(), final(self).atlas()),
            final(self).size_spec() == old(self).size_spec(),
            final(self).pending() == old(self).pending(),
            final(self).next_id() == old(self).next_id(),
            final(self).slot_count() == old(self).slot_count(),
    {
        let ghost before = self.atlas();
        proof {
            lemma_prune_pruned(before, expired@);
            lemma_pruned_wf(before, prune_spec(before, expired@));
        }
        if let TextureSlot::Atlas(atlas) = &mut self.textures[1] {
            atlas.prune(expired);
        }
        proof {
            assert forall|j: int| 0 <= j < self.textures@.len() implies (#[trigger] self.textures@[j] is Atlas <==> j == 1) by {
                if j != 1 {
                    assert(self.textures@[j] == old(self).textures@[j]);
                }
            }
        }
    }

    /// Frees the areas of the atlas whose images have been dropped, merging quarters that all
    /// became vacant.
    pub fn free_expired(&mut self)
        requires
            old(self).wf(),
        ensures
            final(self).wf(),
            exists|f: Seq<bool>|
                f.len() == occupied(old(self).atlas()).len() && final(self).atlas() == #[trigger] prune_spec(
                    old(self).atlas(),
                    f,
                ),
            pruned(old(self).atlas(), final(self).atlas()),
            final(self).size_spec() == old(self).size_spec(),
            final(self).pending() == old(self).pending(),
            final(self).next_id() == old(self).next_id(),
            final(self).slot_count() == old(self).slot_count(),
    {
        let flags = self.expiry_flags();
        self.free_flagged(&flags);
    }

    /// Puts an image of `width` by `height` texels into the cache: into the atlas when there is
    /// room once the areas of dropped images are freed, else into a texture of its own. The texel
    /// data goes into the pending updates. Which images have been dropped depends on their other
    /// owners; see `place_image` for what is done once that is known.
    pub fn insert_image(&mut self, width: u32, height: u32, data: Vec<u8>) -> (r: Placement)
        requires
            old(self).wf(),
            old(self).next_id() < usize::MAX,
            old(self).slot_count() < usize::MAX,
            old(self).insert_ok(image_side(width, height)),
        ensures
            image_placed(*old(self), *final(self), r, width, height, data@),
    {
        let flags = self.expiry_flags();
        let r = self.place_image(&flags, width, height, data);
        proof {
            assert(image_placed_after(*old(self), *self, r, width, height, data@, flags@));
        }
        r
    }

    /// Frees the occupied areas of the atlas flagged in `expired`, in the order of `occupied`,
    /// then puts an image of `width` by `height` texels into the cache: into the atlas when it
    /// takes it, else into a texture of its own. The texel data goes into the pending updates.
    pub fn place_image(&mut self, expired: &Vec<bool>, width: u32, height: u32, data: Vec<u8>) -> (r: Placement)
        requires
            old(self).wf(),
            old(self).next_id() < usize::MAX,
            old(self).slot_count() < usize::MAX,
            old(self).insert_ok(image_side(width, height)),
            expired@.len() == occupied(old(self).atlas()).len(),
        ensures
            image_placed_after(*old(self), *final(self), r, width, height, data@, expired@),
    {
        let ghost before = self.atlas();
        let ghost d = data@;
        self.free_flagged(expired);
        let ghost pruned_atlas = self.atlas();
        let ghost fl = expired@;
        proof {
            lemma_pruned_wf(before, pruned_atlas);
        }

        let image_id = Arc::new(self.image_id_counter);
        self.image_id_counter += 1;

        let image_size: usize = if width >= height { width as usize } else { height as usize };
        let ghost s = ceil_pow2_spec(image_size as int);
        proof {
            lemma_ceil_pow2(image_size as int);
        }
        let mut found: Option<(Area, usize, usize)> = None;
        let mut k: usize = 0;
        while k < self.textures.len() && found.is_none()
            invariant
                self.textures@.len() == old(self).textures@.len(),
                forall|j: int| 0 <= j < self.textures@.len() ==> (#[trigger] self.textures@[j] is Atlas <==> j == 1),
                s == ceil_pow2_spec(image_size as int),
                crate::atlas::is_pow2(s),
                image_size as int == (if width >= height { width as int } else { height as int }),
                pruned(before, pruned_atlas),
                old(self).insert_ok(s),
                before == old(self).atlas(),
                atlas_wf(pruned_atlas),
                found is None && k <= 1 ==> self.atlas() == pruned_atlas,
                found is None && k > 1 ==> exists|v: WeakRef<usize>|
                    #![trigger insert_spec(pruned_atlas, v, s)]
                    insert_spec(pruned_atlas, v, s) matches Some((Err(_), a)) && a == self.atlas(),
                found matches Some((x, size, idx)) ==> idx == 1 && size == area_of(pruned_atlas).right - area_of(pruned_atlas).left
                    && exists|v: WeakRef<usize>| #![trigger insert_spec(pruned_atlas, v, s)] insert_spec(pruned_atlas, v, s) == Some((Ok::<Area, WeakRef<usize>>(x), self.atlas())),
                self.size == old(self).size,
                self.updates@ == old(self).updates@,
                self.image_id_counter == old(self).image_id_counter + 1,
            decreases self.textures.len() - k,
        {
            let is_atlas = match &self.textures[k] {
                TextureSlot::Atlas(_) => true,
                TextureSlot::Big => false,
            };
            if is_atlas {
              if let TextureSlot::Atlas(atlas) = &mut self.textures[k] {
                let handle = downgrade(&image_id);
                let ghost h = handle;
                proof {
                    assert(pruned(old(self).atlas(), pruned_atlas));
                    assert(insert_spec(pruned_atlas, h, s) is Some);
                    lemma_insert_wf(pruned_atlas, h, s);
                }
                match atlas.insert(handle, image_size) {
                    Ok(area) => {
                        let size = atlas.size();
                        found = Some((area, size, k));
                    },
                    Err(_) => {},
                }
              }
            }
            k += 1;
        }
        match found {
            Some((area, atlas_size, tex_id)) => {
                let mut area = area;
                let ghost v = choose|v: WeakRef<usize>| insert_spec(pruned_atlas, v, s) == Some((Ok::<Area, WeakRef<usize>>(area), self.atlas()));
                proof {
                    lemma_ceil_pow2(image_size as int);
                    lemma_insert_wf(pruned_atlas, v, s);
                    assert(pruned_atlas == prune_spec(before, fl));
                }
                area.right = area.left + width as usize;
                area.bottom = area.top + height as usize;
                let update = Update::TextureSubresource {
                    id: tex_id,
                    offset: [area.left as u32, area.top as u32],
                    size: [width, height],
                    data,
                };
                self.updates.push(update);
                let placement = Placement { texture: tex_id, image_id, atlas_area: Some((area, atlas_size)) };
                proof {
                    assert(prune_spec(old(self).atlas(), fl) == pruned_atlas);
                    assert(insert_spec(pruned_atlas, v, image_side(width, height)) matches Some((res, after)) && after == self.atlas());
                    assert(self.pending().drop_last() == old(self).pending());
                    assert(image_placed_after(*old(self), *self, placement, width, height, d, fl));
                }
                placement
            },
            None => {
                let ghost v = choose|v: WeakRef<usize>| #![trigger insert_spec(pruned_atlas, v, s)]
                    insert_spec(pruned_atlas, v, s) matches Some((Err(_), a)) && a == self.atlas();
                proof {
                    lemma_insert_wf(pruned_atlas, v, s);
                    assert(pruned_atlas == prune_spec(before, fl));
                }
                let tex_id = self.textures.len();
                let update = Update::Texture { id: tex_id, size: [width, height], data, atlas: false };
                self.updates.push(update);
                self.textures.push(TextureSlot::Big);
                let placement = Placement { texture: tex_id, image_id, atlas_area: None };
                proof {
                    assert(prune_spec(old(self).atlas(), fl) == pruned_atlas);
                    assert(insert_spec(pruned_atlas, v, image_side(width, height)) matches Some((res, after)) && after == self.atlas());
                    assert(self.pending().drop_last() == old(self).pending());
                    assert(image_placed_after(*old(self), *self, placement, width, height, d, fl));
                }
                placement
            },
        }
    }
}

impl Cache {
    /// Whether `insert_image` can be asked to place an image of `width` by `height` texels:
    /// whichever images have been dropped, the atlas is not asked for a square larger than a
    /// node it passes.
    pub fn fits_image(&self, width: u32, height: u32) -> (r: bool)
        requires
            self.wf(),
        ensures
            r == self.insert_ok(image_side(width, height)),
    {
        let ghost atlas = self.atlas();
        let ghost s = image_side(width, height);
        let ghost v: WeakRef<usize> = vstd::pervasive::arbitrary();
        let x: usize = if width >= height { width as usize } else { height as usize };
        proof {
            lemma_ceil_pow2(x as int);
            lemma_collapsed_pruned(atlas);
            lemma_pruned_wf(atlas, collapsed(atlas));
            lemma_outcome(collapsed(atlas), v, s);
        }
        if x > self.size {
            proof {
                assert(outcome(collapsed(atlas), s) is None);
            }
            return false;
        }
        proof {
            lemma_ceil_pow2_below(x as int, self.size as int);
        }
        let side = ceil_pow2(x);
        let result = match &self.textures[1] {
            TextureSlot::Atlas(a) => a.merged_outcome(side).0,
            TextureSlot::Big => None,
        };
        proof {
            if result is Some {
                assert forall|n: Atlas<WeakRef<usize>>, w: WeakRef<usize>| #[trigger] pruned(atlas, n) implies #[trigger] insert_spec(n, w, s) is Some by {
                    lemma_insert_after_pruning(atlas, n, w, s);
                }
            }
        }
        result.is_some()
    }

    /// A well-formed cache whose atlas holds nothing takes any image whose side, rounded up to a
    /// power of two, fits in its textures.
    pub proof fn lemma_empty_atlas_accepts(&self, width: u32, height: u32)
        requires
            self.wf(),
            self.atlas() is Vacant,
            image_side(width, height) <= self.size_spec(),
        ensures
            self.insert_ok(image_side(width, height)),
    {
        let s = image_side(width, height);
        lemma_ceil_pow2(if width >= height { width as int } else { height as int });
        assert forall|n: Atlas<WeakRef<usize>>, v: WeakRef<usize>| #[trigger] pruned(self.atlas(), n) implies #[trigger] insert_spec(n, v, s) is Some by {
            lemma_vacant_accepts(area_of(self.atlas()), v, s);
        }
    }

    /// An image that the atlas of a well-formed cache takes, once the areas of dropped images are
    /// freed, lies within the texture with room for all its texels, and overlaps no image still
    /// in the atlas.
    pub proof fn lemma_image_fits(&self, n: Atlas<WeakRef<usize>>, v: WeakRef<usize>, width: u32, height: u32)
        requires
            self.wf(),
            pruned(self.atlas(), n),
            insert_spec(n, v, image_side(width, height)) matches Some((Ok(_), _)),
        ensures
            insert_spec(n, v, image_side(width, height)) matches Some((Ok(x), _)) && x.left + width <= x.right
                <= self.size_spec() && x.top + height <= x.bottom <= self.size_spec() && forall|k: int|
                0 <= k < occupied(n).len() ==> disjoint(x, #[trigger] occupied(n)[k]),
    {
        let s = image_side(width, height);
        lemma_ceil_pow2(if width >= height { width as int } else { height as int });
        lemma_pruned_wf(self.atlas(), n);
        lemma_insert_wf(n, v, s);
        lemma_insert_clear(n, v, s);
    }
}

/// Whether a texel of a nine-patch bar marks its position, by an alpha above one half.
pub open spec fn marked(alpha: u8) -> bool {
    alpha > 128
}

/// `r` lists the runs of marked texels of `bar`, in order: each run is a nonempty range of
/// marked texels bounded by unmarked ones or the ends of the bar, and every marked texel lies in
/// one of them.
pub open spec fn is_runs(r: Seq<(usize, usize)>, bar: Seq<u8>) -> bool {
    &&& forall|k: int| 0 <= k < r.len() ==> #[trigger] r[k].0 < r[k].1 <= bar.len()
    &&& forall|k: int, j: int| 0 <= k < r.len() && r[k].0 <= j < r[k].1 ==> marked(#[trigger] bar[j]) && #[trigger] r[k].0 <= j
    &&& forall|k: int| 0 <= k < r.len() ==> (#[trigger] r[k].0 == 0 || !marked(bar[r[k].0 - 1]))
    &&& forall|k: int| 0 <= k < r.len() ==> (#[trigger] r[k].1 == bar.len() || !marked(bar[r[k].1 as int]))
    &&& forall|k: int, l: int| 0 <= k < l < r.len() ==> #[trigger] r[k].1 < #[trigger] r[l].0
    &&& forall|j: int| 0 <= j < bar.len() && marked(#[trigger] bar[j]) ==> exists|k: int| 0 <= k < r.len() && #[trigger] r[k].0 <= j < r[k].1
}

/// The range from the first to past the last marked texel of `bar`, if any is marked.
pub open spec fn is_extent(e: Option<(usize, usize)>, bar: Seq<u8>) -> bool {
    match e {
        None => forall|j: int| 0 <= j < bar.len() ==> !marked(#[trigger] bar[j]),
        Some((b, f)) => {
            &&& b < f <= bar.len()
            &&& marked(bar[b as int]) && marked(bar[f - 1])
            &&& forall|j: int| 0 <= j < bar.len() && marked(#[trigger] bar[j]) ==> b <= j < f
        },
    }
}

/// Reads the bars of a nine-patch image: from the alpha values of the texels along its stretch
/// bar, the runs of marked texels, where the patch stretches; from those along its content bar,
/// the range of marked texels, where content goes. Positions count from the first texel inside
/// the border.
pub fn patch_bars(stretch: &Vec<u8>, content: &Vec<u8>) -> (r: (Vec<(usize, usize)>, Option<(usize, usize)>))
    ensures
        is_runs(r.0@, stretch@),
        is_extent(r.1, content@),
{
    let n = stretch.len();
    let mut runs: Vec<(usize, usize)> = Vec::new();
    let mut current: Option<usize> = None;
    let mut i: usize = 0;
    while i < n
        invariant
            n == stretch@.len(),
            i <= n,
            forall|k: int| 0 <= k < runs@.len() ==> (#[trigger] runs@[k]).0 < runs@[k].1 < i,
            forall|k: int, j: int| 0 <= k < runs@.len() && runs@[k].0 <= j < runs@[k].1 ==> marked(#[trigger] stretch@[j]) && #[trigger] runs@[k].0 <= j,
            forall|k: int| 0 <= k < runs@.len() ==> (#[trigger] runs@[k].0 == 0 || !marked(stretch@[runs@[k].0 - 1])),
            forall|k: int| 0 <= k < runs@.len() ==> !marked(stretch@[#[trigger] runs@[k].1 as int]),
            forall|k: int, l: int| 0 <= k < l < runs@.len() ==> #[trigger] runs@[k].1 < #[trigger] runs@[l].0,
            current matches Some(b) ==> b < i,
            current matches Some(b) ==> forall|j: int| b <= j < i ==> marked(#[trigger] stretch@[j]),
            current matches Some(b) ==> (b == 0 || !marked(stretch@[b - 1])),
            current matches Some(b) ==> forall|k: int| 0 <= k < runs@.len() ==> (#[trigger] runs@[k]).1 < b,
            current matches Some(b) ==> forall|j: int| 0 <= j < b && marked(#[trigger] stretch@[j]) ==> exists|k: int| 0 <= k < runs@.len() && #[trigger] runs@[k].0 <= j < runs@[k].1,
            current is None ==> (i == 0 || !marked(stretch@[i - 1])),
            current is None ==> forall|j: int| 0 <= j < i && marked(#[trigger] stretch@[j]) ==> exists|k: int| 0 <= k < runs@.len() && #[trigger] runs@[k].0 <= j < runs@[k].1,
        decreases n - i,
    {
        if stretch[i] > 128 {
            if current.is_none() {
                current = Some(i);
                proof {
                    assert forall|j: int| 0 <= j < i && marked(#[trigger] stretch@[j]) implies exists|k: int|
                        0 <= k < runs@.len() && #[trigger] runs@[k].0 <= j < runs@[k].1 by {
                    }
                    assert forall|j: int| i <= j < i + 1 implies marked(#[trigger] stretch@[j]) by {
                        assert(j == i);
                    }
                }
            } else {
                proof {
                    let b = current->0;
                    assert forall|j: int| b <= j < i + 1 implies marked(#[trigger] stretch@[j]) by {
                        if j < i {
                        } else {
                            assert(j == i);
                        }
                    }
                }
            }
        } else if let Some(b) = current {
            let ghost old_runs = runs@;
            runs.push((b, i));
            proof {
                let last = runs@.len() - 1;
                assert(runs@[last] == (b, i));
                assert forall|j: int| 0 <= j < i + 1 && marked(#[trigger] stretch@[j]) implies exists|k: int|
                    0 <= k < runs@.len() && #[trigger] runs@[k].0 <= j < runs@[k].1 by {
                    if j >= b {
                        assert(runs@[last].0 <= j < runs@[last].1);
                    } else {
                        let k = choose|k: int| 0 <= k < old_runs.len() && #[trigger] old_runs[k].0 <= j < old_runs[k].1;
                        assert(runs@[k] == old_runs[k]);
                    }
                }
            }
            current = None;
        } else {
            proof {
                assert forall|j: int| 0 <= j < i + 1 && marked(#[trigger] stretch@[j]) implies exists|k: int|
                    0 <= k < runs@.len() && #[trigger] runs@[k].0 <= j < runs@[k].1 by {
                    assert(j < i);
                }
            }
        }
        i += 1;
    }
    if let Some(b) = current {
        let ghost old_runs = runs@;
        runs.push((b, n));
        proof {
            let last = runs@.len() - 1;
            assert(runs@[last] == (b, n));
            assert forall|j: int| 0 <= j < n && marked(#[trigger] stretch@[j]) implies exists|k: int|
                0 <= k < runs@.len() && #[trigger] runs@[k].0 <= j < runs@[k].1 by {
                if j >= b {
                    assert(runs@[last].0 <= j < runs@[last].1);
                } else {
                    let k = choose|k: int| 0 <= k < old_runs.len() && #[trigger] old_runs[k].0 <= j < old_runs[k].1;
                    assert(runs@[k] == old_runs[k]);
                }
            }
        }
    }

    let m = content.len();
    let mut extent: Option<(usize, usize)> = None;
    let mut i: usize = 0;
    while i < m
        invariant
            m == content@.len(),
            i <= m,
            match extent {
                None => forall|j: int| 0 <= j < i ==> !marked(#[trigger] content@[j]),
                Some((b, f)) => {
                    &&& b < f <= i
                    &&& marked(content@[b as int]) && marked(content@[f - 1])
                    &&& forall|j: int| 0 <= j < i && marked(#[trigger] content@[j]) ==> b <= j < f
                },
            },
        decreases m - i,
    {
        if content[i] > 128 {
            extent = match extent {
                None => Some((i, i + 1)),
                Some((b, _)) => Some((b, i + 1)),
            };
        }
        i += 1;
    }
    (runs, extent)
}

/// Decodes an image with `image::load_from_memory` and converts it to 8-bit RGBA with
/// `DynamicImage::into_rgba8`; gives its width, height and raw texels. The texel buffer of an
/// `ImageBuffer` holds at least four bytes for each of its `width * height` texels. Which image
/// comes out is not stated: the formats tried, and how, depend on decoding hooks that any code of
/// the process may register at any time.
#[verifier::external_body]
fn decode_rgba(bytes: &[u8]) -> (r: Option<(u32, u32, Vec<u8>)>)
    ensures
        r matches Some((w, h, d)) ==> d@.len() >= w * h * 4,
{
    match image::load_from_memory(bytes) {
        Ok(image) => {
            let image = image.into_rgba8();
            let (w, h) = image.dimensions();
            Some((w, h, image.into_raw()))
        },
        Err(_) => None,
    }
}

/// Why an image could not be put into the cache.
#[derive(Debug, Clone, Copy, PartialEq, Eq, Structural)]
pub enum LoadError {
    /// The bytes encode no image that can be read.
    Decode,
    /// The atlas could be asked for a square larger than a node it passes.
    TooLarge,
    /// The ids of images or the texture slots have run out.
    Exhausted,
    /// A nine-patch narrower or lower than its two border texels.
    NoBorder,
}

/// The alpha of texel `(x, y)` of RGBA texels `d`, `w` texels to a row.
pub open spec fn alpha_at(d: Seq<u8>, w: int, x: int, y: int) -> u8 {
    d[(y * w + x) * 4 + 3]
}

/// The alphas of row `y` inside the border of an image `w` texels wide.
pub open spec fn row_alphas(d: Seq<u8>, w: int, y: int) -> Seq<u8> {
    Seq::new((w - 2) as nat, |i: int| alpha_at(d, w, i + 1, y))
}

/// The alphas of column `x` inside the border of an image `w` by `h` texels.
pub open spec fn column_alphas(d: Seq<u8>, w: int, h: int, x: int) -> Seq<u8> {
    Seq::new((h - 2) as nat, |i: int| alpha_at(d, w, x, i + 1))
}

/// The texels of rows 1 to `k` of an image `w` texels wide, without their first and last
/// texel: the image inside its border, when `k` is its height less two.
pub open spec fn inner_rows(d: Seq<u8>, w: int, k: int) -> Seq<u8>
    decreases k,
{
    if k <= 0 {
        Seq::empty()
    } else {
        inner_rows(d, w, k - 1) + d.subrange((k * w + 1) * 4, (k * w + w - 1) * 4)
    }
}

/// Where a nine-patch was put, and how it stretches and frames content. Ranges count texels from
/// the first one inside the border.
pub struct PatchPlacement {
    /// Where the image inside the border was put.
    pub placement: Placement,
    /// The width of the image inside the border.
    pub width: u32,
    /// The height of the image inside the border.
    pub height: u32,
    /// The runs of columns that stretch, marked on the top border.
    pub h_stretch: Vec<(usize, usize)>,
    /// The runs of rows that stretch, marked on the left border.
    pub v_stretch: Vec<(usize, usize)>,
    /// The columns where content goes, marked on the bottom border.
    pub h_content: Option<(usize, usize)>,
    /// The rows where content goes, marked on the right border.
    pub v_content: Option<(usize, usize)>,
}

/// Texel `(x, y)` of an image `w` by `h` lies within its texels.
proof fn lemma_texel_within(w: int, h: int, x: int, y: int)
    requires
        0 <= x < w,
        0 <= y < h,
    ensures
        0 <= y * w + x,
        (y * w + x) * 4 + 3 < w * h * 4,
{
    assert(0 <= y * w) by (nonlinear_arith)
        requires
            0 <= y,
            0 <= w,
    ;
    assert((y + 1) * w <= h * w) by (nonlinear_arith)
        requires
            y + 1 <= h,
            0 <= w,
    ;
    assert((y + 1) * w == y * w + w) by (nonlinear_arith);
    assert(h * w * 4 == w * h * 4) by (nonlinear_arith);
}

/// Reads the alpha of texel `(x, y)`.
fn alpha(d: &Vec<u8>, w: usize, h: usize, x: usize, y: usize) -> (r: u8)
    requires
        d@.len() >= w * h * 4,
        x < w,
        y < h,
    ensures
        r == alpha_at(d@, w as int, x as int, y as int),
{
    let len = d.len();
    proof {
        // the texels fit in memory, so their offsets fit in a `usize`
        assert(d@.len() == len);
        lemma_texel_within(w as int, h as int, x as int, y as int);
    }
    d[(y * w + x) * 4 + 3]
}

/// The alphas of row `y` inside the border.
fn row_bar(d: &Vec<u8>, w: usize, h: usize, y: usize) -> (r: Vec<u8>)
    requires
        d@.len() >= w * h * 4,
        w >= 2,
        y < h,
    ensures
        r@ == row_alphas(d@, w as int, y as int),
{
    let mut out: Vec<u8> = Vec::new();
    let mut x: usize = 1;
    while x < w - 1
        invariant
            1 <= x <= w - 1,
            d@.len() >= w * h * 4,
            w >= 2,
            y < h,
            out@ =~= row_alphas(d@, w as int, y as int).take(x - 1),
        decreases w - x,
    {
        let a = alpha(d, w, h, x, y);
        out.push(a);
        x += 1;
    }
    out
}

/// The alphas of column `x` inside the border.
fn column_bar(d: &Vec<u8>, w: usize, h: usize, x: usize) -> (r: Vec<u8>)
    requires
        d@.len() >= w * h * 4,
        h >= 2,
        x < w,
    ensures
        r@ == column_alphas(d@, w as int, h as int, x as int),
{
    let mut out: Vec<u8> = Vec::new();
    let mut y: usize = 1;
    while y < h - 1
        invariant
            1 <= y <= h - 1,
            d@.len() >= w * h * 4,
            h >= 2,
            x < w,
            out@ =~= column_alphas(d@, w as int, h as int, x as int).take(y - 1),
        decreases h - y,
    {
        let a = alpha(d, w, h, x, y);
        out.push(a);
        y += 1;
    }
    out
}

/// The texels of the image inside its border: each row but the first and last, without its
/// first and last texel.
fn crop_border(d: &Vec<u8>, w: usize, h: usize) -> (r: Vec<u8>)
    requires
        d@.len() >= w * h * 4,
        w >= 2,
        h >= 2,
    ensures
        r@ == inner_rows(d@, w as int, h - 2),
{
    let mut out: Vec<u8> = Vec::new();
    let mut k: usize = 1;
    while k < h - 1
        invariant
            1 <= k <= h - 1,
            d@.len() >= w * h * 4,
            w >= 2,
            h >= 2,
            out@ == inner_rows(d@, w as int, k - 1),
        decreases h - k,
    {
        let len = d.len();
        proof {
            assert(d@.len() == len);
            lemma_texel_within(w as int, h as int, w - 1, k as int);
            lemma_texel_within(w as int, h as int, 1, k as int);
        }
        let start = (k * w + 1) * 4;
        let end = (k * w + w - 1) * 4;
        let ghost before = out@;
        let mut j = start;
        while j < end
            invariant
                start <= j <= end,
                end <= d@.len(),
                out@ == before + d@.subrange(start as int, j as int),
            decreases end - j,
        {
            out.push(d[j]);
            j += 1;
            proof {
                assert(before + d@.subrange(start as int, j as int) =~= (before + d@.subrange(
                    start as int,
                    j - 1,
                )).push(d@[j - 1]));
            }
        }
        k += 1;
    }
    out
}

impl Cache {
    /// Whether there is an id for one more image and a slot for one more texture.
    pub fn has_ids(&self) -> (r: bool)
        ensures
            r == (self.next_id() < usize::MAX && self.slot_count() < usize::MAX),
    {
        self.image_id_counter < usize::MAX && self.textures.len() < usize::MAX
    }

    /// Puts an image of `width` by `height` texels into the cache; gives where it was put, and
    /// its width and height. Refuses an image that the atlas could be asked to place in a node
    /// narrower than it, and one for which ids or texture slots have run out.
    pub fn load_image_texels(&mut self, width: u32, height: u32, data: Vec<u8>) -> (r: Result<(Placement, u32, u32), LoadError>)
        requires
            old(self).wf(),
        ensures
            final(self).wf(),
            image_loaded(*old(self), *final(self), r, width, height, data@),
    {
        if !self.fits_image(width, height) {
            return Err(LoadError::TooLarge);
        }
        if !self.has_ids() {
            return Err(LoadError::Exhausted);
        }
        Ok((self.insert_image(width, height, data), width, height))
    }

    /// Puts a nine-patch of `width` by `height` texels into the cache: the image inside its
    /// border goes into the cache, the marks on its top and left border tell where it stretches,
    /// those on its bottom and right border where content goes.
    pub fn load_patch_texels(&mut self, width: u32, height: u32, data: Vec<u8>) -> (r: Result<PatchPlacement, LoadError>)
        requires
            old(self).wf(),
            data@.len() >= width * height * 4,
        ensures
            final(self).wf(),
            patch_loaded(*old(self), *final(self), r, width, height, data@),
    {
        let (w, h, d) = (width, height, data);
        if w < 2 || h < 2 {
            return Err(LoadError::NoBorder);
        }
        let (iw, ih) = (w - 2, h - 2);
        if !self.fits_image(iw, ih) {
            return Err(LoadError::TooLarge);
        }
        if !self.has_ids() {
            return Err(LoadError::Exhausted);
        }
        let (wu, hu) = (w as usize, h as usize);
        let top = row_bar(&d, wu, hu, 0);
        let bottom = row_bar(&d, wu, hu, hu - 1);
        let left = column_bar(&d, wu, hu, 0);
        let right = column_bar(&d, wu, hu, wu - 1);
        let (h_stretch, h_content) = patch_bars(&top, &bottom);
        let (v_stretch, v_content) = patch_bars(&left, &right);
        let inner = crop_border(&d, wu, hu);
        let placement = self.insert_image(iw, ih, inner);
        Ok(PatchPlacement { placement, width: iw, height: ih, h_stretch, v_stretch, h_content, v_content })
    }

    /// Decodes an image from its encoded bytes and puts it into the cache with
    /// `load_image_texels`. Bytes that do not decode leave the cache as it was.
    pub fn load_image_bytes(&mut self, bytes: &[u8]) -> (r: Result<(Placement, u32, u32), LoadError>)
        requires
            old(self).wf(),
        ensures
            final(self).wf(),
            (r matches Err(e) && e == LoadError::Decode && *final(self) == *old(self)) || exists|
                w: u32,
                h: u32,
                d: Seq<u8>,
            | d.len() >= w * h * 4 && #[trigger] image_loaded(*old(self), *final(self), r, w, h, d),
    {
        match decode_rgba(bytes) {
            None => Err(LoadError::Decode),
            Some((w, h, d)) => {
                let ghost dv = d@;
                let r = self.load_image_texels(w, h, d);
                proof {
                    assert(image_loaded(*old(self), *self, r, w, h, dv));
                }
                r
            },
        }
    }

    /// Decodes a nine-patch from its encoded bytes and puts it into the cache with
    /// `load_patch_texels`. Bytes that do not decode leave the cache as it was.
    pub fn load_patch_bytes(&mut self, bytes: &[u8]) -> (r: Result<PatchPlacement, LoadError>)
        requires
            old(self).wf(),
        ensures
            final(self).wf(),
            (r matches Err(e) && e == LoadError::Decode && *final(self) == *old(self)) || exists|
                w: u32,
                h: u32,
                d: Seq<u8>,
            | d.len() >= w * h * 4 && #[trigger] patch_loaded(*old(self), *final(self), r, w, h, d),
    {
        match decode_rgba(bytes) {
            None => Err(LoadError::Decode),
            Some((w, h, d)) => {
                let ghost dv = d@;
                let r = self.load_patch_texels(w, h, d);
                proof {
                    assert(patch_loaded(*old(self), *self, r, w, h, dv));
                }
                r
            },
        }
    }
}

/// What `load_image_texels` makes of the cache `old` for an image of `w` by `h` texels `d`: an
/// error that changes nothing where the atlas could be asked to place it in a node narrower than
/// it, or where ids or slots have run out; else `insert_image`'s placement.
pub open spec fn image_loaded(
    old: Cache,
    new: Cache,
    r: Result<(Placement, u32, u32), LoadError>,
    w: u32,
    h: u32,
    d: Seq<u8>,
) -> bool {
    if !old.insert_ok(image_side(w, h)) {
        r matches Err(e) && e == LoadError::TooLarge && new == old
    } else if !(old.next_id() < usize::MAX && old.slot_count() < usize::MAX) {
        r matches Err(e) && e == LoadError::Exhausted && new == old
    } else {
        r matches Ok((p, pw, ph)) && pw == w && ph == h && image_placed(old, new, p, w, h, d)
    }
}

/// What `load_patch_texels` makes of the cache `old` for a nine-patch of `w` by `h` texels `d`:
/// an error that changes nothing where it has no room for its border, where the atlas could be
/// asked to place its inside in a node narrower than it, or where ids or slots have run out;
/// else the runs and extents of its border marks and `insert_image`'s placement of its inside.
pub open spec fn patch_loaded(
    old: Cache,
    new: Cache,
    r: Result<PatchPlacement, LoadError>,
    w: u32,
    h: u32,
    d: Seq<u8>,
) -> bool {
    if w < 2 || h < 2 {
        r matches Err(e) && e == LoadError::NoBorder && new == old
    } else if !old.insert_ok(image_side((w - 2) as u32, (h - 2) as u32)) {
        r matches Err(e) && e == LoadError::TooLarge && new == old
    } else if !(old.next_id() < usize::MAX && old.slot_count() < usize::MAX) {
        r matches Err(e) && e == LoadError::Exhausted && new == old
    } else {
        r matches Ok(p) && p.width == w - 2 && p.height == h - 2
            && is_runs(p.h_stretch@, row_alphas(d, w as int, 0))
            && is_extent(p.h_content, row_alphas(d, w as int, h - 1))
            && is_runs(p.v_stretch@, column_alphas(d, w as int, h as int, 0))
            && is_extent(p.v_content, column_alphas(d, w as int, h as int, w - 1))
            && image_placed(old, new, p.placement, p.width, p.height, inner_rows(d, w as int, h - 2))
    }
}

} // verus!
