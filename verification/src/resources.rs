//! The images and nine-patches that a stylesheet's backgrounds name, each loaded into the cache
//! once: a url that was loaded is not read again.
//!
//! Reading the bytes of a url is the caller's work: `needs_read` tells which url a background
//! still needs, and `load` puts the bytes read for it into the cache.
use vstd::prelude::*;

use crate::cache::{image_loaded, patch_loaded, Cache, LoadError, PatchPlacement, Placement};
use crate::style::parse::{BackgroundValue, BackgroundValueV};
use crate::style::str_eq;

verus! {

/// The images and nine-patches loaded so far, by url.
pub struct Resources {
    /// Each image with its url, where it was put, and its width and height.
    pub images: Vec<(String, Placement, u32, u32)>,
    /// Each nine-patch with its url and where it was put.
    pub patches: Vec<(String, PatchPlacement)>,
}

/// The urls of the images loaded.
pub open spec fn image_urls(r: Resources) -> Seq<Seq<char>> {
    r.images@.map_values(|e: (String, Placement, u32, u32)| e.0@)
}

/// The urls of the nine-patches loaded.
pub open spec fn patch_urls(r: Resources) -> Seq<Seq<char>> {
    r.patches@.map_values(|e: (String, PatchPlacement)| e.0@)
}

/// The url that background `v` still needs read, with whether it names a nine-patch: none for a
/// background without a url, or whose url was loaded as that kind already.
pub open spec fn read_needed(r: Resources, v: BackgroundValueV) -> Option<(Seq<char>, bool)> {
    match v {
        BackgroundValueV::Image(p, _) => if image_urls(r).contains(p) {
            None
        } else {
            Some((p, false))
        },
        BackgroundValueV::Patch(p, _) => if patch_urls(r).contains(p) {
            None
        } else {
            Some((p, true))
        },
        _ => None,
    }
}

/// Whether the cache `old` became `new` by loading a nine-patch of some size and texels, with the
/// outcome `p`.
pub open spec fn patch_entry_loaded(old: Cache, new: Cache, p: PatchPlacement) -> bool {
    exists|w: u32, h: u32, d: Seq<u8>|
        d.len() >= w * h * 4 && #[trigger] patch_loaded(old, new, Ok::<PatchPlacement, LoadError>(p), w, h, d)
}

/// Whether the cache `old` became `new` by loading an image of some size and texels, recorded as
/// `e`.
pub open spec fn image_entry_loaded(old: Cache, new: Cache, e: (String, Placement, u32, u32)) -> bool {
    exists|w: u32, h: u32, d: Seq<u8>|
        d.len() >= w * h * 4 && #[trigger] image_loaded(
            old,
            new,
            Ok::<(Placement, u32, u32), LoadError>((e.1, e.2, e.3)),
            w,
            h,
            d,
        )
}

impl Resources {
    /// Nothing loaded.
    pub fn new() -> (r: Self)
        ensures
            image_urls(r) == Seq::<Seq<char>>::empty(),
            patch_urls(r) == Seq::<Seq<char>>::empty(),
    {
        let r = Resources { images: Vec::new(), patches: Vec::new() };
        proof {
            assert(image_urls(r) =~= Seq::<Seq<char>>::empty());
            assert(patch_urls(r) =~= Seq::<Seq<char>>::empty());
        }
        r
    }

    /// The position of the image loaded from `url`, if it was.
    pub fn image_index(&self, url: &str) -> (r: Option<usize>)
        ensures
            match r {
                Some(i) => i < image_urls(*self).len() && image_urls(*self)[i as int] == url@,
                None => !image_urls(*self).contains(url@),
            },
    {
        let mut i: usize = 0;
        while i < self.images.len()
            invariant
                i <= self.images@.len(),
                forall|j: int| 0 <= j < i ==> image_urls(*self)[j] != url@,
            decreases self.images@.len() - i,
        {
            if str_eq(self.images[i].0.as_str(), url) {
                return Some(i);
            }
            i += 1;
        }
        None
    }

    /// The position of the nine-patch loaded from `url`, if it was.
    pub fn patch_index(&self, url: &str) -> (r: Option<usize>)
        ensures
            match r {
                Some(i) => i < patch_urls(*self).len() && patch_urls(*self)[i as int] == url@,
                None => !patch_urls(*self).contains(url@),
            },
    {
        let mut i: usize = 0;
        while i < self.patches.len()
            invariant
                i <= self.patches@.len(),
                forall|j: int| 0 <= j < i ==> patch_urls(*self)[j] != url@,
            decreases self.patches@.len() - i,
        {
            if str_eq(self.patches[i].0.as_str(), url) {
                return Some(i);
            }
            i += 1;
        }
        None
    }

    /// The url that a background still needs read, with whether it names a nine-patch; see
    /// `read_needed`.
    pub fn needs_read(&self, value: &BackgroundValue) -> (r: Option<(String, bool)>)
        ensures
            match read_needed(*self, value@) {
                Some((u, p)) => r matches Some((x, q)) && x@ == u && q == p,
                None => r is None,
            },
    {
        match value {
            BackgroundValue::Image(url, _) => match self.image_index(url.as_str()) {
                Some(_) => None,
                None => Some((url.clone(), false)),
            },
            BackgroundValue::Patch(url, _) => match self.patch_index(url.as_str()) {
                Some(_) => None,
                None => Some((url.clone(), true)),
            },
            _ => None,
        }
    }

    /// Loads the bytes read from `url` into the cache, as a nine-patch when `patch` is set and as
    /// an image otherwise, and records it under `url`; gives its position among those of its
    /// kind. Bytes that do not decode, or an image that the cache refuses, leave everything as it
    /// was.
    pub fn load(&mut self, cache: &mut Cache, url: String, patch: bool, bytes: &[u8]) -> (r: Result<usize, LoadError>)
        requires
            old(cache).wf(),
            !patch ==> !image_urls(*old(self)).contains(url@),
            patch ==> !patch_urls(*old(self)).contains(url@),
        ensures
            final(cache).wf(),
            patch ==> (r matches Ok(i) ==> i == patch_urls(*old(self)).len() && patch_urls(*final(self))
                == patch_urls(*old(self)).push(url@) && final(self).images == old(self).images),
            patch ==> (r matches Ok(i) ==> patch_entry_loaded(*old(cache), *final(cache), final(self).patches@[i as int].1)),
            !patch ==> (r matches Ok(i) ==> i == image_urls(*old(self)).len() && image_urls(*final(self))
                == image_urls(*old(self)).push(url@) && final(self).patches == old(self).patches),
            !patch ==> (r matches Ok(i) ==> image_entry_loaded(*old(cache), *final(cache), final(self).images@[i as int])),
            r is Err ==> *final(self) == *old(self),
    {
        if patch {
            let res = cache.load_patch_bytes(bytes);
            let ghost rv = res;
            match res {
                Err(e) => Err(e),
                Ok(p) => {
                    let ghost pv = p;
                    let i = self.patches.len();
                    self.patches.push((url, p));
                    proof {
                        assert(patch_urls(*self) =~= patch_urls(*old(self)).push(url@));
                        assert(self.patches@[i as int] == (url, pv));
                        let (w, h, d) = choose|w: u32, h: u32, d: Seq<u8>|
                            d.len() >= w * h * 4 && #[trigger] patch_loaded(*old(cache), *cache, rv, w, h, d);
                        assert(patch_loaded(*old(cache), *cache, Ok::<PatchPlacement, LoadError>(self.patches@[i as int].1), w, h, d));
                        assert(patch_entry_loaded(*old(cache), *cache, self.patches@[i as int].1));
                    }
                    Ok(i)
                },
            }
        } else {
            let res = cache.load_image_bytes(bytes);
            let ghost rv = res;
            match res {
                Err(e) => Err(e),
                Ok((p, w, h)) => {
                    let ghost pv = p;
                    let i = self.images.len();
                    self.images.push((url, p, w, h));
                    proof {
                        assert(image_urls(*self) =~= image_urls(*old(self)).push(url@));
                        assert(self.images@[i as int] == (url, pv, w, h));
                        let (w0, h0, d) = choose|w0: u32, h0: u32, d: Seq<u8>|
                            d.len() >= w0 * h0 * 4 && #[trigger] image_loaded(*old(cache), *cache, rv, w0, h0, d);
                        assert(image_loaded(
                            *old(cache),
                            *cache,
                            Ok::<(Placement, u32, u32), LoadError>((self.images@[i as int].1, self.images@[i as int].2, self.images@[i as int].3)),
                            w0,
                            h0,
                            d,
                        ));
                        assert(image_entry_loaded(*old(cache), *cache, self.images@[i as int]));
                    }
                    Ok(i)
                },
            }
        }
    }
}

/// A url loaded is not read again: once `load` has recorded it, a background naming it as that
/// kind needs nothing read.
pub proof fn lemma_loaded_not_read(before: Resources, after: Resources, url: Seq<char>, patch: bool, v: BackgroundValueV)
    requires
        patch ==> patch_urls(after) == patch_urls(before).push(url),
        !patch ==> image_urls(after) == image_urls(before).push(url),
        v matches BackgroundValueV::Image(p, _) ==> p == url && !patch,
        v matches BackgroundValueV::Patch(p, _) ==> p == url && patch,
    ensures
        read_needed(after, v) is None,
{
    let n = if patch { patch_urls(before).len() } else { image_urls(before).len() };
    if patch {
        assert(patch_urls(after)[n as int] == url);
    } else {
        assert(image_urls(after)[n as int] == url);
    }
}

} // verus!
