//! The surface registry: an ordered, growable list of drawable surfaces.
//!
//! A surface is known to the core by its place in the list alone. The host
//! keeps the real drawing target for each place and binds it before the first
//! redraw of that place. Nothing is ever removed or moved.

use vstd::prelude::*;

verus! {

/// A place in the registry that stands for one drawable surface.
#[derive(Clone, Copy, Debug, PartialEq, Eq, Structural)]
pub struct SurfaceHandle {
    /// The place of the surface in the registry, counted from zero.
    pub index: usize,
    /// The width of the surface in pixels.
    pub width: u32,
    /// The height of the surface in pixels.
    pub height: u32,
}

/// The handle that the registry makes for place `index`.
pub open spec fn placeholder(index: int, width: u32, height: u32) -> SurfaceHandle {
    SurfaceHandle { index: index as usize, width, height }
}

/// The handles for `n` places in a row, the first of them place `from`.
pub open spec fn placeholders(from: int, n: int, width: u32, height: u32) -> Seq<SurfaceHandle> {
    Seq::new(n as nat, |k: int| placeholder(from + k, width, height))
}

/// The surfaces of the harness, in the order in which they were added.
pub struct SurfaceRegistry {
    width: u32,
    height: u32,
    slots: Vec<SurfaceHandle>,
}

impl View for SurfaceRegistry {
    type V = Seq<SurfaceHandle>;

    closed spec fn view(&self) -> Seq<SurfaceHandle> {
        self.slots@
    }
}

impl SurfaceRegistry {
    #[verifier::type_invariant]
    spec fn well_formed(self) -> bool {
        forall|i: int|
            0 <= i < self.slots@.len() ==> #[trigger] self.slots@[i] == placeholder(
                i,
                self.width,
                self.height,
            )
    }

    /// The width that every surface of this registry has.
    pub closed spec fn surface_width(self) -> u32 {
        self.width
    }

    /// The height that every surface of this registry has.
    pub closed spec fn surface_height(self) -> u32 {
        self.height
    }

    /// An empty registry whose surfaces will be `width` by `height` pixels.
    pub fn new(width: u32, height: u32) -> (registry: Self)
        ensures
            registry@ == Seq::<SurfaceHandle>::empty(),
            registry.surface_width() == width,
            registry.surface_height() == height,
    {
        SurfaceRegistry { width, height, slots: Vec::new() }
    }

    /// The number of surfaces.
    pub fn count(&self) -> (n: usize)
        ensures
            n == self@.len(),
    {
        self.slots.len()
    }

    /// The width in pixels of every surface.
    pub fn width(&self) -> (w: u32)
        ensures
            w == self.surface_width(),
    {
        self.width
    }

    /// The height in pixels of every surface.
    pub fn height(&self) -> (h: u32)
        ensures
            h == self.surface_height(),
    {
        self.height
    }

    /// The handle at place `index`, if the registry has that many surfaces.
    /// A handle always names the place it stands at.
    pub fn get(&self, index: usize) -> (handle: Option<SurfaceHandle>)
        ensures
            handle == if index < self@.len() {
                Some(placeholder(index as int, self.surface_width(), self.surface_height()))
            } else {
                None::<SurfaceHandle>
            },
            index < self@.len() ==> handle == Some(self@[index as int]),
    {
        proof {
            use_type_invariant(self);
        }
        if index < self.slots.len() {
            Some(self.slots[index])
        } else {
            None
        }
    }

    /// Appends one surface. The surfaces that were there keep their places.
    pub fn add_one(&mut self)
        ensures
            final(self)@ == old(self)@.push(
                placeholder(
                    old(self)@.len() as int,
                    old(self).surface_width(),
                    old(self).surface_height(),
                ),
            ),
            final(self).surface_width() == old(self).surface_width(),
            final(self).surface_height() == old(self).surface_height(),
    {
        proof {
            use_type_invariant(&*self);
        }
        let mut slots: Vec<SurfaceHandle> = Vec::new();
        std::mem::swap(&mut slots, &mut self.slots);
        let index: usize = slots.len();
        slots.push(SurfaceHandle { index, width: self.width, height: self.height });
        self.slots = slots;
    }

    /// Appends `n` surfaces. The surfaces that were there keep their places,
    /// and the new ones follow them in the order of their making.
    pub fn add_n(&mut self, n: usize)
        ensures
            final(self)@ == old(self)@ + placeholders(
                old(self)@.len() as int,
                n as int,
                old(self).surface_width(),
                old(self).surface_height(),
            ),
            final(self)@.len() == old(self)@.len() + n,
            forall|i: int| 0 <= i < old(self)@.len() ==> final(self)@[i] == old(self)@[i],
            final(self).surface_width() == old(self).surface_width(),
            final(self).surface_height() == old(self).surface_height(),
    {
        proof {
            use_type_invariant(&*self);
        }
        let mut slots: Vec<SurfaceHandle> = Vec::new();
        std::mem::swap(&mut slots, &mut self.slots);
        let ghost before = slots@;
        let width: u32 = self.width;
        let height: u32 = self.height;
        let mut added: usize = 0;
        while added < n
            invariant
                added <= n,
                slots@ == before + placeholders(before.len() as int, added as int, width, height),
                forall|i: int|
                    0 <= i < before.len() ==> #[trigger] before[i] == placeholder(i, width, height),
            decreases n - added,
        {
            let index: usize = slots.len();
            slots.push(SurfaceHandle { index, width, height });
            added = added + 1;
        }
        self.slots = slots;
    }

    /// Calls `f` once for every surface, in the order in which the surfaces
    /// were added, with the place and the handle of each, and hands back what
    /// the calls returned, in that order.
    pub fn for_each<U, F: Fn(usize, SurfaceHandle) -> U>(&self, f: F) -> (results: Vec<U>)
        requires
            forall|i: usize| i < self@.len() ==> call_requires(f, (i, #[trigger] self@[i as int])),
        ensures
            results@.len() == self@.len(),
            forall|i: usize|
                i < self@.len() ==> call_ensures(f, (i, self@[i as int]), #[trigger] results@[i as int]),
    {
        let mut results: Vec<U> = Vec::new();
        let mut i: usize = 0;
        while i < self.slots.len()
            invariant
                i <= self@.len(),
                self@ == self.slots@,
                results@.len() == i,
                forall|k: usize|
                    k < self@.len() ==> call_requires(f, (k, #[trigger] self@[k as int])),
                forall|k: usize|
                    k < i ==> call_ensures(f, (k, self@[k as int]), #[trigger] results@[k as int]),
            decreases self@.len() - i,
        {
            let value = f(i, self.slots[i]);
            results.push(value);
            i = i + 1;
        }
        results
    }
}

} // verus!
