//! Entity store: a closed set of component kinds per entity, held in a
//! columnar table keyed by entity index. Destroyed slots are tombstoned and
//! never reused, so an identifier stays unique for the life of a world.

use vstd::prelude::*;
use crate::math::Vec2i;

verus! {

/// Mutually exclusive role tag, assigned at spawn and never changed.
#[derive(Clone, Copy, PartialEq, Eq, Debug)]
pub enum Role {
    Player,
    Enemy,
    Powerup,
}

/// Display colors the renderer distinguishes.
#[derive(Clone, Copy, PartialEq, Eq, Debug)]
pub enum ColorKind {
    White,
    Blue,
    Green,
    Red,
    TooBig,
}

/// Size and timer record of an entity that can eat or be eaten.
#[derive(Clone, Copy, PartialEq, Eq, Debug)]
pub struct Nommer {
    pub size: u32,
    pub i_frames: u32,
    pub powerup_remaining: u32,
}

/// Presentational component, attached lazily and never removed.
#[derive(Clone, Copy, PartialEq, Eq, Debug)]
pub struct Visual {
    pub color: ColorKind,
}

/// The closed set of components an entity may hold (each 0 or 1 times).
#[derive(Clone, Copy, PartialEq, Eq, Debug)]
pub struct Components {
    pub role: Option<Role>,
    pub pos: Option<Vec2i>,
    pub vel: Option<Vec2i>,
    pub nommer: Option<Nommer>,
    pub visual: Option<Visual>,
}

pub open spec fn no_components() -> Components {
    Components { role: None, pos: None, vel: None, nommer: None, visual: None }
}

pub struct World {
    pub slots: Vec<Option<Components>>,
}

impl World {
    /// The entity `i` exists (was created and not destroyed).
    pub open spec fn live(self, i: int) -> bool {
        0 <= i < self.slots@.len() && self.slots@[i] is Some
    }

    /// The components of a live entity.
    pub open spec fn c(self, i: int) -> Components {
        self.slots@[i]->0
    }

    pub open spec fn n_slots(self) -> int {
        self.slots@.len() as int
    }

    pub fn new() -> (w: World)
        ensures
            w.slots@.len() == 0,
    {
        World { slots: Vec::new() }
    }

    /// A fresh entity with zero components.
    pub fn create(&mut self) -> (id: usize)
        ensures
            final(self).slots@ == old(self).slots@.push(Some(no_components())),
            id == old(self).slots@.len(),
            final(self).live(id as int),
            final(self).c(id as int) == no_components(),
    {
        let id = self.slots.len();
        self.slots.push(Some(Components { role: None, pos: None, vel: None, nommer: None, visual: None }));
        id
    }

    /// Removes the entity and all its components; the id is never reused.
    pub fn destroy(&mut self, id: usize)
        requires
            old(self).live(id as int),
        ensures
            final(self).slots@ == old(self).slots@.update(id as int, None),
    {
        self.slots[id] = None;
    }

    pub fn get(&self, id: usize) -> (c: Components)
        requires
            self.live(id as int),
        ensures
            c == self.c(id as int),
    {
        let s = self.slots[id];
        s.unwrap()
    }

    pub fn set(&mut self, id: usize, c: Components)
        requires
            old(self).live(id as int),
        ensures
            final(self).slots@ == old(self).slots@.update(id as int, Some(c)),
    {
        self.slots[id] = Some(c);
    }

    pub fn len(&self) -> (n: usize)
        ensures
            n == self.slots@.len(),
    {
        self.slots.len()
    }

    pub fn attach_role(&mut self, id: usize, r: Role)
        requires
            old(self).live(id as int),
        ensures
            final(self).slots@ == old(self).slots@.update(
                id as int,
                Some(Components { role: Some(r), ..old(self).c(id as int) }),
            ),
    {
        let mut c = self.get(id);
        c.role = Some(r);
        self.set(id, c);
    }

    pub fn attach_pos(&mut self, id: usize, p: Vec2i)
        requires
            old(self).live(id as int),
        ensures
            final(self).slots@ == old(self).slots@.update(
                id as int,
                Some(Components { pos: Some(p), ..old(self).c(id as int) }),
            ),
    {
        let mut c = self.get(id);
        c.pos = Some(p);
        self.set(id, c);
    }

    pub fn attach_vel(&mut self, id: usize, v: Vec2i)
        requires
            old(self).live(id as int),
        ensures
            final(self).slots@ == old(self).slots@.update(
                id as int,
                Some(Components { vel: Some(v), ..old(self).c(id as int) }),
            ),
    {
        let mut c = self.get(id);
        c.vel = Some(v);
        self.set(id, c);
    }

    pub fn attach_nommer(&mut self, id: usize, n: Nommer)
        requires
            old(self).live(id as int),
        ensures
            final(self).slots@ == old(self).slots@.update(
                id as int,
                Some(Components { nommer: Some(n), ..old(self).c(id as int) }),
            ),
    {
        let mut c = self.get(id);
        c.nommer = Some(n);
        self.set(id, c);
    }

    pub fn attach_visual(&mut self, id: usize, v: Visual)
        requires
            old(self).live(id as int),
        ensures
            final(self).slots@ == old(self).slots@.update(
                id as int,
                Some(Components { visual: Some(v), ..old(self).c(id as int) }),
            ),
    {
        let mut c = self.get(id);
        c.visual = Some(v);
        self.set(id, c);
    }

    pub fn has_visual(&self, id: usize) -> (b: bool)
        requires
            self.live(id as int),
        ensures
            b == (self.c(id as int).visual is Some),
    {
        let c = self.get(id);
        c.visual.is_some()
    }

    /// The query mechanism: every live entity id, each exactly once, in
    /// increasing order — a read-only snapshot to iterate over.
    pub fn live_ids(&self) -> (ids: Vec<usize>)
        ensures
            forall|j: int, k: int| 0 <= j < k < ids@.len() ==> ids@[j] < ids@[k],
            forall|j: int| 0 <= j < ids@.len() ==> self.live(#[trigger] ids@[j] as int),
            forall|i: int|
                0 <= i < self.slots@.len() && #[trigger] self.live(i) ==> exists|j: int|
                    0 <= j < ids@.len() && ids@[j] as int == i,
    {
        let mut ids: Vec<usize> = Vec::new();
        let n = self.slots.len();
        let mut i: usize = 0;
        while i < n
            invariant
                n == self.slots@.len(),
                i <= n,
                forall|j: int, k: int| 0 <= j < k < ids@.len() ==> ids@[j] < ids@[k],
                forall|j: int| 0 <= j < ids@.len() ==> self.live(#[trigger] ids@[j] as int),
                forall|j: int| 0 <= j < ids@.len() ==> ids@[j] < i,
                forall|m: int|
                    0 <= m < i && #[trigger] self.live(m) ==> exists|j: int|
                        0 <= j < ids@.len() && ids@[j] as int == m,
            decreases n - i,
        {
            if self.slots[i].is_some() {
                let ghost prev = ids@;
                ids.push(i);
                proof {
                    assert forall|m: int| 0 <= m < i + 1 && #[trigger] self.live(m) implies
                        exists|j: int| 0 <= j < ids@.len() && ids@[j] as int == m by {
                        if m == i as int {
                            assert(ids@[prev.len() as int] as int == m);
                        } else {
                            let j = choose|j: int| 0 <= j < prev.len() && prev[j] as int == m;
                            assert(ids@[j] as int == m);
                        }
                    }
                }
            }
            i = i + 1;
        }
        ids
    }
}

} // verus!
