//! What a viewer of a forest keeps between frames: which row is selected, and
//! which things are open.
//!
//! A thing is known by its handle: its place in the walk through the forest,
//! root by root, each thing before the things below it, counted from zero.

use crate::thing::Thing;
use crate::walk::{forest_walk, walk_all, Visit};
use std::collections::HashMap;
use vstd::prelude::*;

verus! {

broadcast use vstd::std_specs::hash::group_hash_axioms;

/// The state in which a viewer starts: each thing has the place of its visit
/// as its handle, and is open where it is a root.
pub open spec fn initial_state(visits: Seq<Visit>) -> Map<usize, bool> {
    Map::new(
        |handle: usize| handle < visits.len(),
        |handle: usize| visits[handle as int].depth == 0,
    )
}

/// The row that is selected after a move by `value` rows: no row before the
/// first, which is row 1, and none behind the last of the `num_visible` rows.
pub open spec fn moved_index(select_index: int, value: int, num_visible: int) -> int {
    let moved = if select_index + value > 1 {
        select_index + value
    } else {
        1
    };
    if moved < num_visible {
        moved
    } else {
        num_visible
    }
}

/// Gives `thing` and every thing below it the next handles, in the order of
/// the walk, and marks `thing` as `open` and the things below it as closed.
fn mark(
    thing: &Thing,
    open: bool,
    state: &mut HashMap<usize, bool>,
    Ghost(before): Ghost<Seq<Visit>>,
    Ghost(parent): Ghost<Option<Thing>>,
    Ghost(depth): Ghost<nat>,
)
    requires
        open == (depth == 0),
        old(state)@ == initial_state(before),
        old(state)@.len() == before.len(),
    ensures
        final(state)@ == initial_state(before + thing.walk(parent, depth)),
        final(state)@.len() == before.len() + thing.walk(parent, depth).len(),
    decreases thing,
{
    let ghost here = seq![Visit { thing: *thing, parent, depth }];
    let handle = state.len();
    state.insert(handle, open);
    proof {
        assert(state@ =~= initial_state(before + here));
    }
    mark_all(
        &thing.things.values,
        false,
        state,
        Ghost(before + here),
        Ghost(Some(*thing)),
        Ghost(depth + 1),
    );
    proof {
        let below = walk_all(thing.children(), thing.children().len(), Some(*thing), depth + 1);
        assert(before + here + below =~= before + thing.walk(parent, depth));
    }
}

/// Gives each of `things`, with every thing below it, the next handles, in the
/// order of the walk, and marks each of `things` as `open` and the things
/// below them as closed.
fn mark_all(
    things: &Vec<Thing>,
    open: bool,
    state: &mut HashMap<usize, bool>,
    Ghost(before): Ghost<Seq<Visit>>,
    Ghost(parent): Ghost<Option<Thing>>,
    Ghost(depth): Ghost<nat>,
)
    requires
        open == (depth == 0),
        old(state)@ == initial_state(before),
        old(state)@.len() == before.len(),
    ensures
        final(state)@ == initial_state(before + walk_all(things@, things@.len(), parent, depth)),
        final(state)@.len() == before.len() + walk_all(
            things@,
            things@.len(),
            parent,
            depth,
        ).len(),
    decreases things,
{
    let n = things.len();
    let mut i: usize = 0;
    proof {
        assert(before + walk_all(things@, 0, parent, depth) =~= before);
    }
    while i < n
        invariant
            0 <= i <= n,
            n == things@.len(),
            open == (depth == 0),
            state@ == initial_state(before + walk_all(things@, i as nat, parent, depth)),
            state@.len() == before.len() + walk_all(things@, i as nat, parent, depth).len(),
        decreases n - i,
    {
        let ghost done = before + walk_all(things@, i as nat, parent, depth);
        mark(&things[i], open, state, Ghost(done), Ghost(parent), Ghost(depth));
        proof {
            assert(done + things@[i as int].walk(parent, depth) =~= before + walk_all(
                things@,
                (i + 1) as nat,
                parent,
                depth,
            ));
        }
        i += 1;
    }
}

/// The state of a viewer.
pub struct FdlViewState {
    /// The selected row, counted from 1.
    pub select_index: usize,
    /// Whether each thing is open, by handle.
    pub thing_state: HashMap<usize, bool>,
}

impl FdlViewState {
    /// The state in which a viewer of `things` starts: the first row is
    /// selected, the roots are open and every other thing is closed.
    pub fn new(things: &Vec<Thing>) -> (state: FdlViewState)
        ensures
            state.select_index == 1,
            state.thing_state@ == initial_state(forest_walk(things@)),
    {
        let mut thing_state: HashMap<usize, bool> = HashMap::new();
        proof {
            assert(thing_state@ =~= initial_state(Seq::empty()));
            assert(Seq::<Visit>::empty() + forest_walk(things@) =~= forest_walk(things@));
        }
        mark_all(things, true, &mut thing_state, Ghost(Seq::empty()), Ghost(None), Ghost(0));
        FdlViewState { select_index: 1, thing_state }
    }

    /// Whether the thing with handle `key` is open. A thing that the state
    /// does not know is closed.
    pub fn is_open(&self, key: usize) -> (open: bool)
        ensures
            open == (self.thing_state@.contains_key(key) && self.thing_state@[key]),
    {
        match self.thing_state.get(&key) {
            Some(open) => *open,
            None => false,
        }
    }

    /// Opens the thing with handle `key`.
    pub fn open_thing(&mut self, key: usize)
        ensures
            final(self).select_index == old(self).select_index,
            final(self).thing_state@ == old(self).thing_state@.insert(key, true),
    {
        self.thing_state.insert(key, true);
    }

    /// Closes the thing with handle `key`.
    pub fn close_thing(&mut self, key: usize)
        ensures
            final(self).select_index == old(self).select_index,
            final(self).thing_state@ == old(self).thing_state@.insert(key, false),
    {
        self.thing_state.insert(key, false);
    }

    /// Moves the selection by `value` rows, within the `num_visible` rows that
    /// are shown.
    pub fn update_index(&mut self, value: i32, num_visible: usize)
        requires
            old(self).select_index <= i32::MAX,
            i32::MIN <= old(self).select_index + value <= i32::MAX,
        ensures
            final(self).select_index == moved_index(
                old(self).select_index as int,
                value as int,
                num_visible as int,
            ),
            final(self).thing_state == old(self).thing_state,
    {
        let new_index = self.select_index as i32 + value;
        let new_index = if new_index > 1 {
            new_index as usize
        } else {
            1
        };
        let new_index = if new_index < num_visible {
            new_index
        } else {
            num_visible
        };
        self.select_index = new_index;
    }
}

} // verus!
