use std::collections::hash_map::Entry;
use std::collections::HashMap;
use vstd::prelude::*;

verus! {

/// The windows that the owner thread holds, each under the id that the windowing system
/// gave it.
pub struct WindowRegistry<W> {
    windows: HashMap<u32, W>,
}

impl<W> View for WindowRegistry<W> {
    type V = Map<u32, W>;

    closed spec fn view(&self) -> Map<u32, W> {
        self.windows@
    }
}

impl<W> WindowRegistry<W> {
    /// A registry without windows.
    pub fn new() -> (registry: Self)
        ensures
            registry@ == Map::<u32, W>::empty(),
    {
        WindowRegistry { windows: HashMap::new() }
    }

    /// The number of windows held.
    pub fn len(&self) -> (n: usize)
        ensures
            n == self@.len(),
    {
        self.windows.len()
    }

    /// Whether a window is held under `id`.
    pub fn contains(&self, id: u32) -> (held: bool)
        ensures
            held == self@.contains_key(id),
    {
        self.windows.contains_key(&id)
    }

    /// The window held under `id`.
    pub fn get(&self, id: u32) -> (window: Option<&W>)
        ensures
            window == if self@.contains_key(id) {
                Some(&self@[id])
            } else {
                None
            },
    {
        self.windows.get(&id)
    }

    /// The window held under `id`, to draw on or change.
    pub fn get_mut(&mut self, id: u32) -> (window: Option<&mut W>)
        ensures
            match window {
                Some(w) => old(self)@.contains_key(id) && *w == old(self)@[id] && final(self)@
                    == old(self)@.insert(id, *final(w)),
                None => !old(self)@.contains_key(id) && final(self)@ == old(self)@,
            },
    {
        match self.windows.entry(id) {
            Entry::Occupied(held) => Some(held.into_mut()),
            Entry::Vacant(_) => None,
        }
    }

    /// Takes in what a window factory produced and gives the reply owed to the caller:
    /// a window enters the registry under its id, which is the reply; a factory that
    /// declined changes nothing and the reply is `None`.
    pub fn register(&mut self, created: Option<(u32, W)>) -> (reply: Option<u32>)
        ensures
            match created {
                Some((id, window)) => reply == Some(id) && final(self)@ == old(self)@.insert(
                    id,
                    window,
                ),
                None => reply.is_none() && final(self)@ == old(self)@,
            },
    {
        match created {
            Some((id, window)) => {
                self.windows.insert(id, window);
                Some(id)
            },
            None => None,
        }
    }
}

} // verus!
