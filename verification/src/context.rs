//! A bounded window over the lines most recently seen.

use std::collections::VecDeque;
use vstd::prelude::*;

verus! {

/// The lines after `item` came in: where the window was full, and held
/// anything, its oldest line makes room.
pub open spec fn pushed(lines: Seq<Seq<char>>, capacity: usize, item: Seq<char>) -> Seq<
    Seq<char>,
> {
    if lines.len() == capacity && lines.len() > 0 {
        lines.subrange(1, lines.len() as int).push(item)
    } else {
        lines.push(item)
    }
}

/// The last lines of a text, oldest first, up to a fixed number of them.
#[derive(Debug)]
pub struct Ctx {
    data: VecDeque<String>,
    capacity: usize,
}

impl View for Ctx {
    type V = Seq<Seq<char>>;

    closed spec fn view(&self) -> Seq<Seq<char>> {
        self.data@.map_values(|line: String| line@)
    }
}

impl Ctx {
    /// The number of lines at which the window is full.
    pub closed spec fn capacity(self) -> usize {
        self.capacity
    }

    /// An empty window for `capacity` lines.
    pub fn with_capacity(capacity: usize) -> (ctx: Ctx)
        ensures
            ctx@ == Seq::<Seq<char>>::empty(),
            ctx.capacity() == capacity,
    {
        let ctx = Ctx { data: VecDeque::new(), capacity };
        assert(ctx@ =~= Seq::<Seq<char>>::empty());
        ctx
    }

    /// The number of lines in the window.
    pub fn len(&self) -> (n: usize)
        ensures
            n == self@.len(),
    {
        self.data.len()
    }

    /// Takes a line in at the back. A full window first lets its oldest line
    /// go.
    pub fn push_back(&mut self, item: &str)
        ensures
            final(self).capacity() == old(self).capacity(),
            final(self)@ == pushed(old(self)@, old(self).capacity(), item@),
    {
        if self.len() == self.capacity {
            self.data.pop_front();
        }
        self.data.push_back(item.to_owned());
        assert(self@ =~= pushed(old(self)@, old(self).capacity(), item@));
    }

    /// The line at place `i`, counted from the oldest.
    pub fn get(&self, i: usize) -> (line: Option<&str>)
        ensures
            match line {
                Some(text) => i < self@.len() && text@ == self@[i as int],
                None => i >= self@.len(),
            },
    {
        if i < self.data.len() {
            Some(self.data[i].as_str())
        } else {
            None
        }
    }
}

} // verus!
