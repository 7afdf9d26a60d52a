//! Scratch buffers that queries reuse.

use std::collections::VecDeque;

use vstd::prelude::*;

verus! {

/// Scratch buffers for queries. A buffer of marks belongs to a generation: an
/// entity is marked when its entry equals the current generation, so a query
/// clears the marks by taking the next generation.
pub struct QueryContext {
    pub seen_set: Vec<u32>,
    pub seen_gen: u32,
    pub bfs_visited: Vec<u32>,
    pub bfs_gen: u32,
    pub queue_buf: VecDeque<(u32, u32)>,
    pub spatial_buf: Vec<u32>,
}

/// The generation after `g`; it starts over at 0.
pub open spec fn next_generation(g: u32) -> u32 {
    if g == u32::MAX {
        0
    } else {
        (g + 1) as u32
    }
}

/// The marks, extended by zeros to at least `n` entries.
pub open spec fn grown(marks: Seq<u32>, n: int) -> Seq<u32> {
    if marks.len() < n {
        marks + Seq::new((n - marks.len()) as nat, |i: int| 0u32)
    } else {
        marks
    }
}

/// Whether no mark is newer than the generation, and the next one is new too.
pub open spec fn marks_below(marks: Seq<u32>, generation: u32) -> bool {
    &&& generation < u32::MAX
    &&& forall|j: int| 0 <= j < marks.len() ==> #[trigger] marks[j] <= generation
}

impl QueryContext {
    /// Empty buffers.
    pub fn new() -> (r: Self)
        ensures
            r.seen_set@ == Seq::<u32>::empty(),
            r.seen_gen == 0,
            r.bfs_visited@ == Seq::<u32>::empty(),
            r.bfs_gen == 0,
            r.queue_buf@ == Seq::<(u32, u32)>::empty(),
            r.spatial_buf@ == Seq::<u32>::empty(),
    {
        QueryContext {
            seen_set: Vec::new(),
            seen_gen: 0,
            bfs_visited: Vec::new(),
            bfs_gen: 0,
            queue_buf: VecDeque::new(),
            spatial_buf: Vec::new(),
        }
    }
}

impl Default for QueryContext {
    fn default() -> (r: Self)
        ensures
            r.seen_set@ == Seq::<u32>::empty(),
            r.seen_gen == 0,
            r.bfs_visited@ == Seq::<u32>::empty(),
            r.bfs_gen == 0,
            r.queue_buf@ == Seq::<(u32, u32)>::empty(),
            r.spatial_buf@ == Seq::<u32>::empty(),
    {
        QueryContext::new()
    }
}

/// Extends the marks by zeros to at least `n` entries.
pub fn grow_marks(marks: &mut Vec<u32>, n: usize)
    ensures
        final(marks)@ == grown(old(marks)@, n as int),
{
    if marks.len() < n {
        marks.resize(n, 0);
        assert(marks@ =~= grown(old(marks)@, n as int));
    }
}

} // verus!
