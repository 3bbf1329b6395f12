//! Files the desktop asked the reader to open, waiting to be picked up.

use vstd::prelude::*;

verus! {

/// The character sequences of a list of strings.
pub open spec fn strings_view(v: Seq<String>) -> Seq<Seq<char>> {
    v.map_values(|s: String| s@)
}

/// Paths handed over by the desktop that the reader has not opened yet, oldest first.
pub struct PendingPaths {
    paths: Vec<String>,
}

impl View for PendingPaths {
    type V = Seq<Seq<char>>;

    closed spec fn view(&self) -> Seq<Seq<char>> {
        strings_view(self.paths@)
    }
}

impl PendingPaths {
    /// An empty queue.
    pub fn new() -> (q: PendingPaths)
        ensures
            q@ == Seq::<Seq<char>>::empty(),
    {
        let q = PendingPaths { paths: Vec::new() };
        proof {
            assert(q@ =~= Seq::<Seq<char>>::empty());
        }
        q
    }
}

/// Queues a path to be opened.
pub fn push_path(pending: &mut PendingPaths, path: String)
    ensures
        final(pending)@ == old(pending)@.push(path@),
{
    pending.paths.push(path);
    proof {
        assert(pending@ =~= old(pending)@.push(path@));
    }
}

/// Hands out every queued path, oldest first, and leaves the queue empty.
pub fn take_pending(pending: &mut PendingPaths) -> (taken: Vec<String>)
    ensures
        strings_view(taken@) == old(pending)@,
        final(pending)@ == Seq::<Seq<char>>::empty(),
{
    let mut taken: Vec<String> = Vec::new();
    std::mem::swap(&mut taken, &mut pending.paths);
    proof {
        assert(pending@ =~= Seq::<Seq<char>>::empty());
    }
    taken
}

} // verus!
