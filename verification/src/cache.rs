//! Decisions about rendered pages: the resolution a page is rendered at, and
//! which cached renderings to drop when the cache is over its capacity.

use vstd::prelude::*;
use crate::enhance::Enhance;
use vstd::relations::injective_on;
use vstd::set_lib::{lemma_int_range, lemma_len_subset, lemma_map_size, lemma_subset_equality, set_int_range};

verus! {

/// How many renderings the cache keeps.
pub const CACHE_CAP: usize = 24;

/// Rendering widths are multiples of this step ...
pub const BUCKET_STEP: i32 = 256;

/// ... and lie between these bounds (in pixels).
pub const BUCKET_MIN: i32 = 512;

pub const BUCKET_MAX: i32 = 3000;

/// The rendering width for a page shown `width` pixels wide: rounded up to a
/// multiple of `BUCKET_STEP`, then clamped to `[BUCKET_MIN, BUCKET_MAX]`.
pub open spec fn bucket_of(width: int) -> int {
    let rounded = ((width + BUCKET_STEP - 1) / BUCKET_STEP as int) * BUCKET_STEP;
    if rounded < BUCKET_MIN {
        BUCKET_MIN as int
    } else if rounded > BUCKET_MAX {
        BUCKET_MAX as int
    } else {
        rounded
    }
}

/// The rendering width for a page shown `width` (whole, non-negative) pixels wide.
pub fn bucket_width(width: i32) -> (r: i32)
    requires
        0 <= width <= i32::MAX - BUCKET_STEP,
    ensures
        r == bucket_of(width as int),
{
    let rounded = ((width + BUCKET_STEP - 1) / BUCKET_STEP) * BUCKET_STEP;
    if rounded < BUCKET_MIN {
        BUCKET_MIN
    } else if rounded > BUCKET_MAX {
        BUCKET_MAX
    } else {
        rounded
    }
}

/// A page is rendered at least as wide as it is shown, up to `BUCKET_MAX`,
/// and never less than `BUCKET_MIN` nor more than `BUCKET_MAX` wide.
pub proof fn lemma_bucket_covers_width(width: int)
    requires
        0 <= width,
    ensures
        BUCKET_MIN <= bucket_of(width) <= BUCKET_MAX,
        width <= BUCKET_MAX ==> width <= bucket_of(width),
{
    let q = (width + BUCKET_STEP - 1) / BUCKET_STEP as int;
    assert(q * 256 >= width) by (nonlinear_arith)
        requires
            q == (width + 255) / 256,
            0 <= width,
    ;
}

/// How far page `page` is from page `current`.
pub open spec fn page_distance(page: int, current: int) -> int {
    if page >= current {
        page - current
    } else {
        current - page
    }
}

/// Whether entry `j` of `pages` comes before entry `i` when the entries are
/// ordered by distance from `current`, equal distances keeping their order.
pub open spec fn sorts_before(pages: Seq<usize>, current: int, j: int, i: int) -> bool {
    let dj = page_distance(pages[j] as int, current);
    let di = page_distance(pages[i] as int, current);
    dj < di || (dj == di && j < i)
}

/// How many of the first `n` entries come before entry `i` in that order.
pub open spec fn rank_below(pages: Seq<usize>, current: int, i: int, n: int) -> nat
    decreases n,
{
    if n <= 0 {
        0
    } else {
        rank_below(pages, current, i, n - 1) + if sorts_before(pages, current, n - 1, i) {
            1nat
        } else {
            0nat
        }
    }
}

/// The position of entry `i` once all entries are ordered by distance from `current`.
pub open spec fn rank_of(pages: Seq<usize>, current: int, i: int) -> nat {
    rank_below(pages, current, i, pages.len() as int)
}

/// For the pages of the cached renderings (in any order), which ones to drop:
/// once the entries are ordered by distance from `current` (a stable order),
/// every entry after the first `cap` is dropped.
pub fn evict_selection(pages: &Vec<usize>, current: usize, cap: usize) -> (evict: Vec<bool>)
    ensures
        evict@.len() == pages@.len(),
        forall|i: int|
            0 <= i < pages@.len() ==> evict@[i] == (rank_of(pages@, current as int, i) >= cap),
{
    let n = pages.len();
    let mut evict: Vec<bool> = Vec::new();
    let mut i: usize = 0;
    while i < n
        invariant
            n == pages@.len(),
            i <= n,
            evict@.len() == i,
            forall|k: int|
                0 <= k < i ==> evict@[k] == (rank_of(pages@, current as int, k) >= cap),
        decreases n - i,
    {
        let pi = pages[i];
        let di: usize = if pi >= current { pi - current } else { current - pi };
        let mut count: usize = 0;
        let mut j: usize = 0;
        while j < n
            invariant
                n == pages@.len(),
                i < n,
                j <= n,
                pi == pages@[i as int],
                di == page_distance(pi as int, current as int),
                count == rank_below(pages@, current as int, i as int, j as int),
                count <= j,
            decreases n - j,
        {
            let pj = pages[j];
            let dj: usize = if pj >= current { pj - current } else { current - pj };
            if dj < di || (dj == di && j < i) {
                count = count + 1;
            }
            j = j + 1;
        }
        evict.push(count >= cap);
        i = i + 1;
    }
    evict
}

proof fn lemma_rank_ordered(pages: Seq<usize>, current: int, i: int, j: int, n: int)
    requires
        0 <= i < pages.len(),
        0 <= j < pages.len(),
        sorts_before(pages, current, i, j),
        0 <= n <= pages.len(),
    ensures
        rank_below(pages, current, i, n) + (if i < n { 1int } else { 0int }) <= rank_below(
            pages,
            current,
            j,
            n,
        ),
    decreases n,
{
    if n > 0 {
        lemma_rank_ordered(pages, current, i, j, n - 1);
    }
}

proof fn lemma_rank_below_self(pages: Seq<usize>, current: int, i: int, n: int)
    requires
        0 <= i < pages.len(),
        0 <= n <= pages.len(),
    ensures
        rank_below(pages, current, i, n) + (if i < n { 1int } else { 0int }) <= n,
    decreases n,
{
    if n > 0 {
        lemma_rank_below_self(pages, current, i, n - 1);
    }
}

/// Dropping favours far pages: every dropped rendering is at least as far
/// from the current page as every kept one.
pub proof fn lemma_evicted_are_farthest(pages: Seq<usize>, current: int, cap: int, i: int, j: int)
    requires
        0 <= i < pages.len(),
        0 <= j < pages.len(),
        rank_of(pages, current, i) >= cap,
        rank_of(pages, current, j) < cap,
    ensures
        page_distance(pages[j] as int, current) <= page_distance(pages[i] as int, current),
{
    if page_distance(pages[j] as int, current) > page_distance(pages[i] as int, current) {
        lemma_rank_ordered(pages, current, i, j, pages.len() as int);
    }
}

/// A cache within its capacity loses nothing.
pub proof fn lemma_within_capacity_keeps_all(pages: Seq<usize>, current: int, cap: int, i: int)
    requires
        0 <= i < pages.len(),
        pages.len() <= cap,
    ensures
        rank_of(pages, current, i) < cap,
{
    lemma_rank_below_self(pages, current, i, pages.len() as int);
}


/// The positions of the entries that are dropped.
pub open spec fn evicted_positions(pages: Seq<usize>, current: int, cap: int) -> Set<int> {
    Set::new(|i: int| 0 <= i < pages.len() && rank_of(pages, current, i) >= cap)
}

proof fn lemma_ranks_distinct(pages: Seq<usize>, current: int, i: int, j: int)
    requires
        0 <= i < pages.len(),
        0 <= j < pages.len(),
        i != j,
    ensures
        rank_of(pages, current, i) != rank_of(pages, current, j),
{
    if sorts_before(pages, current, i, j) {
        lemma_rank_ordered(pages, current, i, j, pages.len() as int);
    } else {
        lemma_rank_ordered(pages, current, j, i, pages.len() as int);
    }
}

/// A cache over its capacity keeps exactly `cap` renderings: of `n` entries,
/// `n - cap` are dropped.
pub proof fn lemma_evicts_down_to_capacity(pages: Seq<usize>, current: int, cap: int)
    requires
        0 <= cap <= pages.len(),
    ensures
        evicted_positions(pages, current, cap).finite(),
        evicted_positions(pages, current, cap).len() == pages.len() - cap,
{
    let n = pages.len() as int;
    let f = |i: int| rank_of(pages, current, i) as int;
    let all = set_int_range(0, n);
    lemma_int_range(0, n);
    assert(injective_on(f, all)) by {
        assert forall|i: int, j: int| all.contains(i) && all.contains(j) && #[trigger] f(i) == #[trigger] f(j)
            implies i == j by {
            if i != j {
                lemma_ranks_distinct(pages, current, i, j);
            }
        }
    }
    let ranks = all.map(f);
    lemma_map_size(all, ranks, f);
    assert(ranks.subset_of(all)) by {
        assert forall|r: int| ranks.contains(r) implies all.contains(r) by {
            let i = choose|i: int| all.contains(i) && f(i) == r;
            lemma_rank_below_self(pages, current, i, n);
        }
    }
    lemma_subset_equality(ranks, all);
    let kept = all.filter(|i: int| f(i) < cap);
    let low = set_int_range(0, cap);
    lemma_int_range(0, cap);
    assert(kept.map(f) =~= low) by {
        assert forall|r: int| low.contains(r) implies kept.map(f).contains(r) by {
            assert(ranks.contains(r));
            let i = choose|i: int| all.contains(i) && f(i) == r;
            assert(kept.contains(i));
        }
    }
    lemma_len_subset(kept, all);
    lemma_map_size(kept, low, f);
    let evicted = evicted_positions(pages, current, cap);
    assert(evicted =~= all.difference(kept));
    vstd::set_lib::lemma_set_difference_len(all, kept);
    assert(all.intersect(kept) =~= kept);
}


// ---------------------------------------------------------------------------
// Pending render requests
// ---------------------------------------------------------------------------

/// What a rendering is made for: a page, a width in pixels, a correction.
#[derive(Clone, Copy, PartialEq, Eq, Structural, Hash, Debug)]
pub struct RenderKey {
    pub page: usize,
    pub width: i32,
    pub enhance: Enhance,
}

/// The renderings asked of the rendering thread that have not arrived yet.
pub struct RenderRequests {
    keys: Vec<RenderKey>,
}

impl View for RenderRequests {
    type V = Set<RenderKey>;

    closed spec fn view(&self) -> Set<RenderKey> {
        Set::new(|k: RenderKey| self.keys@.contains(k))
    }
}

impl RenderRequests {
    /// Nothing pending.
    pub fn new() -> (r: RenderRequests)
        ensures
            r@ == Set::<RenderKey>::empty(),
    {
        let r = RenderRequests { keys: Vec::new() };
        proof {
            assert(r@ =~= Set::<RenderKey>::empty());
        }
        r
    }

    /// Whether a rendering for `key` is pending.
    pub fn contains(&self, key: RenderKey) -> (r: bool)
        ensures
            r == self@.contains(key),
    {
        let n = self.keys.len();
        let mut i: usize = 0;
        while i < n
            invariant
                n == self.keys@.len(),
                i <= n,
                forall|j: int| 0 <= j < i ==> self.keys@[j] != key,
            decreases n - i,
        {
            if self.keys[i] == key {
                return true;
            }
            i = i + 1;
        }
        false
    }

    /// Decides whether to ask for a rendering for `key`: only when none is
    /// cached (`cached`) and none is pending. When it asks, `key` is pending
    /// from now on.
    pub fn request(&mut self, key: RenderKey, cached: bool) -> (send: bool)
        ensures
            send == (!cached && !old(self)@.contains(key)),
            final(self)@ == if send {
                old(self)@.insert(key)
            } else {
                old(self)@
            },
    {
        if cached || self.contains(key) {
            return false;
        }
        let ghost before = self.keys@;
        self.keys.push(key);
        proof {
            assert forall|k: RenderKey| self.keys@.contains(k) <==> (before.contains(k) || k == key) by {
                if self.keys@.contains(k) {
                    let j = choose|j: int| 0 <= j < self.keys@.len() && self.keys@[j] == k;
                    if j < before.len() {
                        assert(before[j] == k);
                    }
                }
                if before.contains(k) {
                    let j = choose|j: int| 0 <= j < before.len() && before[j] == k;
                    assert(self.keys@[j] == k);
                }
                if k == key {
                    assert(self.keys@[before.len() as int] == k);
                }
            }
            assert(self@ =~= old(self)@.insert(key));
        }
        true
    }

    /// Records that the rendering for `key` has arrived.
    pub fn complete(&mut self, key: RenderKey)
        ensures
            final(self)@ == old(self)@.remove(key),
    {
        let n = self.keys.len();
        let mut kept: Vec<RenderKey> = Vec::new();
        let mut i: usize = 0;
        while i < n
            invariant
                n == self.keys@.len(),
                i <= n,
                forall|k: RenderKey| kept@.contains(k) <==> (k != key && exists|j: int| 0 <= j < i && self.keys@[j] == k),
            decreases n - i,
        {
            let k = self.keys[i];
            let ghost before = kept@;
            if k != key {
                kept.push(k);
            }
            proof {
                assert forall|x: RenderKey| kept@.contains(x) <==> (x != key && exists|j: int| 0 <= j < i + 1 && self.keys@[j] == x) by {
                    if kept@.contains(x) {
                        let j = choose|j: int| 0 <= j < kept@.len() && kept@[j] == x;
                        if j < before.len() {
                            assert(before[j] == x);
                            assert(before.contains(x));
                            let w = choose|w: int| 0 <= w < i && self.keys@[w] == x;
                            assert(0 <= w < i + 1 && self.keys@[w] == x);
                        } else {
                            assert(x == k && k != key);
                            assert(self.keys@[i as int] == x);
                        }
                    }
                    if x != key && exists|j: int| 0 <= j < i + 1 && self.keys@[j] == x {
                        let j = choose|j: int| 0 <= j < i + 1 && self.keys@[j] == x;
                        if j < i {
                            assert(before.contains(x));
                            let m = choose|m: int| 0 <= m < before.len() && before[m] == x;
                            assert(kept@[m] == x);
                        } else {
                            assert(kept@[before.len() as int] == x);
                        }
                    }
                }
            }
            i = i + 1;
        }
        let ghost old_view = self@;
        self.keys = kept;
        proof {
            assert forall|k: RenderKey| self@.contains(k) <==> old_view.remove(key).contains(k) by {
                if old_view.contains(k) {
                    assert(old(self).keys@.contains(k));
                    let j = choose|j: int| 0 <= j < n && old(self).keys@[j] == k;
                }
            }
            assert(self@ =~= old(self)@.remove(key));
        }
    }

    /// Forgets every pending rendering.
    pub fn clear(&mut self)
        ensures
            final(self)@ == Set::<RenderKey>::empty(),
    {
        self.keys = Vec::new();
        proof {
            assert(self@ =~= Set::<RenderKey>::empty());
        }
    }
}

} // verus!
