//! Page layout: which pages form a spread, in which order they are shown,
//! which neighbours are worth rendering ahead, and how the reader moves
//! between spreads.

use vstd::prelude::*;

verus! {

/// Binding direction, which decides the left/right order of a spread.
#[derive(Clone, Copy, PartialEq, Eq, Structural, Debug)]
pub enum Binding {
    /// Bound on the left (horizontal writing): the lower page number is on the left.
    LeftToRight,
    /// Bound on the right (vertical writing): the lower page number is on the right.
    RightToLeft,
}

/// One page at a time, or two facing pages.
#[derive(Clone, Copy, PartialEq, Eq, Structural, Debug)]
pub enum ViewMode {
    Single,
    Spread,
}

/// The first (lowest) page of the spread that holds `page`. With the cover
/// alone, spreads are `[0] [1,2] [3,4] ...`; otherwise `[0,1] [2,3] ...`.
pub open spec fn spread_start_of(view_mode: ViewMode, cover_alone: bool, page: int) -> int {
    match view_mode {
        ViewMode::Single => page,
        ViewMode::Spread => {
            if cover_alone {
                if page == 0 {
                    0
                } else {
                    (page - 1) - (page - 1) % 2 + 1
                }
            } else {
                page - page % 2
            }
        },
    }
}

/// The pages of the spread that starts at `start`, in ascending order.
/// `start` is first clamped to the last page; a document without pages has
/// no spreads.
pub open spec fn spread_pages(
    view_mode: ViewMode,
    cover_alone: bool,
    page_count: int,
    start: int,
) -> Seq<usize> {
    if page_count <= 0 {
        Seq::empty()
    } else {
        let s = if start < page_count - 1 { start } else { page_count - 1 };
        match view_mode {
            ViewMode::Single => seq![s as usize],
            ViewMode::Spread => {
                if cover_alone && s == 0 {
                    seq![0usize]
                } else if s + 1 < page_count {
                    seq![s as usize, (s + 1) as usize]
                } else {
                    seq![s as usize]
                }
            },
        }
    }
}

/// The pages of the spread holding `current`, in ascending order.
pub open spec fn current_spread(
    view_mode: ViewMode,
    cover_alone: bool,
    page_count: int,
    current: int,
) -> Seq<usize> {
    spread_pages(view_mode, cover_alone, page_count, spread_start_of(view_mode, cover_alone, current))
}

/// The pages of the next spread (if the current one is not the last) followed
/// by those of the previous spread (if the current one is not the first).
pub open spec fn prefetch_pages(
    view_mode: ViewMode,
    cover_alone: bool,
    page_count: int,
    current: int,
) -> Seq<usize> {
    let cur = current_spread(view_mode, cover_alone, page_count, current);
    let after = if cur.len() > 0 && cur.last() + 1 < page_count {
        spread_pages(
            view_mode,
            cover_alone,
            page_count,
            spread_start_of(view_mode, cover_alone, cur.last() + 1),
        )
    } else {
        Seq::empty()
    };
    let before = if cur.len() > 0 && cur[0] > 0 {
        spread_pages(
            view_mode,
            cover_alone,
            page_count,
            spread_start_of(view_mode, cover_alone, cur[0] - 1),
        )
    } else {
        Seq::empty()
    };
    after + before
}

/// The pages to show, left to right: the current spread, reversed when the
/// book is bound on the right and the spread has two pages.
pub open spec fn visible_order(
    view_mode: ViewMode,
    binding: Binding,
    cover_alone: bool,
    page_count: int,
    current: int,
) -> Seq<usize> {
    let pages = current_spread(view_mode, cover_alone, page_count, current);
    if binding == Binding::RightToLeft && pages.len() == 2 {
        pages.reverse()
    } else {
        pages
    }
}

/// The first (lowest) page of the spread that holds `page`.
pub fn spread_start(view_mode: ViewMode, cover_alone: bool, page: usize) -> (r: usize)
    ensures
        r == spread_start_of(view_mode, cover_alone, page as int),
{
    match view_mode {
        ViewMode::Single => page,
        ViewMode::Spread => {
            if cover_alone {
                if page == 0 {
                    0
                } else {
                    let q: usize = page - 1;
                    assert(q & !1usize == q - q % 2) by (bit_vector);
                    (q & !1usize) + 1
                }
            } else {
                assert(page & !1usize == page - page % 2) by (bit_vector);
                page & !1usize
            }
        },
    }
}

/// The pages of the spread that starts at `start`, in ascending order.
pub fn pages_of_spread(
    view_mode: ViewMode,
    cover_alone: bool,
    page_count: usize,
    start: usize,
) -> (r: Vec<usize>)
    ensures
        r@ == spread_pages(view_mode, cover_alone, page_count as int, start as int),
{
    if page_count == 0 {
        return Vec::new();
    }
    let start = if start < page_count - 1 { start } else { page_count - 1 };
    match view_mode {
        ViewMode::Single => {
            let mut pages = Vec::new();
            pages.push(start);
            pages
        },
        ViewMode::Spread => {
            let mut pages = Vec::new();
            pages.push(start);
            if cover_alone && start == 0 {
                return pages;
            }
            if start + 1 < page_count {
                pages.push(start + 1);
            }
            pages
        },
    }
}

/// The pages of the spread holding `current`, in ascending order.
pub fn current_pages_sorted(
    view_mode: ViewMode,
    cover_alone: bool,
    page_count: usize,
    current: usize,
) -> (r: Vec<usize>)
    ensures
        r@ == current_spread(view_mode, cover_alone, page_count as int, current as int),
{
    pages_of_spread(view_mode, cover_alone, page_count, spread_start(view_mode, cover_alone, current))
}

proof fn lemma_spread_pages_bounded(
    view_mode: ViewMode,
    cover_alone: bool,
    page_count: int,
    start: int,
)
    requires
        0 <= start,
    ensures
        forall|i: int|
            0 <= i < spread_pages(view_mode, cover_alone, page_count, start).len() ==> spread_pages(
                view_mode,
                cover_alone,
                page_count,
                start,
            )[i] < page_count,
        spread_pages(view_mode, cover_alone, page_count, start).len() <= 2,
{
}

/// The pages of the spreads before and after the current one, which are
/// worth rendering ahead: the following spread first, then the preceding one.
pub fn prefetch_targets(
    view_mode: ViewMode,
    cover_alone: bool,
    page_count: usize,
    current: usize,
) -> (r: Vec<usize>)
    ensures
        r@ == prefetch_pages(view_mode, cover_alone, page_count as int, current as int),
{
    let cur = current_pages_sorted(view_mode, cover_alone, page_count, current);
    proof {
        lemma_spread_pages_bounded(
            view_mode,
            cover_alone,
            page_count as int,
            spread_start_of(view_mode, cover_alone, current as int),
        );
    }
    let mut targets: Vec<usize> = Vec::new();
    let n = cur.len();
    if n > 0 {
        let last = cur[n - 1];
        if last + 1 < page_count {
            let mut after = pages_of_spread(
                view_mode,
                cover_alone,
                page_count,
                spread_start(view_mode, cover_alone, last + 1),
            );
            targets.append(&mut after);
        }
    }
    if n > 0 {
        let first = cur[0];
        if first > 0 {
            let mut before = pages_of_spread(
                view_mode,
                cover_alone,
                page_count,
                spread_start(view_mode, cover_alone, first - 1),
            );
            targets.append(&mut before);
        }
    }
    proof {
        assert(targets@ =~= prefetch_pages(
            view_mode,
            cover_alone,
            page_count as int,
            current as int,
        ));
    }
    targets
}

/// The pages to show, from left to right.
pub fn visible_pages(
    view_mode: ViewMode,
    binding: Binding,
    cover_alone: bool,
    page_count: usize,
    current: usize,
) -> (r: Vec<usize>)
    ensures
        r@ == visible_order(view_mode, binding, cover_alone, page_count as int, current as int),
{
    let pages = current_pages_sorted(view_mode, cover_alone, page_count, current);
    let right_to_left = match binding {
        Binding::RightToLeft => true,
        Binding::LeftToRight => false,
    };
    if right_to_left && pages.len() == 2 {
        let mut reversed = Vec::new();
        reversed.push(pages[1]);
        reversed.push(pages[0]);
        proof {
            assert(reversed@ =~= pages@.reverse());
        }
        reversed
    } else {
        pages
    }
}


/// Which way the left and right arrow keys turn the pages, as
/// `(forward, back)`: in a book bound on the left the right arrow goes
/// forward, in a book bound on the right the left arrow does.
pub open spec fn arrow_turns_spec(binding: Binding, left: bool, right: bool) -> (bool, bool) {
    match binding {
        Binding::LeftToRight => (right, left),
        Binding::RightToLeft => (left, right),
    }
}

/// Which way the pressed arrow keys turn the pages, as `(forward, back)`.
pub fn arrow_turns(binding: Binding, left: bool, right: bool) -> (r: (bool, bool))
    ensures
        r == arrow_turns_spec(binding, left, right),
{
    match binding {
        Binding::LeftToRight => (right, left),
        Binding::RightToLeft => (left, right),
    }
}

// ---------------------------------------------------------------------------
// Moving between spreads
// ---------------------------------------------------------------------------

/// Whether a spread follows the one holding `current`.
pub open spec fn has_next(view_mode: ViewMode, cover_alone: bool, page_count: int, current: int) -> bool {
    let cur = current_spread(view_mode, cover_alone, page_count, current);
    cur.len() > 0 && cur.last() + 1 < page_count
}

/// The page after moving forward: the start of the following spread, or
/// `current` itself at the last spread.
pub open spec fn next_page(view_mode: ViewMode, cover_alone: bool, page_count: int, current: int) -> int {
    let cur = current_spread(view_mode, cover_alone, page_count, current);
    if has_next(view_mode, cover_alone, page_count, current) {
        spread_start_of(view_mode, cover_alone, cur.last() + 1)
    } else {
        current
    }
}

/// The page after moving back: the start of the preceding spread, or
/// `current` itself at the first spread.
pub open spec fn prev_page(view_mode: ViewMode, cover_alone: bool, current: int) -> int {
    let start = spread_start_of(view_mode, cover_alone, current);
    if start > 0 {
        spread_start_of(view_mode, cover_alone, start - 1)
    } else {
        current
    }
}

/// The page after jumping to `page`: the start of the spread holding `page`,
/// clamped to the last page; unchanged when there are no pages.
pub open spec fn goto_target(
    view_mode: ViewMode,
    cover_alone: bool,
    page_count: int,
    current: int,
    page: int,
) -> int {
    if page_count <= 0 {
        current
    } else {
        spread_start_of(
            view_mode,
            cover_alone,
            if page < page_count - 1 { page } else { page_count - 1 },
        )
    }
}

/// The reader's position in a document and the layout settings it is viewed with.
pub struct Navigator {
    /// Number of pages of the open document (0 while none is loaded).
    pub page_count: usize,
    /// The page the reader is at; the spread holding it is shown.
    pub current: usize,
    pub view_mode: ViewMode,
    pub binding: Binding,
    /// Whether the first page (the cover) is shown on its own.
    pub cover_alone: bool,
}

impl Navigator {
    /// No document, at page 0, facing pages bound on the left, cover alone.
    pub fn new() -> (n: Navigator)
        ensures
            n.page_count == 0,
            n.current == 0,
            n.view_mode == ViewMode::Spread,
            n.binding == Binding::LeftToRight,
            n.cover_alone,
    {
        Navigator {
            page_count: 0,
            current: 0,
            view_mode: ViewMode::Spread,
            binding: Binding::LeftToRight,
            cover_alone: true,
        }
    }

    /// Forgets the page count and position while another document loads.
    pub fn open_document(&mut self)
        ensures
            final(self).page_count == 0,
            final(self).current == 0,
            final(self).view_mode == old(self).view_mode,
            final(self).binding == old(self).binding,
            final(self).cover_alone == old(self).cover_alone,
    {
        self.page_count = 0;
        self.current = 0;
    }

    /// Records the page count of a document that finished loading.
    pub fn set_page_count(&mut self, page_count: usize)
        ensures
            final(self).page_count == page_count,
            final(self).current == old(self).current,
            final(self).view_mode == old(self).view_mode,
            final(self).binding == old(self).binding,
            final(self).cover_alone == old(self).cover_alone,
    {
        self.page_count = page_count;
    }

    /// The pages of the current spread, in ascending order.
    pub fn current_pages_sorted(&self) -> (r: Vec<usize>)
        ensures
            r@ == current_spread(
                self.view_mode,
                self.cover_alone,
                self.page_count as int,
                self.current as int,
            ),
    {
        current_pages_sorted(self.view_mode, self.cover_alone, self.page_count, self.current)
    }

    /// The pages of the neighbouring spreads, following spread first.
    pub fn prefetch_targets(&self) -> (r: Vec<usize>)
        ensures
            r@ == prefetch_pages(
                self.view_mode,
                self.cover_alone,
                self.page_count as int,
                self.current as int,
            ),
    {
        prefetch_targets(self.view_mode, self.cover_alone, self.page_count, self.current)
    }

    /// The pages to show, from left to right.
    pub fn visible_pages(&self) -> (r: Vec<usize>)
        ensures
            r@ == visible_order(
                self.view_mode,
                self.binding,
                self.cover_alone,
                self.page_count as int,
                self.current as int,
            ),
    {
        visible_pages(self.view_mode, self.binding, self.cover_alone, self.page_count, self.current)
    }

    /// Moves to the following spread, if there is one.
    pub fn next(&mut self)
        ensures
            final(self).current == next_page(
                old(self).view_mode,
                old(self).cover_alone,
                old(self).page_count as int,
                old(self).current as int,
            ),
            final(self).page_count == old(self).page_count,
            final(self).view_mode == old(self).view_mode,
            final(self).binding == old(self).binding,
            final(self).cover_alone == old(self).cover_alone,
    {
        let pages = current_pages_sorted(self.view_mode, self.cover_alone, self.page_count, self.current);
        proof {
            lemma_spread_pages_bounded(
                self.view_mode,
                self.cover_alone,
                self.page_count as int,
                spread_start_of(self.view_mode, self.cover_alone, self.current as int),
            );
        }
        let n = pages.len();
        if n > 0 {
            let last = pages[n - 1];
            let target = last + 1;
            if target < self.page_count {
                self.current = spread_start(self.view_mode, self.cover_alone, target);
            }
        }
    }

    /// Moves to the preceding spread, if there is one.
    pub fn prev(&mut self)
        ensures
            final(self).current == prev_page(
                old(self).view_mode,
                old(self).cover_alone,
                old(self).current as int,
            ),
            final(self).page_count == old(self).page_count,
            final(self).view_mode == old(self).view_mode,
            final(self).binding == old(self).binding,
            final(self).cover_alone == old(self).cover_alone,
    {
        let start = spread_start(self.view_mode, self.cover_alone, self.current);
        if start > 0 {
            self.current = spread_start(self.view_mode, self.cover_alone, start - 1);
        }
    }

    /// Jumps to the spread holding `page` (clamped to the last page).
    pub fn goto(&mut self, page: usize)
        ensures
            final(self).current == goto_target(
                old(self).view_mode,
                old(self).cover_alone,
                old(self).page_count as int,
                old(self).current as int,
                page as int,
            ),
            final(self).page_count == old(self).page_count,
            final(self).view_mode == old(self).view_mode,
            final(self).binding == old(self).binding,
            final(self).cover_alone == old(self).cover_alone,
    {
        if self.page_count == 0 {
            return;
        }
        let p = if page < self.page_count - 1 { page } else { self.page_count - 1 };
        self.current = spread_start(self.view_mode, self.cover_alone, p);
    }
}

// ---------------------------------------------------------------------------
// Laws
// ---------------------------------------------------------------------------

/// The start of a page's spread is never after the page, and is the start of its own spread.
pub proof fn lemma_spread_start_stable(view_mode: ViewMode, cover_alone: bool, page: int)
    requires
        0 <= page,
    ensures
        0 <= spread_start_of(view_mode, cover_alone, page) <= page,
        spread_start_of(
            view_mode,
            cover_alone,
            spread_start_of(view_mode, cover_alone, page),
        ) == spread_start_of(view_mode, cover_alone, page),
{
}

/// The spread shown for a page holds that page, and its pages are one or two
/// consecutive pages of the document, in ascending order.
pub proof fn lemma_spread_holds_page(view_mode: ViewMode, cover_alone: bool, page_count: int, page: int)
    requires
        0 <= page < page_count <= usize::MAX,
    ensures
        current_spread(view_mode, cover_alone, page_count, page).contains(page as usize),
        1 <= current_spread(view_mode, cover_alone, page_count, page).len() <= 2,
        current_spread(view_mode, cover_alone, page_count, page).len() == 2 ==> current_spread(
            view_mode,
            cover_alone,
            page_count,
            page,
        )[1] == current_spread(view_mode, cover_alone, page_count, page)[0] + 1,
        forall|i: int|
            0 <= i < current_spread(view_mode, cover_alone, page_count, page).len()
                ==> current_spread(view_mode, cover_alone, page_count, page)[i] < page_count,
{
    let s = current_spread(view_mode, cover_alone, page_count, page);
    let st = spread_start_of(view_mode, cover_alone, page);
    if st == page {
        assert(s[0] == page as usize);
    } else {
        assert(s[1] == page as usize);
    }
}

/// Every page shown is a page of the current spread and vice versa; only a
/// two-page spread bound on the right is shown in descending order.
pub proof fn lemma_visible_is_spread(
    view_mode: ViewMode,
    binding: Binding,
    cover_alone: bool,
    page_count: int,
    page: int,
)
    ensures
        visible_order(view_mode, binding, cover_alone, page_count, page).len() == current_spread(
            view_mode,
            cover_alone,
            page_count,
            page,
        ).len(),
        forall|i: int|
            0 <= i < current_spread(view_mode, cover_alone, page_count, page).len() ==> visible_order(
                view_mode,
                binding,
                cover_alone,
                page_count,
                page,
            ).contains(current_spread(view_mode, cover_alone, page_count, page)[i]),
        (binding == Binding::LeftToRight || current_spread(
            view_mode,
            cover_alone,
            page_count,
            page,
        ).len() < 2) ==> visible_order(view_mode, binding, cover_alone, page_count, page)
            == current_spread(view_mode, cover_alone, page_count, page),
{
    let s = current_spread(view_mode, cover_alone, page_count, page);
    let v = visible_order(view_mode, binding, cover_alone, page_count, page);
    assert forall|i: int| 0 <= i < s.len() implies v.contains(s[i]) by {
        if binding == Binding::RightToLeft && s.len() == 2 {
            assert(v[1 - i] == s[i]);
        } else {
            assert(v[i] == s[i]);
        }
    }
}

/// Moving forward, back or to a page lands on the start of a spread inside the document.
pub proof fn lemma_moves_land_on_spread_starts(
    view_mode: ViewMode,
    cover_alone: bool,
    page_count: int,
    current: int,
    page: int,
)
    requires
        0 <= current < page_count <= usize::MAX,
        0 <= page,
    ensures
        0 <= next_page(view_mode, cover_alone, page_count, current) < page_count,
        0 <= prev_page(view_mode, cover_alone, current) < page_count,
        0 <= goto_target(view_mode, cover_alone, page_count, current, page) < page_count,
        has_next(view_mode, cover_alone, page_count, current) ==> spread_start_of(
            view_mode,
            cover_alone,
            next_page(view_mode, cover_alone, page_count, current),
        ) == next_page(view_mode, cover_alone, page_count, current),
        spread_start_of(view_mode, cover_alone, current) > 0 ==> spread_start_of(
            view_mode,
            cover_alone,
            prev_page(view_mode, cover_alone, current),
        ) == prev_page(view_mode, cover_alone, current),
        spread_start_of(
            view_mode,
            cover_alone,
            goto_target(view_mode, cover_alone, page_count, current, page),
        ) == goto_target(view_mode, cover_alone, page_count, current, page),
{
}

/// Moving back undoes moving forward: after a step to the following spread,
/// a step back returns to the start of the spread one came from.
pub proof fn lemma_prev_undoes_next(view_mode: ViewMode, cover_alone: bool, page_count: int, current: int)
    requires
        0 <= current < page_count <= usize::MAX,
        has_next(view_mode, cover_alone, page_count, current),
    ensures
        prev_page(
            view_mode,
            cover_alone,
            next_page(view_mode, cover_alone, page_count, current),
        ) == spread_start_of(view_mode, cover_alone, current),
{
}

/// Moving forward undoes moving back: after a step to the preceding spread,
/// a step forward returns to the start of the spread one came from.
pub proof fn lemma_next_undoes_prev(view_mode: ViewMode, cover_alone: bool, page_count: int, current: int)
    requires
        0 <= current < page_count <= usize::MAX,
        spread_start_of(view_mode, cover_alone, current) > 0,
    ensures
        has_next(view_mode, cover_alone, page_count, prev_page(view_mode, cover_alone, current)),
        next_page(
            view_mode,
            cover_alone,
            page_count,
            prev_page(view_mode, cover_alone, current),
        ) == spread_start_of(view_mode, cover_alone, current),
{
}

/// The pages rendered ahead all exist and none of them is on screen.
pub proof fn lemma_prefetch_outside_current(
    view_mode: ViewMode,
    cover_alone: bool,
    page_count: int,
    current: int,
)
    requires
        0 <= current < page_count <= usize::MAX,
    ensures
        forall|i: int|
            0 <= i < prefetch_pages(view_mode, cover_alone, page_count, current).len()
                ==> prefetch_pages(view_mode, cover_alone, page_count, current)[i] < page_count
                && !current_spread(view_mode, cover_alone, page_count, current).contains(
                prefetch_pages(view_mode, cover_alone, page_count, current)[i],
            ),
{
    let cur = current_spread(view_mode, cover_alone, page_count, current);
    let t = prefetch_pages(view_mode, cover_alone, page_count, current);
    assert forall|i: int| 0 <= i < t.len() implies t[i] < page_count && !cur.contains(t[i]) by {
        assert(cur.len() == 1 || cur.len() == 2);
        if cur.contains(t[i]) {
            let k = choose|k: int| 0 <= k < cur.len() && cur[k] == t[i];
            assert(false);
        }
    }
}

/// For a book bound on the right, a two-page spread is shown with its higher
/// page on the left, whatever the cover setting; bound on the left, the pages
/// are shown in ascending order.
pub proof fn lemma_visible_order_follows_binding(
    view_mode: ViewMode,
    binding: Binding,
    cover_alone: bool,
    page_count: int,
    page: int,
)
    requires
        0 <= page < page_count <= usize::MAX,
    ensures
        ({
            let s = current_spread(view_mode, cover_alone, page_count, page);
            let v = visible_order(view_mode, binding, cover_alone, page_count, page);
            &&& binding == Binding::RightToLeft && s.len() == 2 ==> v == seq![s[1], s[0]]
            &&& binding == Binding::RightToLeft && s.len() == 2 ==> v[0] == v[1] + 1
            &&& binding == Binding::LeftToRight ==> v == s
            &&& s.len() == 1 ==> v == s
        }),
{
    lemma_spread_holds_page(view_mode, cover_alone, page_count, page);
    let s = current_spread(view_mode, cover_alone, page_count, page);
    let v = visible_order(view_mode, binding, cover_alone, page_count, page);
    if binding == Binding::RightToLeft && s.len() == 2 {
        assert(v =~= seq![s[1], s[0]]);
    }
}

proof fn lemma_prefetch_split(
    view_mode: ViewMode,
    cover_alone: bool,
    page_count: int,
    current: int,
)
    requires
        0 <= current < page_count <= usize::MAX,
    ensures
        ({
            let cur = current_spread(view_mode, cover_alone, page_count, current);
            let next = current_spread(view_mode, cover_alone, page_count, cur.last() + 1);
            let prev = current_spread(view_mode, cover_alone, page_count, cur[0] - 1);
            &&& 1 <= cur.len() <= 2
            &&& prefetch_pages(view_mode, cover_alone, page_count, current)
                == (if cur.last() + 1 < page_count { next } else { Seq::<usize>::empty() })
                + (if cur[0] > 0 { prev } else { Seq::<usize>::empty() })
        }),
{
    lemma_spread_holds_page(view_mode, cover_alone, page_count, current);
}

/// The pages rendered ahead are the spread after the current one (when there
/// is a later page), followed by the spread before it (when there is an
/// earlier page), in every view mode: the list starts with the spread holding
/// the page right after the shown ones and ends with the spread holding the
/// page right before them, and is empty when neither exists.
pub proof fn lemma_prefetch_neighbours(
    view_mode: ViewMode,
    cover_alone: bool,
    page_count: int,
    current: int,
)
    requires
        0 <= current < page_count <= usize::MAX,
    ensures
        ({
            let cur = current_spread(view_mode, cover_alone, page_count, current);
            let t = prefetch_pages(view_mode, cover_alone, page_count, current);
            let next = current_spread(view_mode, cover_alone, page_count, cur.last() + 1);
            let prev = current_spread(view_mode, cover_alone, page_count, cur[0] - 1);
            &&& cur[0] > 0 ==> prev.contains((cur[0] - 1) as usize) && t.contains((cur[0] - 1) as usize)
            &&& cur[0] > 0 ==> prev.len() <= t.len() && t.subrange(t.len() - prev.len(), t.len() as int) == prev
            &&& cur.last() + 1 < page_count ==> next.contains((cur.last() + 1) as usize) && t.contains((cur.last() + 1) as usize)
            &&& cur.last() + 1 < page_count ==> next.len() <= t.len() && t.subrange(0, next.len() as int) == next
            &&& cur[0] == 0 && cur.last() + 1 >= page_count ==> t.len() == 0
        }),
{
    lemma_prefetch_split(view_mode, cover_alone, page_count, current);
    lemma_spread_holds_page(view_mode, cover_alone, page_count, current);
    let cur = current_spread(view_mode, cover_alone, page_count, current);
    let t = prefetch_pages(view_mode, cover_alone, page_count, current);
    let next = current_spread(view_mode, cover_alone, page_count, cur.last() + 1);
    let prev = current_spread(view_mode, cover_alone, page_count, cur[0] - 1);
    let after = if cur.last() + 1 < page_count { next } else { Seq::<usize>::empty() };
    let before = if cur[0] > 0 { prev } else { Seq::<usize>::empty() };
    assert(t == after + before);
    if cur[0] > 0 {
        assert(0 <= cur[0] - 1 < page_count) by {
            assert(cur[0] < page_count);
        }
        lemma_spread_holds_page(view_mode, cover_alone, page_count, cur[0] - 1);
        assert(t.subrange(t.len() - prev.len(), t.len() as int) =~= prev);
        let k = choose|k: int| 0 <= k < prev.len() && prev[k] == (cur[0] - 1) as usize;
        assert(t[after.len() + k] == prev[k]);
    }
    if cur.last() + 1 < page_count {
        lemma_spread_holds_page(view_mode, cover_alone, page_count, cur.last() + 1);
        assert(t.subrange(0, next.len() as int) =~= next);
        let k = choose|k: int| 0 <= k < next.len() && next[k] == (cur.last() + 1) as usize;
        assert(t[k] == next[k]);
    }
}

/// In single-page mode the pages rendered ahead are the following page, then
/// the preceding page, each when it exists.
pub proof fn lemma_prefetch_single(cover_alone: bool, page_count: int, current: int)
    requires
        0 <= current < page_count <= usize::MAX,
    ensures
        prefetch_pages(ViewMode::Single, cover_alone, page_count, current)
            == (if current + 1 < page_count { seq![(current + 1) as usize] } else { Seq::<usize>::empty() })
            + (if current > 0 { seq![(current - 1) as usize] } else { Seq::<usize>::empty() }),
{
    lemma_prefetch_split(ViewMode::Single, cover_alone, page_count, current);
    let t = prefetch_pages(ViewMode::Single, cover_alone, page_count, current);
    assert(t =~= (if current + 1 < page_count { seq![(current + 1) as usize] } else { Seq::<usize>::empty() })
        + (if current > 0 { seq![(current - 1) as usize] } else { Seq::<usize>::empty() }));
}

} // verus!
