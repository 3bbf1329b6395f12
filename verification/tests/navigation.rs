use pdr::navigation::{
    arrow_turns, pages_of_spread, prefetch_targets, spread_start, visible_pages, Binding, Navigator, ViewMode,
};

#[test]
fn cover_alone_groups_cover_and_following_spreads() {
    assert_eq!(spread_start(ViewMode::Spread, true, 0), 0);
    assert_eq!(spread_start(ViewMode::Spread, true, 1), 1);
    assert_eq!(spread_start(ViewMode::Spread, true, 2), 1);
    assert_eq!(spread_start(ViewMode::Spread, true, 3), 3);
    assert_eq!(pages_of_spread(ViewMode::Spread, true, 5, 0), vec![0]);
    assert_eq!(pages_of_spread(ViewMode::Spread, true, 5, 1), vec![1, 2]);
}

#[test]
fn spread_without_cover_alone_groups_from_zero() {
    assert_eq!(spread_start(ViewMode::Spread, false, 0), 0);
    assert_eq!(spread_start(ViewMode::Spread, false, 1), 0);
    assert_eq!(spread_start(ViewMode::Spread, false, 2), 2);
    assert_eq!(pages_of_spread(ViewMode::Spread, false, 3, 2), vec![2]);
}

#[test]
fn single_mode_keeps_requested_page() {
    assert_eq!(spread_start(ViewMode::Single, true, 3), 3);
    assert_eq!(pages_of_spread(ViewMode::Single, true, 5, 3), vec![3]);
}

#[test]
fn right_binding_reverses_only_two_page_spreads() {
    assert_eq!(
        visible_pages(ViewMode::Spread, Binding::RightToLeft, true, 5, 1),
        vec![2, 1]
    );
    assert_eq!(
        visible_pages(ViewMode::Spread, Binding::RightToLeft, true, 5, 0),
        vec![0]
    );
    assert_eq!(
        visible_pages(ViewMode::Spread, Binding::LeftToRight, true, 5, 1),
        vec![1, 2]
    );
}

#[test]
fn prefetches_adjacent_spreads() {
    assert_eq!(
        prefetch_targets(ViewMode::Spread, true, 7, 3),
        vec![5, 6, 1, 2]
    );
    assert_eq!(prefetch_targets(ViewMode::Spread, true, 7, 0), vec![1, 2]);
}

#[test]
fn empty_document_has_no_spreads() {
    assert_eq!(pages_of_spread(ViewMode::Spread, true, 0, 0), Vec::<usize>::new());
    assert_eq!(prefetch_targets(ViewMode::Single, false, 0, 0), Vec::<usize>::new());
}

#[test]
fn spread_start_clamps_to_last_page() {
    assert_eq!(pages_of_spread(ViewMode::Spread, false, 4, 9), vec![3]);
    assert_eq!(pages_of_spread(ViewMode::Single, false, 4, 9), vec![3]);
}

#[test]
fn last_spread_may_hold_one_page() {
    assert_eq!(pages_of_spread(ViewMode::Spread, true, 4, 3), vec![3]);
    assert_eq!(
        visible_pages(ViewMode::Spread, Binding::RightToLeft, true, 4, 3),
        vec![3]
    );
}

fn navigator(page_count: usize, view_mode: ViewMode, cover_alone: bool) -> Navigator {
    let mut n = Navigator::new();
    n.open_document();
    n.set_page_count(page_count);
    n.view_mode = view_mode;
    n.cover_alone = cover_alone;
    n
}

#[test]
fn next_and_prev_step_through_spreads() {
    let mut n = navigator(6, ViewMode::Spread, true);
    let mut seen = vec![n.current];
    for _ in 0..5 {
        n.next();
        seen.push(n.current);
    }
    assert_eq!(seen, vec![0, 1, 3, 5, 5, 5]);
    n.prev();
    assert_eq!(n.current, 3);
    n.prev();
    assert_eq!(n.current, 1);
    n.prev();
    assert_eq!(n.current, 0);
    n.prev();
    assert_eq!(n.current, 0);
}

#[test]
fn prev_undoes_next_in_every_mode() {
    for &(mode, cover) in &[
        (ViewMode::Single, false),
        (ViewMode::Spread, false),
        (ViewMode::Spread, true),
    ] {
        for start in 0..9usize {
            let mut n = navigator(9, mode, cover);
            n.current = start;
            let begin = spread_start(mode, cover, start);
            let before = n.current;
            n.next();
            if n.current != before {
                n.prev();
                assert_eq!(n.current, begin);
            }
        }
    }
}

#[test]
fn goto_lands_on_spread_start() {
    let mut n = navigator(10, ViewMode::Spread, false);
    n.goto(5);
    assert_eq!(n.current, 4);
    n.goto(100);
    assert_eq!(n.current, 8);
    let mut empty = navigator(0, ViewMode::Spread, false);
    empty.goto(3);
    assert_eq!(empty.current, 0);
}

#[test]
fn navigator_reports_visible_and_prefetch_pages() {
    let mut n = navigator(7, ViewMode::Spread, true);
    n.binding = Binding::RightToLeft;
    n.goto(3);
    assert_eq!(n.visible_pages(), vec![4, 3]);
    assert_eq!(n.current_pages_sorted(), vec![3, 4]);
    assert_eq!(n.prefetch_targets(), vec![5, 6, 1, 2]);
}

#[test]
fn arrow_keys_follow_binding() {
    assert_eq!(arrow_turns(Binding::LeftToRight, false, true), (true, false));
    assert_eq!(arrow_turns(Binding::LeftToRight, true, false), (false, true));
    assert_eq!(arrow_turns(Binding::RightToLeft, true, false), (true, false));
    assert_eq!(arrow_turns(Binding::RightToLeft, false, true), (false, true));
    assert_eq!(arrow_turns(Binding::RightToLeft, false, false), (false, false));
}

#[test]
fn spread_start_is_its_own_start_and_holds_the_page() {
    for &(mode, cover) in &[
        (ViewMode::Single, true),
        (ViewMode::Spread, false),
        (ViewMode::Spread, true),
    ] {
        for p in 0..12usize {
            let s = spread_start(mode, cover, p);
            assert!(s <= p);
            assert_eq!(spread_start(mode, cover, s), s);
            let pages = pages_of_spread(mode, cover, 12, s);
            assert!(pages.contains(&p));
            assert!(pages.len() == 1 || (pages.len() == 2 && pages[1] == pages[0] + 1));
        }
    }
}

#[test]
fn next_undoes_prev_in_every_mode() {
    for &(mode, cover) in &[
        (ViewMode::Single, false),
        (ViewMode::Spread, false),
        (ViewMode::Spread, true),
    ] {
        for start in 0..9usize {
            let mut n = navigator(9, mode, cover);
            n.current = start;
            let begin = spread_start(mode, cover, start);
            if begin > 0 {
                n.prev();
                n.next();
                assert_eq!(n.current, begin);
            }
        }
    }
}

#[test]
fn prefetched_pages_are_not_on_screen() {
    for current in 0..7usize {
        let shown = pdr::navigation::current_pages_sorted(ViewMode::Spread, true, 7, current);
        for p in prefetch_targets(ViewMode::Spread, true, 7, current) {
            assert!(p < 7);
            assert!(!shown.contains(&p));
        }
    }
}
