use pdr::cache::{bucket_width, evict_selection, RenderKey, RenderRequests, CACHE_CAP};
use pdr::enhance::Enhance;
use pdr::recent::{push_recent, RECENT_LIMIT};
use pdr::toc::{extract_toc, Bookmark, TOC_MAX_DEPTH};

#[test]
fn bucket_rounds_up_and_clamps() {
    assert_eq!(bucket_width(0), 512);
    assert_eq!(bucket_width(600), 768);
    assert_eq!(bucket_width(768), 768);
    assert_eq!(bucket_width(769), 1024);
    assert_eq!(bucket_width(2900), 3000);
    assert_eq!(bucket_width(100_000), 3000);
}

#[test]
fn eviction_drops_farthest_pages() {
    let pages = vec![10, 0, 5, 7, 3, 5];
    // distances from 5: 5, 5, 0, 2, 2, 0 -> order: idx2, idx5, idx3, idx4, idx0, idx1
    assert_eq!(
        evict_selection(&pages, 5, 3),
        vec![true, true, false, false, true, false]
    );
    assert_eq!(evict_selection(&pages, 5, 6), vec![false; 6]);
    assert_eq!(evict_selection(&pages, 5, 0), vec![true; 6]);
}

#[test]
fn eviction_keeps_cache_capacity() {
    let pages: Vec<usize> = (0..40).collect();
    let evict = evict_selection(&pages, 20, CACHE_CAP);
    assert_eq!(evict.iter().filter(|&&e| !e).count(), CACHE_CAP);
    for (p, e) in pages.iter().zip(evict.iter()) {
        let d = if *p > 20 { p - 20 } else { 20 - p };
        assert_eq!(*e, d > 12 || *p == 32);
    }
}

#[test]
fn recent_list_moves_path_to_front() {
    let mut recent: Vec<String> = vec!["/a.pdf".into(), "/b.pdf".into(), "/c.pdf".into()];
    push_recent(&mut recent, "/b.pdf");
    assert_eq!(recent, vec!["/b.pdf", "/a.pdf", "/c.pdf"]);
    push_recent(&mut recent, "/d.pdf");
    assert_eq!(recent, vec!["/d.pdf", "/b.pdf", "/a.pdf", "/c.pdf"]);
}

#[test]
fn recent_list_compares_paths_by_components() {
    let mut recent: Vec<String> = vec!["/x//y.pdf".into(), "/z.pdf".into()];
    push_recent(&mut recent, "/x/y.pdf");
    assert_eq!(recent, vec!["/x/y.pdf", "/z.pdf"]);
}

#[test]
fn recent_list_is_limited() {
    let mut recent: Vec<String> = Vec::new();
    for i in 0..20 {
        push_recent(&mut recent, &format!("/f{i}.pdf"));
    }
    assert_eq!(recent.len(), RECENT_LIMIT);
    assert_eq!(recent[0], "/f19.pdf");
    assert_eq!(recent[RECENT_LIMIT - 1], "/f8.pdf");
}

fn leaf(title: &str, page: Option<usize>) -> Bookmark {
    Bookmark { title: title.to_string(), page, children: Vec::new() }
}

#[test]
fn toc_lists_bookmarks_depth_first() {
    let tree = vec![
        Bookmark {
            title: "Part 1".into(),
            page: Some(0),
            children: vec![leaf("1.1", Some(2)), leaf("1.2", None)],
        },
        leaf("Part 2", Some(9)),
    ];
    let toc = extract_toc(&tree);
    let got: Vec<(usize, String, Option<usize>)> =
        toc.into_iter().map(|e| (e.depth, e.title, e.page)).collect();
    assert_eq!(
        got,
        vec![
            (0, "Part 1".to_string(), Some(0)),
            (1, "1.1".to_string(), Some(2)),
            (1, "1.2".to_string(), None),
            (0, "Part 2".to_string(), Some(9)),
        ]
    );
}

#[test]
fn toc_leaves_out_deep_bookmarks() {
    let mut node = leaf("deepest", None);
    for d in (0..40).rev() {
        node = Bookmark { title: format!("level {d}"), page: Some(d), children: vec![node] };
    }
    let toc = extract_toc(&vec![node]);
    assert_eq!(toc.len(), TOC_MAX_DEPTH + 1);
    assert_eq!(toc.last().unwrap().depth, TOC_MAX_DEPTH);
    assert!(toc.iter().all(|e| e.depth <= TOC_MAX_DEPTH));
}

#[test]
fn toc_stops_at_entry_limit() {
    let roots: Vec<Bookmark> = (0..10_050).map(|i| leaf("x", Some(i))).collect();
    let toc = extract_toc(&roots);
    assert_eq!(toc.len(), 10_000);
    assert_eq!(toc[9_999].page, Some(9_999));
}

#[test]
fn recent_list_holds_pushed_path_once() {
    let mut recent: Vec<String> =
        vec!["/a.pdf".into(), "/b.pdf".into(), "/a.pdf".into(), "/c.pdf".into()];
    push_recent(&mut recent, "/a.pdf");
    assert_eq!(recent, vec!["/a.pdf", "/b.pdf", "/c.pdf"]);
    assert_eq!(recent.iter().filter(|e| e.as_str() == "/a.pdf").count(), 1);
}

#[test]
fn render_requests_are_sent_once_until_they_arrive() {
    let key = RenderKey { page: 3, width: 800, enhance: Enhance::none() };
    let other = RenderKey { page: 4, width: 800, enhance: Enhance::none() };
    let mut pending = RenderRequests::new();
    assert!(!pending.contains(key));
    assert!(pending.request(key, false));
    assert!(pending.contains(key));
    assert!(!pending.request(key, false));
    assert!(!pending.request(other, true));
    assert!(!pending.contains(other));
    pending.complete(key);
    assert!(!pending.contains(key));
    assert!(pending.request(key, false));
    assert!(pending.request(other, false));
    pending.clear();
    assert!(!pending.contains(key));
    assert!(!pending.contains(other));
}
