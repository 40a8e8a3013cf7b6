use celestial_pong::geometry::{IVec2, Rect, COORD_LIMIT};
use celestial_pong::quad_tree::{QuadTree, QuadTreeEntry};

fn p(x: i64, y: i64) -> IVec2 {
    IVec2::new(x, y)
}

#[test]
fn rect_new_derives_bounds() {
    let r = Rect::new(10, -4, 8, 6);
    assert_eq!(r.half_width, 4);
    assert_eq!(r.half_height, 3);
    assert_eq!((r.left, r.right, r.up, r.down), (6, 14, -7, -1));
}

#[test]
fn rect_new_rounds_odd_extent_down() {
    let r = Rect::new(0, 0, 5, 3);
    assert_eq!((r.half_width, r.half_height), (2, 1));
}

#[test]
fn contains_is_half_open() {
    let r = Rect::new(0, 0, 10, 10);
    assert!(r.contains(p(0, 0)));
    assert!(r.contains(p(4, 4)));
    assert!(r.contains(p(-4, -4)));
    assert!(r.contains(p(-5, -5)));
    assert!(!r.contains(p(5, 0)));
    assert!(!r.contains(p(0, 5)));
    assert!(!r.contains(p(5, 5)));
    assert!(!r.contains(p(-6, 0)));
}

#[test]
fn empty_rect_contains_nothing() {
    let r = Rect::new(3, 3, 0, 0);
    assert!(!r.contains(p(3, 3)));
}

#[test]
fn overlap_is_closed() {
    let a = Rect::new(0, 0, 10, 10);
    let touching = Rect::new(10, 0, 10, 10);
    let apart = Rect::new(11, 0, 10, 10);
    let below = Rect::new(0, 20, 10, 10);
    assert!(a.overlap(&touching));
    assert!(touching.overlap(&a));
    assert!(!a.overlap(&apart));
    assert!(!a.overlap(&below));
    assert!(a.overlap(&a));
}

#[test]
fn entry_new_keeps_fields() {
    let e = QuadTreeEntry::new(p(3, 4), 7);
    assert_eq!(e.position, p(3, 4));
    assert_eq!(e.payload, 7);
}

fn payloads(v: &[QuadTreeEntry]) -> Vec<usize> {
    let mut r: Vec<usize> = v.iter().map(|e| e.payload).collect();
    r.sort();
    r.dedup();
    r
}

#[test]
fn empty_index_reports_nothing() {
    let t = QuadTree::new(Rect::new(0, 0, 100, 100));
    let mut out = Vec::new();
    t.query_entries(&Rect::new(0, 0, 100, 100), &mut out);
    assert!(out.is_empty());
    assert_eq!(t.regions().len(), 1);
}

#[test]
fn point_outside_root_is_dropped() {
    let mut t = QuadTree::new(Rect::new(0, 0, 100, 100));
    t.add(QuadTreeEntry::new(p(50, 0), 1));
    assert_eq!(t.regions().len(), 1);
    t.add(QuadTreeEntry::new(p(0, 0), 2));
    let mut out = Vec::new();
    t.query_entries(&Rect::new(0, 0, 400, 400), &mut out);
    assert_eq!(payloads(&out), vec![2]);
}

#[test]
fn children_sit_on_quarter_points_with_parent_extents() {
    let mut t = QuadTree::new(Rect::new(0, 0, 100, 100));
    assert_eq!(t.regions().len(), 1);
    t.add(QuadTreeEntry::new(p(1, 1), 0));
    let regions = t.regions();
    assert_eq!(regions.len(), 5);
    let centers: Vec<(i64, i64)> = regions[1..].iter().map(|r| (r.x, r.y)).collect();
    assert_eq!(centers, vec![(-25, -25), (25, -25), (-25, 25), (25, 25)]);
    for r in &regions[1..] {
        assert_eq!((r.half_width, r.half_height), (50, 50));
    }
}

#[test]
fn query_keeps_what_was_in_result() {
    let mut t = QuadTree::new(Rect::new(0, 0, 100, 100));
    t.add(QuadTreeEntry::new(p(1, 1), 4));
    let mut out = vec![QuadTreeEntry::new(p(99, 99), 9)];
    t.query_entries(&Rect::new(0, 0, 10, 10), &mut out);
    assert_eq!(out[0].payload, 9);
    assert_eq!(payloads(&out[1..]), vec![4]);
}

#[test]
fn query_reports_only_points_in_window() {
    let mut t = QuadTree::new(Rect::new(0, 0, 200, 200));
    let pts = [(-90, -90), (-10, 5), (0, 0), (30, 40), (80, -70), (99, 99)];
    for (i, (x, y)) in pts.iter().enumerate() {
        t.add(QuadTreeEntry::new(p(*x, *y), i));
    }
    let mut out = Vec::new();
    t.query_entries(&Rect::new(0, 0, 40, 40), &mut out);
    assert_eq!(payloads(&out), vec![1, 2]);
    for e in &out {
        assert!(Rect::new(0, 0, 40, 40).contains(e.position));
    }
}

#[test]
fn query_completeness_on_a_grid() {
    let area = Rect::new(0, 0, 1000, 1000);
    let mut entries = Vec::new();
    let mut k = 0usize;
    for i in 0..4i64 {
        for j in 0..3i64 {
            entries.push(QuadTreeEntry::new(p(-450 + i * 290 + j * 7, -400 + j * 380 - i * 11), k));
            k += 1;
        }
    }
    let t = QuadTree::from_entries(area, &entries);
    let windows = [
        Rect::new(0, 0, 1000, 1000),
        Rect::new(-300, -300, 400, 400),
        Rect::new(200, 100, 300, 900),
        Rect::new(-450, -400, 2, 2),
        Rect::new(100, -380, 60, 60),
    ];
    for w in windows.iter() {
        let mut out = Vec::new();
        t.query_entries(w, &mut out);
        let found = payloads(&out);
        let expected: Vec<usize> = entries
            .iter()
            .filter(|e| area.contains(e.position) && w.contains(e.position))
            .map(|e| e.payload)
            .collect();
        assert_eq!(found, expected);
    }
}

#[test]
fn equal_positions_are_all_kept() {
    let mut t = QuadTree::new(Rect::new(0, 0, 100, 100));
    for i in 0..4 {
        t.add(QuadTreeEntry::new(p(7, 7), i));
    }
    let mut out = Vec::new();
    t.query_entries(&Rect::new(7, 7, 2, 2), &mut out);
    assert_eq!(payloads(&out), vec![0, 1, 2, 3]);
}

#[test]
fn larger_buckets_split_later() {
    let mut t = QuadTree::with_capacity(Rect::new(0, 0, 100, 100), 3);
    for i in 0..2 {
        t.add(QuadTreeEntry::new(p(i as i64, 0), i));
    }
    assert_eq!(t.regions().len(), 1);
    t.add(QuadTreeEntry::new(p(2, 0), 2));
    assert_eq!(t.regions().len(), 5);
    t.add(QuadTreeEntry::new(p(10, 10), 3));
    assert_eq!(t.regions().len(), 5);
    let mut out = Vec::new();
    t.query_entries(&Rect::new(0, 0, 100, 100), &mut out);
    assert_eq!(payloads(&out), vec![0, 1, 2, 3]);
    assert_eq!(t.area(), Rect::new(0, 0, 100, 100));
}

#[test]
fn index_reaches_the_coordinate_limit() {
    let area = Rect::new(0, 0, 2 * COORD_LIMIT, 2 * COORD_LIMIT);
    let mut t = QuadTree::new(area);
    t.add(QuadTreeEntry::new(p(-COORD_LIMIT, -COORD_LIMIT), 0));
    t.add(QuadTreeEntry::new(p(COORD_LIMIT - 1, COORD_LIMIT - 1), 1));
    t.add(QuadTreeEntry::new(p(COORD_LIMIT, 0), 2));
    t.add(QuadTreeEntry::new(p(0, 0), 3));
    let mut out = Vec::new();
    t.query_entries(&area, &mut out);
    assert_eq!(payloads(&out), vec![0, 1, 3]);
}

#[test]
fn index_takes_points_beyond_the_body_range() {
    let area = Rect::new(3 * COORD_LIMIT, 0, 2 * COORD_LIMIT, 2 * COORD_LIMIT);
    let far = QuadTreeEntry::new(p(4 * COORD_LIMIT - 1, COORD_LIMIT - 1), 0);
    let near = QuadTreeEntry::new(p(2 * COORD_LIMIT, -COORD_LIMIT), 1);
    let t = QuadTree::from_entries(area, &vec![far, near, QuadTreeEntry::new(p(3 * COORD_LIMIT, 0), 2)]);
    let mut out = Vec::new();
    t.query_entries(&area, &mut out);
    assert_eq!(payloads(&out), vec![0, 1, 2]);
}
