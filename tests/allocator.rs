use buddy::frame::Frame;
use buddy::inplace_list::Node;
use buddy::memory_map::MemoryMapEntry;
use buddy::single::{Single, MIN_SIZE, PAGE_SIZE};

const BASE: usize = 0x20_0000;

fn snapshot(s: &Single) -> Vec<Vec<usize>> {
    (0..s.height()).map(|l| s.free_blocks(l)).collect()
}

fn free_pages(s: &Single) -> usize {
    (0..s.height()).map(|l| (1usize << l) * s.free_blocks(l).len()).sum()
}

#[test]
fn eight_pages_start_as_one_block() {
    let s = Single::with_page_count(BASE, 8);
    assert_eq!(s.height(), 4);
    assert_eq!(s.pages(), 8);
    assert_eq!(s.first_page(), BASE);
    assert_eq!(s.free_blocks(3), vec![0]);
    assert!(s.free_blocks(0).is_empty());
    assert!(s.free_blocks(1).is_empty());
    assert!(s.free_blocks(2).is_empty());
}

#[test]
fn scenario_split_and_merge_back() {
    let mut s = Single::with_page_count(BASE, 8);
    let a = s.allocate(0);
    assert_eq!(a, Some(BASE));
    assert_eq!(s.free_blocks(0), vec![1]);
    assert_eq!(s.free_blocks(1), vec![2]);
    assert_eq!(s.free_blocks(2), vec![4]);
    assert!(s.free_blocks(3).is_empty());
    assert!(s.is_occupied(0));

    let b = s.allocate(0);
    assert_eq!(b, Some(BASE + PAGE_SIZE));
    assert!(s.free_blocks(0).is_empty());
    assert_eq!(s.free_blocks(1), vec![2]);
    assert_eq!(s.free_blocks(2), vec![4]);

    s.deallocate(BASE);
    s.deallocate(BASE + PAGE_SIZE);
    assert_eq!(s.free_blocks(3), vec![0]);
    assert!(s.free_blocks(0).is_empty());
    assert!(s.free_blocks(1).is_empty());
    assert!(s.free_blocks(2).is_empty());
}

#[test]
fn nine_pages_leave_a_single_page() {
    let s = Single::with_page_count(BASE, 9);
    assert_eq!(s.height(), 4);
    assert_eq!(s.free_blocks(3), vec![0]);
    assert_eq!(s.free_blocks(0), vec![8]);
    assert_eq!(free_pages(&s), 9);
}

#[test]
fn height_is_floor_log2_plus_one() {
    assert_eq!(Single::with_page_count(BASE, 1).height(), 1);
    assert_eq!(Single::with_page_count(BASE, 3).height(), 2);
    assert_eq!(Single::with_page_count(BASE, 16).height(), 5);
    assert_eq!(Single::with_page_count(BASE, 31).height(), 5);
}

#[test]
fn conservation_through_a_sequence() {
    let mut s = Single::with_page_count(BASE, 13);
    assert_eq!(free_pages(&s), 13);
    let mut used = 0;
    let mut out = Vec::new();
    for lvl in [0usize, 2, 1, 0, 0] {
        let a = s.allocate(lvl).unwrap();
        used += 1 << lvl;
        out.push(a);
        assert_eq!(free_pages(&s) + used, 13);
    }
    for (a, lvl) in out.iter().zip([0usize, 2, 1, 0, 0]) {
        s.deallocate(*a);
        used -= 1 << lvl;
        assert_eq!(free_pages(&s) + used, 13);
    }
    assert_eq!(used, 0);
}

#[test]
fn allocations_are_aligned_to_their_size() {
    let mut s = Single::with_page_count(BASE, 32);
    for lvl in [0usize, 3, 1, 2, 0, 4] {
        let a = s.allocate(lvl).unwrap();
        assert_eq!((a - BASE) % ((1 << lvl) * PAGE_SIZE), 0);
        assert!(a + (1 << lvl) * PAGE_SIZE <= BASE + 32 * PAGE_SIZE);
    }
}

#[test]
fn outstanding_blocks_do_not_overlap() {
    let mut s = Single::with_page_count(BASE, 20);
    let mut blocks = Vec::new();
    for lvl in [1usize, 0, 2, 0, 3, 1] {
        if let Some(a) = s.allocate(lvl) {
            blocks.push((a, a + (1 << lvl) * PAGE_SIZE));
        }
    }
    assert!(blocks.len() >= 5);
    for (i, x) in blocks.iter().enumerate() {
        for y in blocks.iter().skip(i + 1) {
            assert!(x.1 <= y.0 || y.1 <= x.0);
        }
    }
}

#[test]
fn allocate_then_free_restores_lists() {
    let mut s = Single::with_page_count(BASE, 23);
    let first = s.allocate(1).unwrap();
    for lvl in 0..s.height() {
        let before = snapshot(&s);
        if let Some(a) = s.allocate(lvl) {
            s.deallocate(a);
            assert_eq!(snapshot(&s), before);
        }
    }
    s.deallocate(first);
}

#[test]
fn every_page_taken_leaves_nothing() {
    let mut s = Single::with_page_count(BASE, 8);
    let mut seen = Vec::new();
    for _ in 0..8 {
        let a = s.allocate(0).unwrap();
        assert!(!seen.contains(&a));
        seen.push(a);
    }
    for lvl in 0..4 {
        assert_eq!(s.allocate(lvl), None);
    }
}

#[test]
fn level_beyond_height_fails() {
    let mut s = Single::with_page_count(BASE, 8);
    assert_eq!(s.allocate(4), None);
    assert_eq!(s.allocate(40), None);
    assert_eq!(s.free_blocks(3), vec![0]);
}

#[test]
fn fragmentation_makes_large_requests_fail() {
    let mut s = Single::with_page_count(BASE, 4);
    let a = s.allocate(0).unwrap();
    assert_eq!(s.allocate(2), None);
    assert!(s.allocate(1).is_some());
    s.deallocate(a);
    assert!(s.free_blocks(0).is_empty());
    assert_eq!(s.free_blocks(1), vec![0]);
}

#[test]
fn region_unavailable_or_small_is_refused() {
    let e = MemoryMapEntry::new(0x10_0000, 0x10_0000 + 64 * PAGE_SIZE, false);
    assert!(Single::new(&e).is_none());
    let e = MemoryMapEntry::new(0x10_0000, 0x10_0000 + MIN_SIZE - 1, true);
    assert!(Single::new(&e).is_none());
    let e = MemoryMapEntry::new(0x10_0000 + 64 * PAGE_SIZE, 0x10_0000, true);
    assert!(Single::new(&e).is_none());
}

#[test]
fn region_is_carved_into_header_nodes_and_pages() {
    let start = 0x10_0003;
    let end = 0x10_0000 + 64 * PAGE_SIZE + 17;
    let e = MemoryMapEntry::new(start, end, true);
    let s = Single::new(&e).unwrap();
    let begin = 0x10_0008;
    let end_page = 0x10_0000 + 64 * PAGE_SIZE;
    let header = std::mem::size_of::<Single>();
    let node = std::mem::size_of::<Node<Frame>>();
    let cnt = (end_page - begin - header) / (PAGE_SIZE + node);
    assert_eq!(s.pages(), cnt);
    assert_eq!(s.first_page(), end_page - cnt * PAGE_SIZE);
    assert!(begin + header + cnt * node <= s.first_page());
    let expected_height = (usize::BITS - cnt.leading_zeros()) as usize;
    assert_eq!(s.height(), expected_height);
    assert_eq!(free_pages(&s), cnt);
}

#[test]
fn region_allocations_stay_inside() {
    let e = MemoryMapEntry::new(0x40_0000, 0x40_0000 + 40 * PAGE_SIZE, true);
    let mut s = Single::new(&e).unwrap();
    let end = s.first_page() + s.pages() * PAGE_SIZE;
    assert!(end <= 0x40_0000 + 40 * PAGE_SIZE);
    while let Some(a) = s.allocate(0) {
        assert!(a >= s.first_page() && a + PAGE_SIZE <= end);
    }
}

#[test]
fn order_of_two_frees_does_not_matter() {
    let mut s1 = Single::with_page_count(BASE, 27);
    let mut s2 = Single::with_page_count(BASE, 27);
    let a1 = s1.allocate(1).unwrap();
    let b1 = s1.allocate(0).unwrap();
    let a2 = s2.allocate(1).unwrap();
    let b2 = s2.allocate(0).unwrap();
    s1.deallocate(a1);
    s1.deallocate(b1);
    s2.deallocate(b2);
    s2.deallocate(a2);
    let sets = |s: &Single| -> Vec<Vec<usize>> {
        snapshot(s).into_iter().map(|mut v| { v.sort(); v }).collect()
    };
    assert_eq!(sets(&s1), sets(&s2));
    assert_eq!(sets(&s1), sets(&Single::with_page_count(BASE, 27)));
}

#[test]
fn construction_is_the_binary_decomposition() {
    for cnt in 1usize..70 {
        let s = Single::with_page_count(BASE, cnt);
        for j in 0..s.height() {
            if cnt & (1 << j) != 0 {
                assert_eq!(s.free_blocks(j), vec![cnt & !((1 << (j + 1)) - 1)]);
            } else {
                assert!(s.free_blocks(j).is_empty());
            }
        }
    }
}

#[test]
fn header_and_node_fit_in_a_page() {
    assert!(std::mem::size_of::<Single>() <= PAGE_SIZE);
    assert!(std::mem::size_of::<Node<Frame>>() <= PAGE_SIZE);
}

#[test]
fn smallest_accepted_region_has_three_pages() {
    let e = MemoryMapEntry::new(0x10_0000, 0x10_0000 + MIN_SIZE, true);
    let s = Single::new(&e).unwrap();
    assert!(s.pages() >= 3);
}
