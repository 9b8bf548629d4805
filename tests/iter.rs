use blackrock2::generator::BlackRockGenerator;
use blackrock2::iter::to_ip;
use blackrock2::{BlackRockIpGenerator, BlackRockIter};

#[test]
fn empty_on_zero() {
    assert!(BlackRockIter::new(0).next().is_none());
}

#[test]
fn test_ranges() {
    for range in 0..100 {
        let mut cnt = vec![false; range as usize];
        let mut it = BlackRockIter::new(range);
        while let Some(rnd) = it.next() {
            if std::mem::replace(&mut cnt[rnd as usize], true) {
                panic!("Duplicate range!")
            }
        }
    }
}

#[test]
fn empty_on_zero_from_back_and_default() {
    assert!(BlackRockIter::new(0).next_back().is_none());
    assert!(BlackRockIter::with_seed(0, 3).nth(0).is_none());
    assert!(BlackRockIter::default().next().is_none());
    assert_eq!(BlackRockIter::default().count(), 0);
}

#[test]
fn forward_and_backward_follow_shuffle() {
    let g = BlackRockGenerator::with_seed_and_rounds(10, 0, 3);
    let mut it = BlackRockIter::with_seed_and_rounds(10, 0, 3);
    assert_eq!(it.size_hint(), (10, Some(10)));
    assert_eq!(it.next(), Some(g.shuffle(0)));
    assert_eq!(it.next(), Some(4));
    assert_eq!(it.next_back(), Some(9));
    assert_eq!(it.next_back(), Some(g.shuffle(8)));
    assert_eq!(it.size_hint(), (6, Some(6)));
    assert_eq!(it.nth(2), Some(g.shuffle(4)));
    assert_eq!(it.nth_back(1), Some(g.shuffle(6)));
    assert_eq!(it.count(), 1);
}

#[test]
fn nth_past_the_end_exhausts() {
    let mut it = BlackRockIter::with_seed(10, 0);
    assert_eq!(it.nth(10), None);
    assert_eq!(it.next(), None);
    assert_eq!(it.next_back(), None);
    let mut it = BlackRockIter::with_seed(10, 0);
    assert_eq!(it.nth_back(10), None);
    assert_eq!(it.next(), None);
    let mut it = BlackRockIter::with_seed(10, 0);
    assert_eq!(it.nth(9), Some(9));
    assert_eq!(it.next(), None);
}

#[test]
fn with_rounds_enumerates_everything() {
    let mut it = BlackRockIter::with_rounds(50, 2);
    let mut seen = vec![false; 50];
    let mut n = 0;
    while let Some(x) = it.next_back() {
        assert!(!seen[x as usize]);
        seen[x as usize] = true;
        n += 1;
    }
    assert_eq!(n, 50);
}

#[test]
fn octets_in_network_order() {
    assert_eq!(to_ip(0x0102_0304), [1, 2, 3, 4]);
    assert_eq!(to_ip(0), [0, 0, 0, 0]);
    assert_eq!(to_ip(0xffff_ffff), [255, 255, 255, 255]);
    assert_eq!(to_ip(0xc0a8_0001), [192, 168, 0, 1]);
}

#[test]
fn address_cursor_walks_addresses() {
    let mut ips = BlackRockIpGenerator::new();
    assert_eq!(ips.size_hint(), (1 << 32, Some(1 << 32)));
    let a = ips.next().unwrap();
    let b = ips.next_back().unwrap();
    let c = ips.nth(5).unwrap();
    let d = ips.nth_back(5).unwrap();
    assert!(a != b && a != c && a != d && b != c && b != d && c != d);
    assert_eq!(ips.count(), (1usize << 32) - 14);
    let _ = BlackRockIpGenerator::default();
}
