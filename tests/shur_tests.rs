use shur::bans::BanList;
use shur::coloring::{check_coloring, num_checks, push_decimal, short, triangle, vec_from_coloring};
use shur::config::Args;
use shur::frontier::{Prefix, PrefixFrontier};
use shur::random::{
    ban_fill, extend_prefix, random_assignment, random_fill, random_with_backtrack,
    random_with_bannings,
};
use shur::search::{breadth_first, depth_first, depth_first_search, find_next_colors, SearchEnd};

fn args(colors: u8, target: usize, attempts: usize) -> Args {
    Args { colors, target, algorithm: String::from("random"), attempts }
}

fn assert_solution(v: &Vec<u8>, colors: u8, target: usize) {
    assert_eq!(v.len(), target);
    assert!(v.iter().all(|&c| c < colors));
    assert_eq!(&v[..2], &[0, 1]);
    assert!(check_coloring(v).is_ok());
}

#[test]
fn abba_is_valid() {
    let v = vec_from_coloring("abba");
    assert_eq!(v, vec![0, 1, 1, 0]);
    assert_eq!(check_coloring(&v).ok(), Some("Coloring is valid"));
}

#[test]
fn aaa_fails_at_second_position() {
    let v = vec_from_coloring("aaa");
    assert_eq!(v, vec![0, 0, 0]);
    let err = check_coloring(&v).err().unwrap();
    assert_eq!(err.index, 1);
    assert_eq!(err.message, "Invalid coloring: 1(0) + 1(0) = 2(0)");
}

#[test]
fn one_one_zero_one_fails_at_first_sum() {
    let err = check_coloring(&vec![1, 1, 0, 1]).err().unwrap();
    assert_eq!(err.index, 1);
    assert_eq!(err.message, "Invalid coloring: 1(1) + 1(1) = 2(1)");
}

#[test]
fn failure_reports_smallest_sum_and_pair() {
    // 1 + 3 = 4 is the first monochromatic triple; 2 + 2 = 4 is too.
    let err = check_coloring(&vec![0, 1, 0, 0, 1]).err().unwrap();
    assert_eq!(err.index, 3);
    assert_eq!(err.message, "Invalid coloring: 1(0) + 3(0) = 4(0)");
}

#[test]
fn failure_prefix_passes() {
    let v = vec![0, 1, 1, 0, 0, 1, 1, 0, 1];
    let err = check_coloring(&v).err().unwrap();
    for k in 0..=err.index {
        assert!(check_coloring(&v[..k].to_vec()).is_ok());
    }
}

#[test]
fn short_colorings_are_valid() {
    assert!(check_coloring(&vec![]).is_ok());
    assert!(check_coloring(&vec![3]).is_ok());
    assert!(check_coloring(&vec![0, 1]).is_ok());
}

#[test]
fn large_numbers_in_message() {
    let mut v = vec![0u8; 12];
    v[0] = 1;
    v[10] = 1;
    v[11] = 17;
    // first failure: 1 + 1 = 2 is not monochromatic (1, 1, 0), 2 + 2 = 4 is (0, 0, 0).
    let err = check_coloring(&v).err().unwrap();
    assert_eq!(err.index, 3);
    assert_eq!(err.message, "Invalid coloring: 2(0) + 2(0) = 4(0)");
    let mut s = String::from("x");
    push_decimal(&mut s, 1230);
    assert_eq!(s, "x1230");
}

#[test]
fn decode_first_seen_order() {
    assert_eq!(vec_from_coloring("cab"), vec![0, 1, 2]);
    assert_eq!(vec_from_coloring("bbaacb"), vec![0, 0, 1, 1, 2, 0]);
    assert_eq!(vec_from_coloring(""), Vec::<u8>::new());
}

#[test]
fn short_form_letters() {
    assert_eq!(short(&vec![0, 1, 1, 0]), "abba");
    assert_eq!(short(&vec![4, 3, 2, 1, 0]), "edcba");
    assert_eq!(short(&vec![]), "");
}

#[test]
fn check_counts() {
    assert_eq!(num_checks(1), 0);
    assert_eq!(num_checks(2), 1);
    assert_eq!(num_checks(3), 2);
    assert_eq!(num_checks(4), 4);
    assert_eq!(num_checks(8), 16);
    assert_eq!(num_checks(9), 20);
    assert_eq!(num_checks(0x1_0000_0000), 1u64 << 62);
    assert_eq!(triangle(4), 10);
    assert_eq!(triangle(0), 0);
}

#[test]
fn next_colors() {
    assert_eq!(find_next_colors(3, &vec![0, 1]), vec![0, 1, 2]);
    assert_eq!(find_next_colors(2, &vec![0, 1, 0]), Vec::<u8>::new());
    assert_eq!(find_next_colors(3, &vec![0, 1, 0]), vec![2]);
    assert_eq!(find_next_colors(3, &vec![0, 1, 1, 0]), vec![2]);
}

#[test]
fn ordered_search_two_positions() {
    assert_eq!(depth_first(&args(2, 2, 0)), Some(vec![0, 1]));
    assert_eq!(breadth_first(&args(2, 2, 0)), Some(vec![0, 1]));
    assert_eq!(random_with_backtrack(&args(2, 2, 1)), Some(vec![0, 1]));
}

#[test]
fn ordered_search_finds_and_exhausts() {
    assert_eq!(depth_first(&args(2, 4, 100)), Some(vec![0, 1, 1, 0]));
    // Sequences 0, 1, ... of lengths 2 and 3 over two colors: 1 + 2 = 3 steps suffice.
    assert_eq!(depth_first(&args(2, 4, 3)), Some(vec![0, 1, 1, 0]));
    assert_eq!(breadth_first(&args(2, 4, 100)), Some(vec![0, 1, 1, 0]));
    assert_eq!(breadth_first(&args(3, 8, 100)), Some(vec![0, 1, 0, 2, 0, 2, 0, 1]));
    assert_eq!(depth_first(&args(2, 5, 100)), None);
    assert_eq!(breadth_first(&args(2, 5, 100)), None);
}

#[test]
fn ordered_search_three_colors() {
    let found = breadth_first(&args(3, 13, 11)).unwrap();
    assert_solution(&found, 3, 13);
    assert_eq!(breadth_first(&args(3, 13, 10)), None);
    assert_eq!(breadth_first(&args(3, 14, 100)), None);
    let found = depth_first(&args(3, 8, 1000)).unwrap();
    assert_solution(&found, 3, 8);
    assert_eq!(found, vec![0, 1, 0, 2, 0, 2, 0, 1]);
}

#[test]
fn ordered_search_is_repeatable() {
    assert_eq!(depth_first(&args(3, 9, 1000)), depth_first(&args(3, 9, 1000)));
    assert_eq!(breadth_first(&args(3, 9, 100)), breadth_first(&args(3, 9, 100)));
}

#[test]
fn one_color_finds_nothing() {
    for target in 3..8 {
        assert_eq!(depth_first(&args(1, target, 100)), None);
        assert_eq!(breadth_first(&args(1, target, 100)), None);
        assert_eq!(random_with_backtrack(&args(1, target, 100)), None);
        assert_eq!(random_assignment(&args(1, target, 100)), None);
        assert_eq!(random_with_bannings(&args(1, target, 100)), None);
    }
}

#[test]
fn no_budget_no_result() {
    assert_eq!(random_assignment(&args(2, 4, 0)), None);
    assert_eq!(random_with_bannings(&args(2, 4, 0)), None);
    assert_eq!(random_with_backtrack(&args(2, 4, 0)), None);
}

#[test]
fn random_fill_stays_in_range() {
    let v = random_fill(3, 200);
    assert_eq!(v.len(), 200);
    assert!(v.iter().all(|&c| c < 3));
    assert!(random_fill(1, 10).iter().all(|&c| c == 0));
}

#[test]
fn random_strategies_return_valid_colorings() {
    if let Some(v) = random_assignment(&args(2, 4, 200)) {
        assert_solution(&v, 2, 4);
    }
    if let Some(v) = random_with_bannings(&args(3, 10, 200)) {
        assert_solution(&v, 3, 10);
    }
    if let Some(v) = random_with_backtrack(&args(3, 10, 2000)) {
        assert_solution(&v, 3, 10);
        assert_eq!(&v[..2], &[0, 1]);
    }
    let v = random_with_bannings(&args(2, 2, 1)).unwrap();
    assert_eq!(v, vec![0, 1]);
}

#[test]
fn ban_fill_substitutes_banned_draws() {
    // 1 + 1 = 2 bans color 0 at the second position; 2 + 2 = 4 bans 1 and
    // 1 + 3 = 4 bans 0 at the fourth, so the draw stays.
    assert_eq!(ban_fill(2, &vec![0, 0, 0, 0]), vec![0, 1, 0, 0]);
    assert_eq!(ban_fill(3, &vec![0, 0, 0, 0]), vec![0, 1, 0, 2]);
    assert_eq!(ban_fill(3, &vec![2, 1, 1, 1]), vec![2, 1, 1, 0]);
    assert_eq!(ban_fill(2, &vec![]), Vec::<u8>::new());
}

#[test]
fn ban_list_bans_later_positions_only() {
    let mut bans = BanList::new(2, 4);
    let mut w = vec![0u8];
    bans.record(&w);
    assert!(bans.is_banned(1, 0));
    assert!(!bans.is_banned(1, 1));
    assert!(!bans.is_banned(0, 0));
    assert_eq!(bans.choose_color(&w, 0), 1);
    assert_eq!(bans.choose_color(&w, 1), 1);
    w.push(1);
    bans.record(&w);
    assert!(bans.is_banned(3, 1));
    assert!(!bans.is_banned(1, 1));
    assert!(!bans.is_banned(2, 0) && !bans.is_banned(2, 1));
}

#[test]
fn frontier_takes_least_used_longest_first() {
    let mut f = PrefixFrontier::new();
    f.push(Prefix { count: 1, content: vec![0, 1, 0, 0, 1] });
    f.push(Prefix { count: 0, content: vec![0, 1, 0] });
    f.push(Prefix { count: 0, content: vec![0, 1, 0, 0] });
    assert_eq!(f.len(), 3);
    let p = f.pop_best();
    assert_eq!((p.count, p.content), (0, vec![0, 1, 0, 0]));
    let p = f.pop_best();
    assert_eq!((p.count, p.content), (0, vec![0, 1, 0]));
    let p = f.pop_best();
    assert_eq!((p.count, p.content), (1, vec![0, 1, 0, 0, 1]));
    assert_eq!(f.len(), 0);
}

#[test]
fn failed_extension_keeps_longer_valid_part() {
    let mut f = PrefixFrontier::new();
    let prefix = Prefix { count: 1, content: vec![0, 1] };
    assert_eq!(extend_prefix(&mut f, prefix, vec![0, 1, 1, 1]), None);
    assert_eq!(f.len(), 2);
    let p = f.pop_best();
    assert_eq!((p.count, p.content), (0, vec![0, 1, 1]));
    let p = f.pop_best();
    assert_eq!((p.count, p.content), (1, vec![0, 1]));

    let prefix = Prefix { count: 2, content: vec![0, 1, 1] };
    assert_eq!(extend_prefix(&mut f, prefix, vec![0, 1, 1, 1]), None);
    assert_eq!(f.len(), 1);

    let prefix = Prefix { count: 0, content: vec![0, 1] };
    assert_eq!(extend_prefix(&mut f, prefix, vec![0, 1, 1, 0]), Some(vec![0, 1, 1, 0]));
    assert_eq!(f.len(), 1);
}

#[test]
fn same_draws_same_coloring() {
    let draws = random_fill(3, 30);
    assert_eq!(ban_fill(3, &draws), ban_fill(3, &draws));
}

#[test]
fn random_strategies_two_positions() {
    assert_eq!(random_assignment(&args(2, 2, 1)), Some(vec![0, 1]));
    assert_eq!(random_with_bannings(&args(3, 2, 1)), Some(vec![0, 1]));
    assert_eq!(random_assignment(&args(1, 2, 5)), None);
    assert_eq!(random_with_bannings(&args(1, 2, 5)), None);
    assert_eq!(depth_first(&args(1, 2, 5)), None);
    assert_eq!(breadth_first(&args(1, 2, 5)), None);
}

#[test]
fn random_colorings_start_with_zero_one() {
    for _ in 0..20 {
        if let Some(v) = random_assignment(&args(3, 6, 50)) {
            assert_solution(&v, 3, 6);
        }
        if let Some(v) = random_with_bannings(&args(3, 8, 50)) {
            assert_solution(&v, 3, 8);
        }
    }
}

#[test]
fn exhausted_search_is_reported() {
    assert!(matches!(depth_first_search(&args(2, 5, 100)), SearchEnd::Exhausted));
    assert!(matches!(depth_first_search(&args(3, 12, 2)), SearchEnd::BudgetSpent));
    match depth_first_search(&args(2, 4, 100)) {
        SearchEnd::Found(v) => assert_solution(&v, 2, 4),
        _ => panic!("expected a coloring"),
    }
}
