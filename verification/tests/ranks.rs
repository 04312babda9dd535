use chooser::ranking::{
    collect_matches, goes_first, rank_matches, score_candidates, score_rank, sort_matches,
    RankedMatch,
};

fn rank(score: f64) -> i64 {
    score_rank(score.to_bits())
}

fn strings(items: &[&str]) -> Vec<String> {
    items.iter().map(|s| s.to_string()).collect()
}

#[test]
fn rank_of_given_bits() {
    assert_eq!(score_rank(0), 0);
    assert_eq!(score_rank(1), 1);
    assert_eq!(score_rank(0x7ff0_0000_0000_0000), 0x7ff0_0000_0000_0000);
    assert_eq!(score_rank(0x8000_0000_0000_0000), 0);
    assert_eq!(score_rank(0x8000_0000_0000_0001), -1);
    assert_eq!(score_rank(0xfff0_0000_0000_0000), -0x7ff0_0000_0000_0000);
    assert_eq!(score_rank(u64::MAX), -i64::MAX);
}

#[test]
fn rank_orders_scores_as_numbers() {
    let scores = [
        f64::NEG_INFINITY,
        -1.0e300,
        -2.5,
        -0.02,
        -0.005,
        0.0,
        0.005,
        0.9,
        1.0,
        3.75,
        1.0e300,
        f64::INFINITY,
    ];
    for i in 0..scores.len() {
        for j in 0..scores.len() {
            assert_eq!(rank(scores[i]) < rank(scores[j]), scores[i] < scores[j]);
            assert_eq!(rank(scores[i]) == rank(scores[j]), scores[i] == scores[j]);
        }
    }
}

#[test]
fn both_zeros_rank_alike() {
    assert_eq!(rank(0.0), rank(-0.0));
}

#[test]
fn goes_first_by_score_then_by_index() {
    let high = RankedMatch { index: 5, score: 10 };
    let low = RankedMatch { index: 1, score: 3 };
    let low_later = RankedMatch { index: 2, score: 3 };
    assert!(goes_first(&high, &low));
    assert!(!goes_first(&low, &high));
    assert!(goes_first(&low, &low_later));
    assert!(!goes_first(&low_later, &low));
    assert!(goes_first(&low, &low));
}

#[test]
fn collect_keeps_candidate_order_and_drops_misses() {
    let scores = vec![Some(1.0f64.to_bits()), None, Some((-2.0f64).to_bits()), None];
    assert_eq!(
        collect_matches(&scores),
        vec![
            RankedMatch { index: 0, score: rank(1.0) },
            RankedMatch { index: 2, score: rank(-2.0) },
        ]
    );
    assert_eq!(collect_matches(&vec![]), vec![]);
    assert_eq!(collect_matches(&vec![None, None]), vec![]);
}

#[test]
fn sort_puts_higher_scores_first() {
    let items = vec![
        RankedMatch { index: 0, score: 1 },
        RankedMatch { index: 1, score: 9 },
        RankedMatch { index: 2, score: -4 },
        RankedMatch { index: 3, score: 5 },
        RankedMatch { index: 4, score: 7 },
    ];
    let sorted = sort_matches(&items);
    let indices: Vec<usize> = sorted.iter().map(|m| m.index).collect();
    assert_eq!(indices, vec![1, 4, 3, 0, 2]);
}

#[test]
fn sort_keeps_equal_scores_in_candidate_order() {
    let items = vec![
        RankedMatch { index: 0, score: 2 },
        RankedMatch { index: 1, score: 8 },
        RankedMatch { index: 2, score: 2 },
        RankedMatch { index: 3, score: 8 },
        RankedMatch { index: 4, score: 2 },
    ];
    let sorted = sort_matches(&items);
    let indices: Vec<usize> = sorted.iter().map(|m| m.index).collect();
    assert_eq!(indices, vec![1, 3, 0, 2, 4]);
}

#[test]
fn sort_of_nothing_and_of_one() {
    assert_eq!(sort_matches(&vec![]), vec![]);
    let one = vec![RankedMatch { index: 3, score: -1 }];
    assert_eq!(sort_matches(&one), one);
}

#[test]
fn sort_agrees_with_the_standard_stable_sort() {
    let mut items = Vec::new();
    let mut seed: u64 = 12345;
    for index in 0..500 {
        seed = seed.wrapping_mul(6364136223846793005).wrapping_add(1442695040888963407);
        items.push(RankedMatch { index, score: ((seed >> 33) % 40) as i64 - 20 });
    }
    let mut expected = items.clone();
    expected.sort_by(|a, b| b.score.cmp(&a.score));
    assert_eq!(sort_matches(&items), expected);
}

#[test]
fn rank_matches_from_filter_answers() {
    let scores = vec![
        Some(0.5f64.to_bits()),
        None,
        Some(f64::INFINITY.to_bits()),
        Some(0.5f64.to_bits()),
        Some(f64::NEG_INFINITY.to_bits()),
    ];
    let ranked = rank_matches(&scores);
    assert_eq!(
        ranked,
        vec![
            RankedMatch { index: 2, score: rank(f64::INFINITY) },
            RankedMatch { index: 0, score: rank(0.5) },
            RankedMatch { index: 3, score: rank(0.5) },
            RankedMatch { index: 4, score: rank(f64::NEG_INFINITY) },
        ]
    );
}

#[test]
fn filter_answers_are_those_of_the_matcher() {
    let candidates = strings(&["apple", "apricot", "banana", "ap"]);
    let scores = score_candidates("ap", &candidates);
    assert_eq!(scores.len(), 4);
    assert_eq!(scores[0], Some(rff::scorer::score("ap", "apple").to_bits()));
    assert_eq!(scores[1], Some(rff::scorer::score("ap", "apricot").to_bits()));
    assert_eq!(scores[2], None);
    assert_eq!(scores[3], Some(f64::INFINITY.to_bits()));
}

#[test]
fn filter_answers_depend_on_the_query() {
    let candidates = strings(&["apple", "banana"]);
    assert_eq!(score_candidates("b", &candidates)[0], None);
    assert!(score_candidates("b", &candidates)[1].is_some());
    assert!(score_candidates("a", &candidates)[0].is_some());
    assert_ne!(score_candidates("a", &candidates)[0], score_candidates("ap", &candidates)[0]);
}

#[test]
fn empty_query_matches_everything_with_the_lowest_score() {
    let candidates = strings(&["apple", "", "banana"]);
    let scores = score_candidates("", &candidates);
    assert_eq!(scores[0], Some(f64::NEG_INFINITY.to_bits()));
    assert_eq!(scores[2], Some(f64::NEG_INFINITY.to_bits()));
    assert!(scores[1].is_some());
}

#[test]
fn no_candidates_no_answers() {
    assert_eq!(score_candidates("xyz", &vec![]), vec![]);
}

#[test]
fn matcher_ignores_case() {
    let candidates = strings(&["Gemfile", "README"]);
    let scores = score_candidates("gem", &candidates);
    assert!(scores[0].is_some());
    assert_eq!(scores[1], None);
}
