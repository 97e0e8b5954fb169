use dancing_datacollection::skating::{
    calculate_dance_ranks, calculate_final_ranks, verify_wdsf_score, DanceMarks,
};
use dancing_datacollection::models::WDSFScore;

fn marks(judges: Vec<&str>, bibs: Vec<u32>, rows: Vec<Vec<u32>>) -> DanceMarks {
    DanceMarks {
        judges: judges.into_iter().map(|s| s.to_string()).collect(),
        bibs,
        marks: rows,
    }
}

fn rank_of(res: &Vec<(u32, u32)>, bib: u32) -> u32 {
    for &(b, r) in res.iter() {
        if b == bib {
            return r;
        }
    }
    panic!("bib not ranked");
}

#[test]
fn test_rule_5_simple() {
    let dm = marks(
        vec!["A", "B", "C"],
        vec![101, 102],
        vec![vec![1, 2], vec![1, 2], vec![1, 2]],
    );
    let ranks = calculate_dance_ranks(&dm);
    assert_eq!(rank_of(&ranks, 101), 1);
    assert_eq!(rank_of(&ranks, 102), 2);
}

#[test]
fn test_rule_7_majority_size() {
    let dm = marks(
        vec!["A", "B", "C", "D", "E"],
        vec![101, 102],
        vec![vec![1, 2], vec![1, 1], vec![1, 1], vec![2, 2], vec![2, 2]],
    );
    let ranks = calculate_dance_ranks(&dm);
    assert_eq!(rank_of(&ranks, 101), 1);
    assert_eq!(rank_of(&ranks, 102), 2);
}

#[test]
fn test_rule_8_sum_of_marks() {
    let dm = marks(
        vec!["A", "B", "C", "D", "E"],
        vec![101, 102],
        vec![vec![1, 1], vec![1, 2], vec![2, 2], vec![2, 2], vec![3, 3]],
    );
    let ranks = calculate_dance_ranks(&dm);
    assert_eq!(rank_of(&ranks, 101), 1);
    assert_eq!(rank_of(&ranks, 102), 2);
}

#[test]
fn test_unbreakable_tie() {
    let dm = marks(
        vec!["A", "B", "C"],
        vec![101, 102],
        vec![vec![1, 1], vec![1, 1], vec![1, 1]],
    );
    let ranks = calculate_dance_ranks(&dm);
    assert_eq!(rank_of(&ranks, 101), 1);
    assert_eq!(rank_of(&ranks, 102), 1);
}

#[test]
fn test_rule_10_11_final_tie() {
    let bibs = vec![101, 102];
    // Slow waltz ranks 101 first, tango ranks 102 first.
    let dance_ranks = vec![vec![1, 2], vec![2, 1]];
    let all_marks = Some(vec![
        vec![vec![1, 2], vec![1, 2], vec![1, 2]],
        vec![vec![2, 1], vec![2, 1], vec![2, 1]],
    ]);
    let final_ranks = calculate_final_ranks(&bibs, &dance_ranks, &all_marks);
    let r101 = rank_of(&final_ranks, 101);
    assert!(r101 == 1 || r101 == 2);
}

#[test]
fn test_wdsf_verify() {
    // Category scores 8.5, 8.0, 8.5, 9.0 in thousandths of a point.
    let score = WDSFScore {
        technical_quality: 8500,
        movement_to_music: 8000,
        partnering_skills: 8500,
        choreography: 9000,
        total: 8500,
    };
    assert!(verify_wdsf_score(&score));
    let bad_score = WDSFScore {
        technical_quality: 8500,
        movement_to_music: 8000,
        partnering_skills: 8500,
        choreography: 9000,
        total: 9500,
    };
    assert!(!verify_wdsf_score(&bad_score));
}

#[test]
fn test_wdsf_zero_total_passes() {
    let score = WDSFScore {
        technical_quality: 8500,
        movement_to_music: 8000,
        partnering_skills: 8500,
        choreography: 9000,
        total: 0,
    };
    assert!(verify_wdsf_score(&score));
}

#[test]
fn test_wdsf_sum_convention() {
    // Reported total as straight sum of the categories.
    let score = WDSFScore {
        technical_quality: 8500,
        movement_to_music: 8000,
        partnering_skills: 8500,
        choreography: 9000,
        total: 34000,
    };
    assert!(verify_wdsf_score(&score));
}

#[test]
fn test_skip_style_ranking_with_tie_block() {
    // Two entrants tied at the top share place 1; the next entrant
    // resumes at place 3, so the numbers 1..=3 are exactly covered.
    let dm = marks(
        vec!["A", "B", "C"],
        vec![101, 102, 103],
        vec![vec![1, 1, 3], vec![1, 1, 3], vec![1, 1, 3]],
    );
    let ranks = calculate_dance_ranks(&dm);
    assert_eq!(rank_of(&ranks, 101), 1);
    assert_eq!(rank_of(&ranks, 102), 1);
    assert_eq!(rank_of(&ranks, 103), 3);
}

#[test]
fn test_rank_idempotence() {
    // Identical input gives identical output, call after call.
    let dm = marks(
        vec!["A", "B", "C"],
        vec![101, 102, 103],
        vec![vec![1, 2, 3], vec![2, 1, 3], vec![1, 3, 2]],
    );
    let first = calculate_dance_ranks(&dm);
    let second = calculate_dance_ranks(&dm);
    assert_eq!(first, second);
    let bibs = vec![101, 102, 103];
    let dr = vec![vec![1, 2, 3], vec![1, 2, 3]];
    let ms = Some(vec![
        vec![vec![1, 2, 3], vec![1, 2, 3], vec![1, 2, 3]],
        vec![vec![1, 2, 3], vec![1, 2, 3], vec![1, 2, 3]],
    ]);
    let f1 = calculate_final_ranks(&bibs, &dr, &ms);
    let f2 = calculate_final_ranks(&bibs, &dr, &ms);
    assert_eq!(f1, f2);
}

#[test]
fn test_majority_monotonicity_example() {
    // Judge by judge, 102 is placed strictly ahead of 101, so 102
    // cannot rank behind 101.
    let dm = marks(
        vec!["A", "B", "C"],
        vec![101, 102, 103],
        vec![vec![3, 1, 2], vec![2, 1, 3], vec![3, 2, 1]],
    );
    let ranks = calculate_dance_ranks(&dm);
    assert!(rank_of(&ranks, 102) <= rank_of(&ranks, 101));
}

#[test]
fn test_unbreakable_tie_overall() {
    // Identical placements for 101 and 102 on both dances keep them
    // equal in the overall ranking too.
    let bibs = vec![101, 102, 103];
    let dance_ranks = vec![vec![1, 1, 3], vec![1, 1, 3]];
    let all_marks = Some(vec![
        vec![vec![1, 1, 3], vec![1, 1, 3], vec![1, 1, 3]],
        vec![vec![1, 1, 3], vec![1, 1, 3], vec![1, 1, 3]],
    ]);
    let final_ranks = calculate_final_ranks(&bibs, &dance_ranks, &all_marks);
    assert_eq!(rank_of(&final_ranks, 101), rank_of(&final_ranks, 102));
    assert_eq!(rank_of(&final_ranks, 103), 3);
}

#[test]
fn test_rule_11_breaks_equal_sums() {
    // Equal sums of 3: 101 took places 1 and 2, 102 took 1 and 2 as
    // well but from fewer judges at threshold 1.
    let bibs = vec![101, 102];
    let dance_ranks = vec![vec![1, 2], vec![2, 1]];
    // Pooled marks of 101: 1,1,2 | 2,2,1; of 102: 2,2,1 | 1,1,2 -- a
    // dead heat; instead give 101 more first places overall.
    let all_marks = Some(vec![
        vec![vec![1, 2], vec![1, 2], vec![2, 1]],
        vec![vec![2, 1], vec![1, 2], vec![1, 2]],
    ]);
    let final_ranks = calculate_final_ranks(&bibs, &dance_ranks, &all_marks);
    // 101 pooled: 1,1,2,2,1,1 -- four firsts; 102 pooled: 2,2,1,1,2,2
    // -- two firsts.  Rule 11 separates them at threshold 1.
    assert_eq!(rank_of(&final_ranks, 101), 1);
    assert_eq!(rank_of(&final_ranks, 102), 2);
}

#[test]
fn test_empty_panel_gives_no_ranks() {
    let dm = marks(vec![], vec![101, 102], vec![]);
    let ranks = calculate_dance_ranks(&dm);
    assert!(ranks.is_empty());
}
