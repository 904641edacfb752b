use uuis::database::{Criteria, CriteriaGraded, CriteriaPassFail, Inspection, InspectionScore};

fn pass_fail(state: Option<bool>) -> Criteria {
    Criteria::PassFail(CriteriaPassFail {
        category_name: "Dress".to_string(),
        description: "Shoes polished".to_string(),
        state,
    })
}

fn graded(descriptions: &[&str], state: Option<u8>) -> Criteria {
    Criteria::Graded(CriteriaGraded {
        category_name: "Drill".to_string(),
        description: descriptions.iter().map(|d| d.to_string()).collect(),
        state,
    })
}

fn inspection(criteria: Vec<Criteria>) -> Inspection {
    Inspection {
        name: "Weekly".to_string(),
        criteria,
        date: Some(1_700_000_000),
        out_of: None,
        score: None,
    }
}

#[test]
fn unmarked_pass_fail_counts_only_towards_total() {
    let i = inspection(vec![pass_fail(None)]);
    assert_eq!(i.get_score(), InspectionScore { score: 0, out_of: 1 });
}

#[test]
fn pass_fail_marked_true_and_false() {
    let i = inspection(vec![pass_fail(Some(true)), pass_fail(Some(false))]);
    assert_eq!(i.get_score(), InspectionScore { score: 1, out_of: 2 });
}

#[test]
fn graded_state_two_of_three() {
    let i = inspection(vec![graded(&["a", "b", "c"], Some(2))]);
    assert_eq!(i.get_score(), InspectionScore { score: 2, out_of: 3 });
}

#[test]
fn graded_without_state_scores_zero() {
    let i = inspection(vec![graded(&["a", "b", "c"], None)]);
    assert_eq!(i.get_score(), InspectionScore { score: 0, out_of: 3 });
}

#[test]
fn graded_state_out_of_range_scores_zero() {
    let i = inspection(vec![graded(&["a", "b", "c"], Some(3))]);
    assert_eq!(i.get_score(), InspectionScore { score: 0, out_of: 3 });
}

#[test]
fn comment_adds_nothing() {
    let i = inspection(vec![
        Criteria::Comment(Some("Good turnout".to_string())),
        Criteria::Comment(None),
    ]);
    assert_eq!(i.get_score(), InspectionScore { score: 0, out_of: 0 });
}

#[test]
fn mixed_criteria_sum() {
    let i = inspection(vec![
        pass_fail(Some(true)),
        graded(&["poor", "fair", "good", "excellent"], Some(3)),
        Criteria::Comment(None),
        pass_fail(None),
    ]);
    assert_eq!(i.get_score(), InspectionScore { score: 4, out_of: 6 });
}

#[test]
fn compute_score_twice_is_the_same() {
    let mut i = inspection(vec![pass_fail(Some(true)), graded(&["a", "b"], Some(1))]);
    i.score = Some(99);
    i.compute_score();
    let first = i.clone();
    i.compute_score();
    assert_eq!(i, first);
    assert_eq!(i.score, Some(2));
    assert_eq!(i.out_of, Some(3));
    assert_eq!(i.name, "Weekly");
    assert_eq!(i.date, Some(1_700_000_000));
}

#[test]
fn empty_inspection_scores_zero_of_zero() {
    let mut i = Inspection::default();
    assert_eq!(i.name, "");
    assert!(i.criteria.is_empty());
    i.compute_score();
    assert_eq!((i.score, i.out_of), (Some(0), Some(0)));
}

#[test]
fn totals_that_overflow_do_not_fit() {
    let big: Vec<&str> = vec!["x"; 40_000];
    let small = inspection(vec![graded(&big, Some(1))]);
    assert!(small.score_fits());
    let too_big = inspection(vec![graded(&big, Some(1)), graded(&big, Some(1))]);
    assert!(!too_big.score_fits());
}

#[test]
fn largest_total_that_fits() {
    let n: Vec<&str> = vec!["x"; 65_535];
    let i = inspection(vec![graded(&n, Some(7))]);
    assert!(i.score_fits());
    assert_eq!(i.get_score(), InspectionScore { score: 7, out_of: 65_535 });
    let over = inspection(vec![graded(&n, Some(7)), pass_fail(None)]);
    assert!(!over.score_fits());
}
