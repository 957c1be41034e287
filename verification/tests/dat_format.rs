use airfoil_panel::dat::{coord_tokens, plan_contour, split_dat, DatError, LineClass};

fn pair(x_near_zero: bool, exceeds_two: bool) -> LineClass {
    LineClass { is_pair: true, x_near_zero, exceeds_two }
}

fn other() -> LineClass {
    LineClass { is_pair: false, x_near_zero: false, exceeds_two: false }
}

#[test]
fn empty_text_is_refused() {
    assert!(matches!(split_dat(""), Err(DatError::EmptyFile)));
}

#[test]
fn a_single_line_ending_still_gives_a_name() {
    let t = split_dat("\n").ok().unwrap();
    assert_eq!(t.name, "");
    assert!(t.data.is_empty());
}

#[test]
fn name_is_trimmed_first_line() {
    let t = split_dat("  NACA 2412  \n1.0 0.0\n").ok().unwrap();
    assert_eq!(t.name, "NACA 2412");
    assert_eq!(t.data, vec!["1.0 0.0".to_string()]);
}

#[test]
fn blank_and_comment_lines_are_dropped() {
    let raw = "Foil\n\n# a comment\n  ! another\n   \n 1.0  0.0 \n0.5 0.1\r\n\t0.0 0.0\n";
    let t = split_dat(raw).ok().unwrap();
    assert_eq!(t.name, "Foil");
    assert_eq!(
        t.data,
        vec!["1.0  0.0".to_string(), "0.5 0.1".to_string(), "0.0 0.0".to_string()]
    );
}

#[test]
fn crlf_lines_and_missing_final_newline() {
    let t = split_dat("Name\r\n1 2\r\n3 4").ok().unwrap();
    assert_eq!(t.name, "Name");
    assert_eq!(t.data, vec!["1 2".to_string(), "3 4".to_string()]);
}

#[test]
fn data_lines_are_clean() {
    let t = split_dat("n\n a \n#x\n\u{3000}b c\u{a0}\n").ok().unwrap();
    for d in &t.data {
        assert!(!d.is_empty());
        assert!(!d.starts_with('#') && !d.starts_with('!'));
        assert_eq!(d.trim(), d.as_str());
    }
    assert_eq!(t.data, vec!["a".to_string(), "b c".to_string()]);
}

#[test]
fn two_tokens_make_a_pair() {
    assert_eq!(coord_tokens("1.0 0.5"), Some(("1.0".to_string(), "0.5".to_string())));
    assert_eq!(coord_tokens("\t 61.  \t 60. "), Some(("61.".to_string(), "60.".to_string())));
}

#[test]
fn other_token_counts_are_not_pairs() {
    assert_eq!(coord_tokens(""), None);
    assert_eq!(coord_tokens("   "), None);
    assert_eq!(coord_tokens("1.0"), None);
    assert_eq!(coord_tokens("1.0 2.0 3.0"), None);
}

#[test]
fn tokens_do_not_depend_on_trimming() {
    for line in ["  1 2  ", "1 2", "\u{2003}1\u{2003}2\u{2003}", "1 2 3 "] {
        assert_eq!(coord_tokens(line), coord_tokens(line.trim()));
    }
}

#[test]
fn selig_contour_keeps_file_order() {
    let ls = vec![pair(false, false), other(), pair(true, false), pair(false, false)];
    let p = plan_contour(&ls, 3).ok().unwrap();
    assert!(!p.lednicer);
    assert_eq!(p.order, vec![0, 2, 3]);
}

#[test]
fn selig_with_too_few_points() {
    let ls = vec![pair(false, false), other(), pair(false, false)];
    assert!(matches!(plan_contour(&ls, 3), Err(DatError::TooFewPoints)));
    assert!(plan_contour(&ls, 2).is_ok());
    assert!(matches!(plan_contour(&vec![], 1), Err(DatError::TooFewPoints)));
}

#[test]
fn lednicer_contour_runs_te_upper_le_lower_te() {
    // count line, upper 0.0 0.5 1.0, lower 0.0 0.5 1.0
    let ls = vec![
        pair(false, true),
        pair(true, false),
        pair(false, false),
        pair(false, false),
        pair(true, false),
        pair(false, false),
        pair(false, false),
    ];
    let p = plan_contour(&ls, 3).ok().unwrap();
    assert!(p.lednicer);
    assert_eq!(p.order, vec![3, 2, 1, 5, 6]);
}

#[test]
fn lednicer_skips_lines_that_are_not_pairs() {
    let ls = vec![pair(false, true), pair(true, false), other(), pair(false, false), pair(true, false), pair(false, false)];
    let p = plan_contour(&ls, 1).ok().unwrap();
    assert_eq!(p.order, vec![3, 1, 5]);
}

#[test]
fn lednicer_without_lower_surface() {
    let ls = vec![pair(false, true), pair(true, false), pair(false, false)];
    assert!(matches!(plan_contour(&ls, 1), Err(DatError::NoLowerSurface)));
    let ls = vec![pair(false, true)];
    assert!(matches!(plan_contour(&ls, 1), Err(DatError::NoLowerSurface)));
}

#[test]
fn count_line_must_be_a_pair_above_two() {
    // first data line not a pair: Selig, even if flagged
    let ls = vec![
        LineClass { is_pair: false, x_near_zero: false, exceeds_two: true },
        pair(false, false),
        pair(true, false),
        pair(false, false),
    ];
    let p = plan_contour(&ls, 3).ok().unwrap();
    assert!(!p.lednicer);
    assert_eq!(p.order, vec![1, 2, 3]);
}

#[test]
fn contour_uses_each_line_once() {
    let ls = vec![
        pair(false, true),
        pair(true, false),
        pair(false, false),
        other(),
        pair(false, false),
        pair(true, false),
        pair(false, false),
        pair(true, false),
    ];
    let p = plan_contour(&ls, 1).ok().unwrap();
    let mut seen = p.order.clone();
    seen.sort();
    seen.dedup();
    assert_eq!(seen.len(), p.order.len());
    assert!(p.order.iter().all(|&k| k != 0 && ls[k].is_pair));
    // 6 coordinate lines after the count line, one of them the repeated leading edge
    assert_eq!(p.order.len(), 5);
    assert_eq!(p.order, vec![4, 2, 1, 6, 7]);
}
