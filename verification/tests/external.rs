use potoroo::external::{parse_h_reply, parse_initial_h, truncate, FdHeuristic, HResult};

#[test]
fn parses_matching_initial_value() {
    let out = "\
Parsing...
Initial heuristic value for ff: 12
f = 12 [1 evaluated, 0 expanded, t=0.0s]
Solution found!
";
    assert_eq!(
        parse_initial_h(out, FdHeuristic::Ff),
        Some(HResult::Finite(12))
    );
}

#[test]
fn parses_lmcut_among_other_lines() {
    let out = "\
Initial heuristic value for lmcut: 7
New best heuristic value for lmcut: 5
";
    assert_eq!(
        parse_initial_h(out, FdHeuristic::LmCut),
        Some(HResult::Finite(7))
    );
}

#[test]
fn parses_infinity() {
    let out = "Initial heuristic value for ff: infinity\n";
    assert_eq!(parse_initial_h(out, FdHeuristic::Ff), Some(HResult::Infinite));
}

#[test]
fn zero_is_finite_goal_reached() {
    let out = "Initial heuristic value for hmax: 0\n";
    assert_eq!(
        parse_initial_h(out, FdHeuristic::HMax),
        Some(HResult::Finite(0))
    );
}

#[test]
fn unsolvable_without_value_is_infinite() {
    let out = "Building causal graph...\nCompletely explored state space -- no solution!\n";
    assert_eq!(parse_initial_h(out, FdHeuristic::Ff), Some(HResult::Infinite));
}

#[test]
fn unrelated_output_fails_to_parse() {
    let out = "Parsing...\nDone.\n";
    assert_eq!(parse_initial_h(out, FdHeuristic::Ff), None);
}

#[test]
fn name_mismatch_falls_back() {
    // Older FD might print a different name; we still recover the value.
    let out = "Initial heuristic value for h^add: 4\n";
    assert_eq!(
        parse_initial_h(out, FdHeuristic::HAdd),
        Some(HResult::Finite(4))
    );
}

#[test]
fn a_long_output_is_cut_by_bytes() {
    assert_eq!(truncate("abc", 3), "abc");
    assert_eq!(truncate("abcd", 3), "abc…(truncated)");
    assert_eq!(truncate("éé", 4), "éé");
    assert_eq!(truncate("ééé", 4), "éé…(truncated)");
}

#[test]
fn replies_hold_decimal_values() {
    assert_eq!(parse_h_reply("HRESULT 12\n"), Some(HResult::Finite(12)));
    assert_eq!(parse_h_reply("HRESULT 3.5"), Some(HResult::Fraction(3_500_000_000)));
    assert_eq!(parse_h_reply("HRESULT 4.0"), Some(HResult::Finite(4)));
    assert_eq!(parse_h_reply("  HRESULT  +1e1 "), Some(HResult::Finite(10)));
    assert_eq!(parse_h_reply("HRESULT -1"), Some(HResult::Finite(-1)));
    assert_eq!(parse_h_reply("HRESULT -0.25"), Some(HResult::Fraction(-250_000_000)));
    assert_eq!(parse_h_reply("HRESULT INF"), Some(HResult::Infinite));
    assert_eq!(parse_h_reply("HRESULT none"), Some(HResult::Infinite));
    assert_eq!(parse_h_reply("[t=0.1s] evaluating"), None);
}
