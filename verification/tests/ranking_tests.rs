use custom_redis::commands::{SearchCommand, SgetCommand};
use custom_redis::rank::{best_of, rank, take_reaching};

fn c(score: u64, key: &str) -> (u64, String) {
    (score, key.to_string())
}

#[test]
fn rank_puts_best_first_and_keeps_ties_in_order() {
    let cands = vec![c(3, "a"), c(9, "b"), c(3, "c"), c(7, "d"), c(9, "e")];
    let r = rank(&cands);
    assert_eq!(r, vec![c(9, "b"), c(9, "e"), c(7, "d"), c(3, "a"), c(3, "c")]);
    assert_eq!(rank(&vec![]), vec![]);
}

#[test]
fn take_reaching_keeps_the_first_k_over_the_threshold() {
    let s = vec![c(9, "b"), c(2, "x"), c(7, "d"), c(5, "y"), c(6, "z")];
    assert_eq!(take_reaching(&s, 5, 2), vec![c(9, "b"), c(7, "d")]);
    assert_eq!(take_reaching(&s, 5, 10), vec![c(9, "b"), c(7, "d"), c(5, "y"), c(6, "z")]);
    assert_eq!(take_reaching(&s, 10, 3), vec![]);
    assert_eq!(take_reaching(&s, 0, 0), vec![]);
}

#[test]
fn search_results_are_ranked_then_cut() {
    let cands = vec![c(4, "a"), c(8, "b"), c(1, "c"), c(8, "d")];
    assert_eq!(SearchCommand::top(&cands, 2, 5), vec![c(8, "b"), c(8, "d"), c(4, "a")]);
    assert_eq!(SearchCommand::top(&cands, 0, 1), vec![c(8, "b")]);
    assert_eq!(SearchCommand::top(&cands, 9, 5), vec![]);
}

#[test]
fn sget_picks_the_first_best_over_the_threshold() {
    let firsts = vec![None, Some(c(5, "a")), Some(c(8, "b")), None, Some(c(8, "c")), Some(c(2, "d"))];
    assert_eq!(best_of(&firsts), Some(c(8, "b")));
    assert_eq!(SgetCommand::pick(&firsts, 8), Some("b".to_string()));
    assert_eq!(SgetCommand::pick(&firsts, 9), None);
    assert_eq!(best_of(&vec![None, None]), None);
    assert_eq!(SgetCommand::pick(&vec![], 0), None);
}

#[test]
fn sget_serves_unexpired_values_only() {
    assert!(SgetCommand::live(None, 100));
    assert!(SgetCommand::live(Some(0), 100));
    assert!(SgetCommand::live(Some(101), 100));
    assert!(!SgetCommand::live(Some(100), 100));
    assert!(!SgetCommand::live(Some(5), 100));
}
