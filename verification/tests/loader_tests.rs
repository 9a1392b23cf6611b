use lune_modules::loader::Loader;
use lune_modules::loader_model::{Decision, Outcome};

#[test]
fn two_requires_one_execution_same_result() {
    let mut loader = Loader::new();
    assert_eq!(loader.require("/p/m.luau", 1, None), Decision::Start);
    assert_eq!(loader.require("/p/m.luau", 2, None), Decision::Wait);
    assert_eq!(loader.require("/p/m.luau", 3, None), Decision::Wait);
    assert!(loader.is_loading("/p/m.luau"));
    assert_eq!(loader.current_location(), Some("/p/m.luau".to_string()));
    let waiting = loader.finish("/p/m.luau", Outcome::Returned(Some(77)));
    assert_eq!(waiting, vec![2, 3]);
    assert!(!loader.is_loading("/p/m.luau"));
    assert_eq!(loader.cached_value("/p/m.luau"), Some(Some(77)));
    assert_eq!(loader.require("/p/m.luau", 4, None), Decision::Cached(Some(77)));
    assert_eq!(loader.current_location(), None);
}

#[test]
fn failure_reaches_every_subscriber_and_does_not_stick() {
    let mut loader = Loader::new();
    assert_eq!(loader.require("/p/bad.luau", 1, None), Decision::Start);
    assert_eq!(loader.require("/p/bad.luau", 2, None), Decision::Wait);
    assert_eq!(loader.finish("/p/bad.luau", Outcome::Failed(5)), vec![2]);
    assert_eq!(loader.cached_value("/p/bad.luau"), None);
    assert!(!loader.is_loading("/p/bad.luau"));
    assert_eq!(loader.require("/p/bad.luau", 3, None), Decision::Start);
}

#[test]
fn module_without_a_value_is_run_once() {
    let mut loader = Loader::new();
    assert_eq!(loader.require("/p/m.luau", 1, None), Decision::Start);
    assert_eq!(loader.require("/p/m.luau", 2, None), Decision::Wait);
    assert_eq!(loader.finish("/p/m.luau", Outcome::Returned(None)), vec![2]);
    assert_eq!(loader.cached_value("/p/m.luau"), Some(None));
    assert_eq!(loader.require("/p/m.luau", 1, None), Decision::Cached(None));
    assert_eq!(loader.require("/p/m.luau", 3, Some("/p/other.luau")), Decision::Cached(None));
    assert!(!loader.is_loading("/p/m.luau"));
}

#[test]
fn first_value_stays_cached() {
    let mut loader = Loader::new();
    loader.require("/p/m.luau", 1, None);
    loader.finish("/p/m.luau", Outcome::Returned(Some(1)));
    assert_eq!(loader.cached_value("/p/m.luau"), Some(Some(1)));
    loader.require("/p/other.luau", 1, None);
    loader.finish("/p/other.luau", Outcome::Returned(Some(2)));
    assert_eq!(loader.cached_value("/p/m.luau"), Some(Some(1)));
    assert_eq!(loader.cached_value("/p/other.luau"), Some(Some(2)));
}

#[test]
fn finish_without_a_load_changes_nothing() {
    let mut loader = Loader::new();
    assert_eq!(loader.finish("/p/m.luau", Outcome::Returned(Some(9))), Vec::<u64>::new());
    assert_eq!(loader.cached_value("/p/m.luau"), None);
}

#[test]
fn circular_require_is_refused_for_the_one_that_closes_it() {
    let mut loader = Loader::new();
    assert_eq!(loader.require("/p/a.luau", 1, None), Decision::Start);
    assert_eq!(loader.require("/p/b.luau", 1, Some("/p/a.luau")), Decision::Start);
    assert_eq!(loader.require("/p/a.luau", 1, Some("/p/b.luau")), Decision::Cyclic);
    assert_eq!(loader.finish("/p/b.luau", Outcome::Failed(1)), Vec::<u64>::new());
    assert_eq!(loader.finish("/p/a.luau", Outcome::Returned(Some(3))), Vec::<u64>::new());
    assert_eq!(loader.cached_value("/p/a.luau"), Some(Some(3)));
}

#[test]
fn module_that_requires_itself_is_cyclic() {
    let mut loader = Loader::new();
    assert_eq!(loader.require("/p/a.luau", 1, None), Decision::Start);
    assert_eq!(loader.require("/p/a.luau", 1, Some("/p/a.luau")), Decision::Cyclic);
}

#[test]
fn cycle_through_a_waiting_module_is_refused() {
    let mut loader = Loader::new();
    assert_eq!(loader.require("/p/a.luau", 1, None), Decision::Start);
    assert_eq!(loader.require("/p/b.luau", 2, None), Decision::Start);
    assert_eq!(loader.require("/p/b.luau", 1, Some("/p/a.luau")), Decision::Wait);
    assert_eq!(loader.require("/p/a.luau", 2, Some("/p/b.luau")), Decision::Cyclic);
}

#[test]
fn waiting_on_an_unrelated_load_is_no_cycle() {
    let mut loader = Loader::new();
    assert_eq!(loader.require("/p/a.luau", 1, None), Decision::Start);
    assert_eq!(loader.require("/p/b.luau", 2, None), Decision::Start);
    assert_eq!(loader.require("/p/a.luau", 2, Some("/p/b.luau")), Decision::Wait);
    assert_eq!(loader.finish("/p/a.luau", Outcome::Returned(Some(1))), vec![2]);
    assert_eq!(loader.require("/p/a.luau", 2, Some("/p/b.luau")), Decision::Cached(Some(1)));
}

#[test]
fn locations_follow_the_running_loads() {
    let mut loader = Loader::new();
    loader.require("/p/a.luau", 1, None);
    loader.require("/p/b.luau", 1, Some("/p/a.luau"));
    assert_eq!(loader.current_location(), Some("/p/b.luau".to_string()));
    loader.finish("/p/b.luau", Outcome::Returned(None));
    assert_eq!(loader.current_location(), Some("/p/a.luau".to_string()));
    loader.finish("/p/a.luau", Outcome::Failed(0));
    assert_eq!(loader.current_location(), None);
}

#[test]
fn interleaved_loads_keep_their_waiters_apart() {
    let mut loader = Loader::new();
    assert_eq!(loader.require("/p/a.luau", 1, None), Decision::Start);
    assert_eq!(loader.require("/p/b.luau", 2, None), Decision::Start);
    assert_eq!(loader.require("/p/a.luau", 3, None), Decision::Wait);
    assert_eq!(loader.require("/p/b.luau", 4, None), Decision::Wait);
    assert_eq!(loader.require("/p/a.luau", 5, None), Decision::Wait);
    assert_eq!(loader.finish("/p/b.luau", Outcome::Returned(Some(20))), vec![4]);
    assert!(loader.is_loading("/p/a.luau"));
    assert_eq!(loader.require("/p/b.luau", 6, None), Decision::Cached(Some(20)));
    assert_eq!(loader.finish("/p/a.luau", Outcome::Failed(1)), vec![3, 5]);
    assert_eq!(loader.cached_value("/p/a.luau"), None);
    assert_eq!(loader.cached_value("/p/b.luau"), Some(Some(20)));
}

#[test]
fn end_of_a_load_lets_go_what_was_blocked_on_it() {
    let mut loader = Loader::new();
    assert_eq!(loader.require("/p/a.luau", 1, None), Decision::Start);
    assert_eq!(loader.require("/p/b.luau", 1, Some("/p/a.luau")), Decision::Start);
    assert_eq!(loader.finish("/p/b.luau", Outcome::Returned(Some(2))), Vec::<u64>::new());
    // `a` is no longer blocked on `b`: a require of `a` from `b` code that
    // runs later is an ordinary wait
    assert_eq!(loader.require("/p/c.luau", 9, None), Decision::Start);
    assert_eq!(loader.require("/p/a.luau", 9, Some("/p/c.luau")), Decision::Wait);
    assert_eq!(loader.require("/p/c.luau", 1, Some("/p/a.luau")), Decision::Cyclic);
}

#[test]
fn end_of_a_load_takes_its_own_location_away() {
    let mut loader = Loader::new();
    assert_eq!(loader.require("/p/p.luau", 1, None), Decision::Start);
    assert_eq!(loader.require("/p/q.luau", 2, None), Decision::Start);
    assert_eq!(loader.current_location(), Some("/p/q.luau".to_string()));
    loader.finish("/p/p.luau", Outcome::Returned(Some(1)));
    assert_eq!(loader.current_location(), Some("/p/q.luau".to_string()));
    loader.finish("/p/q.luau", Outcome::Returned(None));
    assert_eq!(loader.current_location(), None);
}
