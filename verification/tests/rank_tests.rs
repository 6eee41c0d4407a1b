use flow::cache::{Cache, Error};
use flow::cmd::search::{build_query, rank};

fn strings(texts: &[&str]) -> Vec<String> {
    texts.iter().map(|t| t.to_string()).collect()
}

#[test]
fn frecency_breaks_match_ties() {
    // Both listed directories match "proj" equally well; the stored
    // history of proj2 decides.
    let listed = strings(&["proj1", "proj2"]);
    let cache = Cache::from_reader(&strings(&["/r/proj2|50"])).unwrap();
    let best = rank("/r", &listed, "proj", false, &cache).unwrap();
    assert_eq!(best, "/r/proj2");
}

#[test]
fn stored_paths_stay_reachable_outside_the_listing() {
    // A deep path known only to the store still wins over shallow
    // listings that match worse.
    let listed = strings(&["proj1"]);
    let cache = Cache::from_reader(&strings(&["/r/proj1/deep/notes|2"])).unwrap();
    let best = rank("/r", &listed, "no", false, &cache).unwrap();
    assert_eq!(best, "/r/proj1/deep/notes");
}

#[test]
fn project_mode_lets_the_match_score_decide() {
    // In project mode every listed directory starts from the same
    // sentinel, so history (even a heavy one) cannot override the
    // match score.
    let listed = strings(&["proj1", "myproj"]);
    let cache = Cache::from_reader(&strings(&["/r/proj1|500"])).unwrap();
    let best = rank("/r", &listed, "myproj", true, &cache).unwrap();
    assert_eq!(best, "/r/myproj");
}

#[test]
fn project_mode_ignores_unlisted_store_entries() {
    let listed = strings(&["proj1"]);
    let cache = Cache::from_reader(&strings(&["/r/elsewhere|500"])).unwrap();
    let best = rank("/r", &listed, "proj", true, &cache).unwrap();
    assert_eq!(best, "/r/proj1");
}

#[test]
fn no_candidates_is_an_error() {
    let cache = Cache::new();
    let r = rank("/r", &Vec::new(), "x", false, &cache);
    assert!(matches!(r, Err(Error::NoCandidates)));
}

#[test]
fn full_tie_goes_to_the_later_candidate() {
    let listed = strings(&["proj1", "proj2"]);
    let cache = Cache::new();
    let best = rank("/r", &listed, "proj", false, &cache).unwrap();
    assert_eq!(best, "/r/proj2");
}

#[test]
fn build_query_joins_parts_with_spaces() {
    assert_eq!(build_query(&strings(&["foo", "bar"])), "foo bar");
}

#[test]
fn build_query_splits_slashes_inside_parts() {
    assert_eq!(build_query(&strings(&["a/b", "c"])), "a b c");
    assert_eq!(build_query(&strings(&[])), "");
}
