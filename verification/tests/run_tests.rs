use podsync::episode::Episode;
use podsync::run::aggregate_paths;
use podsync::run::run_episodes;
use podsync::run::EpisodeRun;
use podsync::numstr::parse_u32;
use podsync::numstr::u64_to_string;

fn episode(guid: &str, published: u64) -> Episode {
    Episode {
        title: format!("ep {guid}"),
        guid: guid.to_string(),
        url: format!("http://example.com/{guid}.mp3"),
        published,
        author: None,
        image: None,
        description: None,
        itunes_episode: None,
        itunes_duration: None,
        index: 0,
        downloaded: false,
    }
}

#[test]
fn failure_stops_the_loop_and_keeps_earlier_paths() {
    let eligible = vec![episode("a", 1), episode("b", 2), episode("c", 3)];
    // The second episode fails: exactly one result, the first path.
    let outcomes = vec![Some("a.mp3".to_string()), None, Some("c.mp3".to_string())];
    let paths = run_episodes(eligible, outcomes);
    assert_eq!(paths, vec!["a.mp3".to_string()]);
}

#[test]
fn failure_at_first_episode_yields_nothing() {
    let eligible = vec![episode("a", 1), episode("b", 2)];
    let outcomes = vec![None, Some("b.mp3".to_string())];
    let paths = run_episodes(eligible, outcomes);
    assert!(paths.is_empty());
}

#[test]
fn all_successes_yield_all_paths_in_order() {
    let eligible = vec![episode("a", 1), episode("b", 2)];
    let outcomes = vec![Some("a.mp3".to_string()), Some("b.mp3".to_string())];
    let paths = run_episodes(eligible, outcomes);
    assert_eq!(paths, vec!["a.mp3".to_string(), "b.mp3".to_string()]);
}

#[test]
fn run_state_machine_steps() {
    let eligible = vec![episode("a", 1), episode("b", 2)];
    let mut run = EpisodeRun::new(eligible);
    let current = run.current().expect("first episode is due");
    assert_eq!(current.guid, "a");
    run.record_success("a.mp3".to_string());
    let current = run.current().expect("second episode is due");
    assert_eq!(current.guid, "b");
    run.record_failure();
    assert!(run.current().is_none());
    assert_eq!(run.into_paths(), vec!["a.mp3".to_string()]);
}

#[test]
fn empty_run_completes_with_no_paths() {
    // A podcast with no eligible episodes still runs its loop to completion.
    let mut run = EpisodeRun::new(vec![]);
    assert!(run.current().is_none());
    run.record_failure();
    assert!(run.into_paths().is_empty());
}

#[test]
fn aggregation_concatenates_and_isolates_siblings() {
    let healthy = vec![
        vec!["a1".to_string(), "a2".to_string()],
        vec!["b1".to_string()],
        vec!["c1".to_string(), "c2".to_string()],
    ];
    let all = aggregate_paths(healthy);
    assert_eq!(all, vec!["a1", "a2", "b1", "c1", "c2"]);

    // The middle podcast fails and contributes nothing: the siblings'
    // segments are exactly what they were.
    let with_failure = vec![
        vec!["a1".to_string(), "a2".to_string()],
        vec![],
        vec!["c1".to_string(), "c2".to_string()],
    ];
    let all = aggregate_paths(with_failure);
    assert_eq!(all, vec!["a1", "a2", "c1", "c2"]);
}

#[test]
fn numeric_text_parses_exactly() {
    assert_eq!(parse_u32("0"), Some(0));
    assert_eq!(parse_u32("007"), Some(7));
    assert_eq!(parse_u32("+5"), Some(5));
    assert_eq!(parse_u32("4294967295"), Some(u32::MAX));
    assert_eq!(parse_u32("4294967296"), None);
    assert_eq!(parse_u32(""), None);
    assert_eq!(parse_u32("+"), None);
    assert_eq!(parse_u32("12a"), None);
    assert_eq!(parse_u32("-3"), None);
}

#[test]
fn numbers_render_in_decimal() {
    assert_eq!(u64_to_string(0), "0");
    assert_eq!(u64_to_string(7), "7");
    assert_eq!(u64_to_string(1234567890), "1234567890");
}
