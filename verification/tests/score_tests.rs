use runi::command::Exec;
use runi::entry::Application;
use runi::score::filter_and_rank;

fn record(name: &str, cmd: &str, desc: Option<&str>) -> Application {
    Application::new(
        name.to_string(),
        desc.map(str::to_string),
        Exec { cmd: cmd.to_string(), args: Vec::new() },
        None,
        Vec::new(),
    )
}

#[test]
fn exact_name_match_scores_full() {
    // Case-normalized name channel: an exact lowercase match of a mixed-case
    // name takes the full weight.
    let app = record("Alacritty", "alacritty", None);
    assert_eq!(app.score("alacritty"), 1000);
}

#[test]
fn name_channel_uses_normalized_edit_distance() {
    // lower("Firefox") vs "fire": distance 3 of length 7, per mille of 1000.
    let app = record("Firefox", "firefox", None);
    assert_eq!(app.score("fire"), 571);
}

#[test]
fn command_channel_has_half_weight() {
    let app = record("Zzz", "fire", None);
    assert_eq!(app.score("fire"), 500);
}

#[test]
fn description_channel_has_quarter_weight() {
    let app = record("X", "x", Some("fire"));
    assert_eq!(app.score("fire"), 250);
}

#[test]
fn missing_description_scores_nothing_on_that_channel() {
    let app = record("X", "x", None);
    assert_eq!(app.score("fire"), 0);
}

#[test]
fn ranking_orders_by_score_and_drops_low_scores() {
    let apps = vec![
        record("Alacritty", "alacritty", None),
        record("Files", "files", None),
        record("Firefox", "firefox", None),
        record("zzzz", "zzzz", None),
    ];
    let ranked = filter_and_rank(&apps, "fire");

    // "Files" outscores "Firefox" under the normalized distance (600 vs 571);
    // "Alacritty" stays barely above the threshold; "zzzz" scores zero and is
    // dropped.
    assert_eq!(ranked, vec![(1, 600), (2, 571), (0, 111)]);
}

#[test]
fn empty_query_returns_everything_with_full_scores() {
    let apps = vec![
        record("B", "b", None),
        record("A", "a", None),
    ];
    let ranked = filter_and_rank(&apps, "");
    assert_eq!(ranked, vec![(0, 1000), (1, 1000)]);
}

#[test]
fn equal_scores_keep_index_order() {
    let apps = vec![
        record("same", "same", None),
        record("same", "same", None),
    ];
    let ranked = filter_and_rank(&apps, "same");
    assert_eq!(ranked, vec![(0, 1000), (1, 1000)]);
}
