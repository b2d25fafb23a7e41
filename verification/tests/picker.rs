use random_picker::dirs;
use random_picker::errors::PickError;
use random_picker::setting::{find_group, get_group_names, parse_group, AppSetting, Group};
use random_picker::store::{list_available_items, PickerStore};
use random_picker::text::{parse_items, render_items, trim};

fn s(x: &str) -> String {
    x.to_string()
}

fn strings(xs: &[&str]) -> Vec<String> {
    xs.iter().map(|x| s(x)).collect()
}

fn store(configured: &[&str], chosen: &[&str], retention: usize) -> PickerStore {
    PickerStore::new(strings(configured), strings(chosen), retention)
}

fn sample_setting() -> AppSetting {
    AppSetting {
        groups: vec![
            Group { name: s("games"), items: strings(&["Alpha", "Beta"]) },
            Group { name: s("books"), items: strings(&["One"]) },
        ],
        default_group: Some(s("games")),
    }
}

#[test]
fn trim_removes_surrounding_whitespace() {
    assert_eq!(trim("  hi there\t\r\n"), "hi there");
    assert_eq!(trim("plain"), "plain");
    assert_eq!(trim("   \t "), "");
    assert_eq!(trim(""), "");
}

#[test]
fn parse_items_splits_trims_and_drops_blanks() {
    assert_eq!(parse_items(" a \n\nb\r\nc"), strings(&["a", "b", "c"]));
    assert_eq!(parse_items(""), Vec::<String>::new());
    assert_eq!(parse_items("\n \n\t\n"), Vec::<String>::new());
    assert_eq!(parse_items("solo\n"), strings(&["solo"]));
}

#[test]
fn render_items_writes_one_line_per_item() {
    assert_eq!(render_items(&strings(&["a", "b"])), "a\nb\n");
    assert_eq!(render_items(&Vec::new()), "");
}

#[test]
fn render_then_parse_round_trips() {
    let items = strings(&["Balatro", "Marvel Rivals"]);
    assert_eq!(parse_items(&render_items(&items)), items);
}

#[test]
fn available_is_configured_minus_chosen_in_order() {
    let avail =
        list_available_items(&strings(&["A", "B", "C", "D"]), &strings(&["B", "D"])).unwrap();
    assert_eq!(avail, strings(&["A", "C"]));
}

#[test]
fn available_fails_on_empty_configured_list() {
    let r = list_available_items(&Vec::new(), &strings(&["A"]));
    assert_eq!(r.unwrap_err(), PickError::EmptyConfiguredList);
}

#[test]
fn listing_available_twice_gives_identical_results() {
    let st = store(&["A", "B", "C"], &["B"], 0);
    let first = st.list_available().unwrap();
    let second = st.list_available().unwrap();
    assert_eq!(first, second);
    assert_eq!(first, strings(&["A", "C"]));
}

#[test]
fn pick_returns_an_unchosen_configured_item() {
    let mut st = store(&["A", "B", "C"], &["B"], 0);
    let out = st.pick().unwrap();
    assert!(!out.did_reset);
    assert!(out.item == "A" || out.item == "C");
}

#[test]
fn pick_on_empty_configured_list_fails_without_mutation() {
    let mut st = store(&[], &["old"], 0);
    let r = st.pick();
    assert_eq!(r.unwrap_err(), PickError::EmptyConfiguredList);
    assert_eq!(st.list_chosen(), strings(&["old"]));
}

#[test]
fn pick_appends_item_as_last_chosen_entry() {
    let mut st = store(&["A", "B", "C"], &[], 0);
    let out = st.pick().unwrap();
    let chosen = st.list_chosen();
    assert_eq!(chosen.len(), 1);
    assert_eq!(chosen.last().unwrap(), &out.item);
}

#[test]
fn three_picks_exhaust_then_fourth_resets() {
    let mut st = store(&["A", "B", "C"], &[], 0);
    let mut seen = Vec::new();
    for _ in 0..3 {
        let out = st.pick().unwrap();
        assert!(!out.did_reset);
        assert!(["A", "B", "C"].contains(&out.item.as_str()));
        assert!(!seen.contains(&out.item), "an item was repeated before exhaustion");
        seen.push(out.item);
    }
    let mut sorted = st.list_chosen();
    sorted.sort();
    assert_eq!(sorted, strings(&["A", "B", "C"]));

    let out = st.pick().unwrap();
    assert!(out.did_reset);
    assert!(["A", "B", "C"].contains(&out.item.as_str()));
    assert_eq!(st.list_chosen(), vec![out.item]);
}

#[test]
fn exhausted_pick_makes_progress_even_when_retention_blocks() {
    let mut st = store(&["A"], &["A"], 1);
    let out = st.pick().unwrap();
    assert!(out.did_reset);
    assert_eq!(out.item, "A");
    assert_eq!(st.list_chosen(), strings(&["A"]));
}

#[test]
fn reset_with_zero_retention_clears_history() {
    let mut st = store(&["A", "B", "C"], &["A", "B"], 0);
    st.reset();
    assert_eq!(st.list_chosen(), Vec::<String>::new());
}

#[test]
fn reset_keeps_the_last_retention_entries() {
    let mut st = store(&["A", "B", "C", "D", "E"], &["A", "B", "C", "D"], 2);
    st.reset();
    assert_eq!(st.list_chosen(), strings(&["C", "D"]));
}

#[test]
fn reset_of_empty_history_is_a_no_op() {
    let mut st = store(&["A"], &[], 0);
    st.reset();
    assert_eq!(st.list_chosen(), Vec::<String>::new());
}

#[test]
fn list_configured_returns_items_verbatim() {
    let st = store(&["B", "A", "B"], &[], 0);
    assert_eq!(st.list_configured(), strings(&["B", "A", "B"]));
}

#[test]
fn format_chosen_uses_sentinel_when_empty() {
    let st = store(&["A"], &[], 0);
    assert_eq!(st.format_chosen(), "No items have been chosen yet.\n");
    let st = store(&["A", "B"], &["A", "B"], 0);
    assert_eq!(st.format_chosen(), "A\nB\n");
}

#[test]
fn format_unchosen_lists_available_or_sentinel() {
    let st = store(&["A", "B"], &["A"], 0);
    assert_eq!(st.format_unchosen().unwrap(), "B\n");
    let st = store(&["A", "B"], &["A", "B"], 0);
    assert_eq!(st.format_unchosen().unwrap(), "No items have been chosen yet.\n");
    let st = store(&[], &[], 0);
    assert_eq!(st.format_unchosen().unwrap_err(), PickError::EmptyConfiguredList);
}

#[test]
fn group_names_come_back_in_configuration_order() {
    let setting = sample_setting();
    assert_eq!(get_group_names(&setting), strings(&["games", "books"]));
}

#[test]
fn parse_group_accepts_known_names_only() {
    let setting = sample_setting();
    assert_eq!(parse_group(&setting, "books").unwrap(), strings(&["games", "books"]));
    assert_eq!(parse_group(&setting, "movies").unwrap_err(), PickError::GroupNotFound);
}

#[test]
fn find_group_returns_first_index_with_the_name() {
    let setting = sample_setting();
    assert_eq!(find_group(&setting, "books"), Some(1));
    assert_eq!(find_group(&setting, "games"), Some(0));
    assert_eq!(find_group(&setting, "movies"), None);
}

#[test]
fn directory_paths_join_the_application_folder() {
    assert_eq!(dirs::get_app_config_dir("/home/u/.config"), "/home/u/.config/random-picker");
    assert_eq!(dirs::get_app_cache_dir("/home/u/.cache"), "/home/u/.cache/random-picker");
    assert_eq!(dirs::group_history_path("/home/u/.cache/random-picker", "games"),
        "/home/u/.cache/random-picker/games.txt");
    assert_eq!(AppSetting::get_config_path("/home/u/.config/random-picker"),
        "/home/u/.config/random-picker/config.yaml");
}

#[test]
fn error_messages_describe_each_failure() {
    assert_eq!(PickError::GroupNotFound.message(), "group not found in configuration");
    assert_eq!(PickError::EmptyConfiguredList.message(), "the configured items list is empty");
}

#[test]
fn repeated_picks_from_singleton_list_always_return_it() {
    for _ in 0..10 {
        let mut st = store(&["Only"], &[], 0);
        let out = st.pick().unwrap();
        assert_eq!(out.item, "Only");
    }
}

#[test]
fn reading_and_rewriting_history_is_stable() {
    let parsed = parse_items("  a \n\nb\n");
    let rewritten = render_items(&parsed);
    assert_eq!(rewritten, "a\nb\n");
    assert_eq!(parse_items(&rewritten), parsed);
}
