use sys_dashboard::config::{saved_position, saved_size, Config, ConfigStore, WidgetConfig, WidgetEntry};

fn entry(label: &str, config: WidgetConfig) -> WidgetEntry {
    WidgetEntry { label: label.to_string(), config }
}

fn store_with_place(place: Option<&str>) -> ConfigStore {
    ConfigStore::new(Config { place: place.map(|p| p.to_string()), widgets: Vec::new() })
}

#[test]
fn unknown_widget_reads_as_defaults() {
    let store = ConfigStore::new(Config::default());
    let w = store.get("cpu");
    assert_eq!(w, WidgetConfig::default());
    assert_eq!(w, WidgetConfig { x: None, y: None, width: None, height: None, locked: false });
}

#[test]
fn position_is_read_back_and_other_fields_kept() {
    let mut store = ConfigStore::new(Config::default());
    store.set_size("gpu", 300, 200);
    store.set_locked("gpu", true);
    store.set_position("gpu", -12, 480);
    let w = store.get("gpu");
    assert_eq!(w, WidgetConfig { x: Some(-12), y: Some(480), width: Some(300), height: Some(200), locked: true });
    store.set_position("gpu", 5, 6);
    assert_eq!(store.get("gpu").x, Some(5));
    assert_eq!(store.get("gpu").y, Some(6));
    assert_eq!(store.get("gpu").width, Some(300));
}

#[test]
fn size_and_lock_are_read_back() {
    let mut store = ConfigStore::new(Config::default());
    store.set_size("forecast", 260, 261);
    assert_eq!(store.get("forecast").width, Some(260));
    assert_eq!(store.get("forecast").height, Some(261));
    assert_eq!(store.get("forecast").x, None);
    store.set_locked("forecast", true);
    assert!(store.get("forecast").locked);
    store.set_locked("forecast", false);
    assert!(!store.get("forecast").locked);
    assert_eq!(store.get("forecast").width, Some(260));
}

#[test]
fn setting_one_widget_leaves_the_others() {
    let mut store = ConfigStore::new(Config {
        place: Some("Oulu".to_string()),
        widgets: vec![entry("cpu", WidgetConfig { x: Some(1), y: Some(2), width: None, height: None, locked: true })],
    });
    store.set_position("ram", 10, 20);
    store.set_size("ram", 30, 40);
    store.set_locked("ram", true);
    assert_eq!(store.get("cpu"), WidgetConfig { x: Some(1), y: Some(2), width: None, height: None, locked: true });
    assert_eq!(store.get("ram"), WidgetConfig { x: Some(10), y: Some(20), width: Some(30), height: Some(40), locked: true });
    assert_eq!(store.place(), "Oulu");
    assert_eq!(store.config().widgets.len(), 2);
}

#[test]
fn first_entry_of_a_label_counts() {
    let mut store = ConfigStore::new(Config {
        place: None,
        widgets: vec![
            entry("cpu", WidgetConfig { x: Some(1), ..WidgetConfig::default() }),
            entry("cpu", WidgetConfig { x: Some(2), ..WidgetConfig::default() }),
        ],
    });
    assert_eq!(store.get("cpu").x, Some(1));
    store.set_position("cpu", 7, 8);
    assert_eq!(store.get("cpu").x, Some(7));
    assert_eq!(store.config().widgets[1].config.x, Some(2));
    assert_eq!(store.config().widgets.len(), 2);
}

#[test]
fn place_falls_back_to_helsinki() {
    assert_eq!(store_with_place(None).place(), "Helsinki");
    assert_eq!(store_with_place(Some("")).place(), "Helsinki");
    assert_eq!(store_with_place(Some(" \t\n\u{3000}")).place(), "Helsinki");
}

#[test]
fn place_is_trimmed() {
    assert_eq!(store_with_place(Some("  Kajaani \n")).place(), "Kajaani");
    assert_eq!(store_with_place(Some("\u{a0}Best City Ever\u{2009}")).place(), "Best City Ever");
    assert_eq!(store_with_place(Some("Jyväskylä")).place(), "Jyväskylä");
}

#[test]
fn setting_the_same_lock_twice_changes_nothing_more() {
    let mut once = ConfigStore::new(Config::default());
    once.set_locked("cpu", true);
    let mut twice = ConfigStore::new(Config::default());
    twice.set_locked("cpu", true);
    twice.set_locked("cpu", true);
    assert_eq!(once.get("cpu"), twice.get("cpu"));
    assert_eq!(once.config().widgets.len(), twice.config().widgets.len());
}

#[test]
fn restore_needs_both_values_and_skips_the_origin() {
    let cfg = |x: Option<i32>, y: Option<i32>, w: Option<u32>, h: Option<u32>| WidgetConfig {
        x,
        y,
        width: w,
        height: h,
        locked: false,
    };
    assert_eq!(saved_position(&cfg(Some(10), Some(-5), None, None)), Some((10, -5)));
    assert_eq!(saved_position(&cfg(Some(0), Some(7), None, None)), Some((0, 7)));
    assert_eq!(saved_position(&cfg(Some(0), Some(0), None, None)), None);
    assert_eq!(saved_position(&cfg(Some(3), None, None, None)), None);
    assert_eq!(saved_size(&cfg(None, None, Some(120), Some(140))), Some((120, 140)));
    assert_eq!(saved_size(&cfg(None, None, Some(120), None)), None);
}

#[test]
fn lock_survives_later_moves_and_resizes() {
    let mut store = store_with_place(None);
    store.set_locked("cpu", true);
    store.set_position("cpu", 5, 6);
    store.set_size("cpu", 100, 120);
    store.set_locked("ram", false);
    store.set_position("ram", 1, 2);
    assert!(store.get("cpu").locked);
    assert!(!store.get("ram").locked);
    assert!(!store.get("gpu").locked);
}
