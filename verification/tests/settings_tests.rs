use disk_flashlight::model::Metric;
use disk_flashlight::render::ColorMode;
use disk_flashlight::settings::{Settings, COLOR_MODE, FOLLOW_IN_TREE, LAST_PATH, METRIC, SIDE_VIEW};
use disk_flashlight::ui::SideView;

/// A key/value store in memory, as the application's storage keeps them.
#[derive(Default)]
struct MemStorage(Vec<(String, String)>);

impl MemStorage {
    fn get_string(&self, key: &str) -> Option<String> {
        self.0.iter().find(|(k, _)| k == key).map(|(_, v)| v.clone())
    }

    fn set_string(&mut self, key: &str, value: String) {
        self.0.retain(|(k, _)| k != key);
        self.0.push((key.to_string(), value));
    }
}

fn save(s: &Settings, storage: &mut MemStorage) {
    for (k, v) in s.to_pairs() {
        storage.set_string(k, v);
    }
}

fn load(storage: &MemStorage) -> Settings {
    let metric = storage.get_string(METRIC);
    let color_mode = storage.get_string(COLOR_MODE);
    let follow = storage.get_string(FOLLOW_IN_TREE);
    let side_view = storage.get_string(SIDE_VIEW);
    Settings::parse(
        metric.as_deref(),
        color_mode.as_deref(),
        follow.as_deref(),
        side_view.as_deref(),
        storage.get_string(LAST_PATH),
    )
}

#[test]
fn round_trip() {
    let s = Settings {
        metric: Metric::Logical,
        color_mode: ColorMode::Depth,
        follow_in_tree: false,
        side_view: SideView::LargestFiles,
        last_path: Some(r"D:\Projects".into()),
    };
    let mut storage = MemStorage::default();
    save(&s, &mut storage);
    assert_eq!(load(&storage), s);
}

#[test]
fn missing_or_unknown_values_use_defaults() {
    assert_eq!(load(&MemStorage::default()), Settings::default());
    let mut storage = MemStorage::default();
    storage.set_string(METRIC, "bogus".into());
    storage.set_string(FOLLOW_IN_TREE, "maybe".into());
    storage.set_string(LAST_PATH, String::new());
    assert_eq!(load(&storage), Settings::default());
}

#[test]
fn round_trip_of_every_value() {
    for metric in [Metric::Physical, Metric::Logical] {
        for color_mode in [ColorMode::Size, ColorMode::Depth] {
            for follow_in_tree in [true, false] {
                for side_view in [SideView::Folders, SideView::LargestFiles, SideView::Search] {
                    for last_path in [None, Some("C:\\".to_string())] {
                        let s = Settings { metric, color_mode, follow_in_tree, side_view, last_path };
                        let mut storage = MemStorage::default();
                        save(&s, &mut storage);
                        assert_eq!(load(&storage), s);
                    }
                }
            }
        }
    }
}

#[test]
fn stored_texts() {
    let s = Settings {
        metric: Metric::Physical,
        color_mode: ColorMode::Size,
        follow_in_tree: true,
        side_view: SideView::Search,
        last_path: None,
    };
    let pairs = s.to_pairs();
    let expected = [
        ("metric", "physical"),
        ("color_mode", "size"),
        ("follow_in_tree", "true"),
        ("side_view", "search"),
        ("last_path", ""),
    ];
    assert_eq!(pairs.len(), expected.len());
    for ((k, v), (ek, ev)) in pairs.iter().zip(expected.iter()) {
        assert_eq!(k, ek);
        assert_eq!(v, ev);
    }
}

#[test]
fn defaults() {
    let d = Settings::default();
    assert_eq!(d.metric, Metric::Physical);
    assert_eq!(d.color_mode, ColorMode::Size);
    assert!(d.follow_in_tree);
    assert_eq!(d.side_view, SideView::Folders);
    assert_eq!(d.last_path, None);
}
