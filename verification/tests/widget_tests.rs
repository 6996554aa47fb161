use themeloader::environment::EnvSnapshot;
use themeloader::loader::{ThemeLoader, WidgetEvent};
use themeloader::style::{FloatLit, StyleValue};
use themeloader::watch::WatchHandle;

fn initial_file() -> Vec<u8> {
    b"{\n    \"accent\": Color(10, 20, 30, 255),\n}".to_vec()
}

fn updated_file() -> Vec<u8> {
    b"{\n    \"accent\": Color(40, 50, 60, 255),\n    \"scale\": Float(1.5),\n}".to_vec()
}

fn base_env() -> EnvSnapshot {
    let mut env = EnvSnapshot::new();
    env.set(b"accent".to_vec(), StyleValue::Color(1, 1, 1, 1));
    env.set(b"host_only".to_vec(), StyleValue::Text(b"kept".to_vec()));
    env
}

#[test]
fn projection_installs_and_preserves() {
    let loader = ThemeLoader::new((), &initial_file()).expect("initial parse");
    let env = loader.effective_env(&base_env());
    // The stylesheet key overrides the base binding.
    assert_eq!(
        env.get(&b"accent".to_vec()),
        Some(&StyleValue::Color(10, 20, 30, 255))
    );
    // A base key the stylesheet does not mention is unchanged.
    assert_eq!(
        env.get(&b"host_only".to_vec()),
        Some(&StyleValue::Text(b"kept".to_vec()))
    );
    // No other key appears.
    assert_eq!(env.len(), 2);
    assert_eq!(env.get(&b"scale".to_vec()), None);
}

#[test]
fn projection_leaves_base_untouched() {
    let loader = ThemeLoader::new((), &initial_file()).expect("initial parse");
    let base = base_env();
    let _env = loader.effective_env(&base);
    assert_eq!(
        base.get(&b"accent".to_vec()),
        Some(&StyleValue::Color(1, 1, 1, 1))
    );
    assert_eq!(base.len(), 2);
}

#[test]
fn construction_fails_on_bad_file() {
    assert!(ThemeLoader::new((), &b"not a stylesheet".to_vec()).is_err());
}

#[test]
fn reload_scenario_updates_color_and_adds_scale() {
    let mut loader = ThemeLoader::new((), &initial_file()).expect("initial parse");
    let (env, redraw) = loader.event(&WidgetEvent::Reload(Some(updated_file())), &base_env());
    // Exactly one redraw request, on the successful reload.
    assert!(redraw);
    assert_eq!(
        env.get(&b"accent".to_vec()),
        Some(&StyleValue::Color(40, 50, 60, 255))
    );
    assert_eq!(
        env.get(&b"scale".to_vec()),
        Some(&StyleValue::Float(FloatLit {
            neg: false,
            int_digits: b"1".to_vec(),
            frac_digits: b"5".to_vec(),
        }))
    );
    // A later ordinary event requests no further redraw.
    let (_env2, redraw2) = loader.event(&WidgetEvent::Other, &base_env());
    assert!(!redraw2);
}

#[test]
fn failed_reload_keeps_environment_identical() {
    let mut loader = ThemeLoader::new((), &initial_file()).expect("initial parse");
    let before = loader.effective_env(&base_env());
    let (after, redraw) = loader.event(
        &WidgetEvent::Reload(Some(b"{\"accent\": Color(1,2,#,4),}".to_vec())),
        &base_env(),
    );
    assert!(!redraw);
    assert_eq!(
        after.get(&b"accent".to_vec()),
        before.get(&b"accent".to_vec())
    );
    assert_eq!(after.len(), before.len());
    assert!(loader.stylesheet() == &themeloader::codec::parse(&initial_file()).unwrap());
}

#[test]
fn unreadable_reload_keeps_prior_stylesheet() {
    let mut loader = ThemeLoader::new((), &initial_file()).expect("initial parse");
    let redraw = loader.on_reload(None);
    assert!(!redraw);
    assert!(loader.stylesheet() == &themeloader::codec::parse(&initial_file()).unwrap());
}

#[test]
fn duplicate_reload_signals_collapse() {
    let mut loader = ThemeLoader::new((), &initial_file()).expect("initial parse");
    let update = updated_file();
    // The same write delivered several times, with a failed signal in
    // between: the final state is the parse of the last good contents.
    assert!(loader.on_reload(Some(&update)));
    assert!(loader.on_reload(Some(&update)));
    assert!(!loader.on_reload(Some(&b"{broken".to_vec())));
    assert!(loader.on_reload(Some(&update)));
    assert!(loader.stylesheet() == &themeloader::codec::parse(&update).unwrap());
}

#[test]
fn closed_watch_delivers_no_signal() {
    let mut watch = WatchHandle::watch(b"styles.ron".to_vec());
    let sig = watch.on_write().expect("active watch signals");
    assert_eq!(sig.path, b"styles.ron".to_vec());
    watch.close();
    // Writes after teardown yield nothing, however many there are.
    assert!(watch.on_write().is_none());
    assert!(watch.on_write().is_none());
}

#[test]
fn set_all_is_a_pure_projection() {
    let sheet = themeloader::codec::parse(&b"{\"a\": Float(2.0),}".to_vec()).unwrap();
    let base = base_env();
    let first = sheet.set_all(&base);
    let second = sheet.set_all(&base);
    assert_eq!(first.len(), second.len());
    assert_eq!(first.get(&b"a".to_vec()), second.get(&b"a".to_vec()));
    assert_eq!(
        first.get(&b"host_only".to_vec()),
        second.get(&b"host_only".to_vec())
    );
    assert_eq!(
        first.get(&b"a".to_vec()),
        Some(&StyleValue::Float(FloatLit {
            neg: false,
            int_digits: b"2".to_vec(),
            frac_digits: b"0".to_vec(),
        }))
    );
}

#[test]
fn env_set_replaces_binding() {
    let mut env = EnvSnapshot::new();
    env.set(b"k".to_vec(), StyleValue::Color(1, 2, 3, 4));
    env.set(b"k".to_vec(), StyleValue::Text(b"now text".to_vec()));
    assert_eq!(env.len(), 1);
    assert_eq!(
        env.get(&b"k".to_vec()),
        Some(&StyleValue::Text(b"now text".to_vec()))
    );
    assert!(env.contains_key(&b"k".to_vec()));
}
