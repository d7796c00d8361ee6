use std::sync::atomic::{AtomicUsize, Ordering};
use std::sync::Arc;

use plugin_manager_lib::plugin::{PlguninResult, Plugin, PluginTrait};
use plugin_manager_lib::registry::PluginManager;

/// A stand-in plugin instance: carries an identity so tests can tell two
/// generations apart, and counts how often its unload hook ran.
struct Fake {
    name: &'static str,
    id: usize,
    unloads: Arc<AtomicUsize>,
}

impl PluginTrait for Fake {
    fn register(&self) -> Plugin {
        descriptor(self.name)
    }

    fn load(&self) {}

    fn unload(&self) {
        self.unloads.fetch_add(1, Ordering::SeqCst);
    }
}

/// A shared instance, as a host would hold one.
struct SharedFake(Arc<Fake>);

impl PluginTrait for SharedFake {
    fn register(&self) -> Plugin {
        descriptor(self.0.name)
    }

    fn load(&self) {}

    fn unload(&self) {
        self.0.unloads.fetch_add(1, Ordering::SeqCst);
    }
}

fn descriptor(name: &str) -> Plugin {
    Plugin {
        name: name.to_string(),
        version: "1.0.0".to_string(),
        author: "tester".to_string(),
        explain: "a test plugin".to_string(),
    }
}

fn fake(name: &'static str, id: usize, unloads: &Arc<AtomicUsize>) -> Fake {
    Fake { name, id, unloads: Arc::clone(unloads) }
}

fn outcome(name: &'static str, id: usize, handle: u32, unloads: &Arc<AtomicUsize>)
    -> PlguninResult<(Plugin, Fake, u32)>
{
    PlguninResult::Success((descriptor(name), fake(name, id, unloads), handle))
}

#[test]
fn load_all_registers_each_name() {
    let unloads = Arc::new(AtomicUsize::new(0));
    let mut m: PluginManager<Fake, u32> = PluginManager::new("plugins".to_string());
    let outcomes = vec![
        outcome("alpha", 1, 10, &unloads),
        PlguninResult::Failure,
        outcome("beta", 2, 20, &unloads),
    ];
    m.load_all(outcomes);
    assert!(m.select("alpha").is_some());
    assert!(m.select("beta").is_some());
    assert_eq!(m.plugins.len(), 2);
    assert_eq!(m.plugin_structs.len(), 2);
    assert_eq!(m.loaded_libraries, vec![10, 20]);
}

#[test]
fn unload_all_clears_everything() {
    let unloads = Arc::new(AtomicUsize::new(0));
    let mut m: PluginManager<Fake, u32> = PluginManager::new("plugins".to_string());
    m.load_all(vec![outcome("alpha", 1, 10, &unloads), outcome("beta", 2, 20, &unloads)]);
    m.unload_all();
    assert!(m.select("alpha").is_none());
    assert!(m.select("beta").is_none());
    assert_eq!(m.plugins.len(), 0);
    assert_eq!(m.plugin_structs.len(), 0);
    assert_eq!(m.loaded_libraries.len(), 0);
    // every registered instance's unload hook ran exactly once
    assert_eq!(unloads.load(Ordering::SeqCst), 2);
}

#[test]
fn reload_matches_unload_then_load() {
    let unloads = Arc::new(AtomicUsize::new(0));

    let mut a: PluginManager<Fake, u32> = PluginManager::new("plugins".to_string());
    a.load_all(vec![outcome("alpha", 1, 10, &unloads)]);
    a.reload_all(vec![outcome("alpha", 3, 30, &unloads), outcome("beta", 4, 40, &unloads)]);

    let mut b: PluginManager<Fake, u32> = PluginManager::new("plugins".to_string());
    b.load_all(vec![outcome("alpha", 1, 11, &unloads)]);
    b.unload_all();
    b.load_all(vec![outcome("alpha", 3, 30, &unloads), outcome("beta", 4, 40, &unloads)]);

    assert_eq!(a.plugins.len(), b.plugins.len());
    assert_eq!(a.loaded_libraries, b.loaded_libraries);
    for name in ["alpha", "beta", "gamma"] {
        let ra = a.select(name).map(|p| p.1.id);
        let rb = b.select(name).map(|p| p.1.id);
        assert_eq!(ra, rb);
    }
}

#[test]
fn same_name_last_write_wins() {
    let unloads = Arc::new(AtomicUsize::new(0));
    let mut m: PluginManager<Fake, u32> = PluginManager::new("plugins".to_string());
    m.load_all(vec![outcome("alpha", 1, 10, &unloads), outcome("alpha", 2, 20, &unloads)]);
    // exactly one entry under the name, and it is the later one
    assert_eq!(m.plugins.len(), 1);
    assert_eq!(m.select("alpha").map(|p| p.1.id), Some(2));
    // the earlier module handle is still retained: no handle is evicted
    assert_eq!(m.loaded_libraries, vec![10, 20]);
}

#[test]
fn select_never_loaded_is_absent() {
    let m: PluginManager<Fake, u32> = PluginManager::new("plugins".to_string());
    assert!(m.select("never-loaded").is_none());
    let unloads = Arc::new(AtomicUsize::new(0));
    let mut m2: PluginManager<Fake, u32> = PluginManager::new("plugins".to_string());
    m2.load_all(vec![outcome("alpha", 1, 10, &unloads)]);
    assert!(m2.select("omega").is_none());
}

#[test]
fn scenario_two_plugin_files() {
    let unloads = Arc::new(AtomicUsize::new(0));
    let mut m: PluginManager<Fake, u32> = PluginManager::new("plugins".to_string());
    // a.so registers "alpha", b.so registers "beta"
    m.load_all(vec![outcome("alpha", 1, 10, &unloads), outcome("beta", 2, 20, &unloads)]);
    assert!(m.select("alpha").is_some());
    assert!(m.select("beta").is_some());
    assert!(m.select("gamma").is_none());

    m.unload_all();
    assert!(m.select("alpha").is_none());
    assert!(m.select("beta").is_none());
    assert!(m.select("gamma").is_none());

    // an unchanged directory loads the same names again, as fresh instances
    m.load_all(vec![outcome("alpha", 1, 10, &unloads), outcome("beta", 2, 20, &unloads)]);
    m.reload_all(vec![outcome("alpha", 3, 30, &unloads), outcome("beta", 4, 40, &unloads)]);
    assert_eq!(m.select("alpha").map(|p| p.1.id), Some(3));
    assert_eq!(m.select("beta").map(|p| p.1.id), Some(4));
    assert!(m.select("gamma").is_none());
}

#[test]
fn external_release_does_not_evict_module() {
    let unloads = Arc::new(AtomicUsize::new(0));
    let shared = Arc::new(fake("alpha", 1, &unloads));
    let mut m: PluginManager<SharedFake, u32> = PluginManager::new("plugins".to_string());
    m.register_loaded(descriptor("alpha"), SharedFake(Arc::clone(&shared)), 10);

    // a caller takes a reference out of the registry and releases it again
    let held = m.select("alpha").map(|p| SharedFake(Arc::clone(&p.1.0))).unwrap();
    assert_eq!(held.0.id, 1);
    drop(held);

    // the registry still owns both the instance and the module handle
    assert_eq!(m.select("alpha").map(|p| p.1.0.id), Some(1));
    assert_eq!(m.loaded_libraries.len(), 1);
    assert!(Arc::strong_count(&shared) >= 2);

    // module release happens only when the registry itself lets go
    m.unload_all();
    assert_eq!(m.loaded_libraries.len(), 0);
    assert_eq!(Arc::strong_count(&shared), 1);
}

#[test]
fn default_registry_is_empty() {
    let m: PluginManager<Fake, u32> = PluginManager::default();
    assert_eq!(m.path(), "./plugins");
    assert_eq!(m.plugins.len(), 0);
    assert_eq!(m.plugin_structs.len(), 0);
    assert_eq!(m.loaded_libraries.len(), 0);
}
