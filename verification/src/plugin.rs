//! Plugin metadata and the capability contract.

use vstd::prelude::*;

verus! {

/// Metadata that a plugin reports about itself when it registers: its unique
/// name, a version string, an author string and a free-form description.
#[derive(Debug, Clone)]
pub struct Plugin {
    pub name: String,
    pub version: String,
    pub author: String,
    pub explain: String,
}

impl Default for Plugin {
    /// A descriptor filled with this host crate's own package metadata and a
    /// placeholder description.
    fn default() -> (r: Self)
        ensures
            r.name@ == "plugin_manager_lib"@,
            r.version@ == "0.1.0"@,
            r.author@ == ""@,
            r.explain@ == "not explain"@,
    {
        Self {
            name: "plugin_manager_lib".to_owned(),
            version: "0.1.0".to_owned(),
            author: "".to_owned(),
            explain: "not explain".to_owned(),
        }
    }
}

/// The capability contract: every plugin exposes its descriptor through
/// `register` and may run arbitrary initialization and teardown work in its
/// `load` and `unload` hooks. The host promises nothing about what the hooks
/// do; they are best-effort callbacks into plugin-defined code.
pub trait PluginTrait: Send + Sync {
    /// Report the plugin's descriptor.
    fn register(&self) -> Plugin;

    /// Initialization hook, invoked once right after the plugin is created.
    fn load(&self);

    /// Teardown hook, invoked when the registry unloads the plugin.
    fn unload(&self);
}

/// Outcome of a plugin operation; the error branch carries no detail because
/// a failed file is simply skipped.
pub enum PlguninResult<T> {
    Success(T),
    Failure,
}

} // verus!
