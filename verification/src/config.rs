//! Server settings and the write-once store that holds them.

use vstd::prelude::*;

verus! {

/// The settings the application hands to the catalogue at startup.
pub struct MyConfig {
    port: u16,
}

impl MyConfig {
    /// The port the server listens on.
    pub closed spec fn spec_port(&self) -> u16 {
        self.port
    }

    /// The port used when the configuration names none.
    pub fn default_port() -> (r: u16)
        ensures
            r == 8080u16,
    {
        8080
    }

    pub fn new(port: u16) -> (r: MyConfig)
        ensures
            r.spec_port() == port,
    {
        MyConfig { port }
    }

    pub fn port(&self) -> (r: u16)
        ensures
            r == self.spec_port(),
    {
        self.port
    }
}

impl Default for MyConfig {
    fn default() -> (r: Self)
        ensures
            r.spec_port() == 8080u16,
    {
        MyConfig { port: 8080 }
    }
}

/// A write-once holder for the configuration: the first `set_config` wins and
/// later calls leave the stored value untouched.
pub struct ConfigStore {
    cfg: Option<MyConfig>,
}

impl ConfigStore {
    pub closed spec fn spec_cfg(&self) -> Option<MyConfig> {
        self.cfg
    }

    pub open spec fn is_set(&self) -> bool {
        self.spec_cfg() is Some
    }

    pub fn empty() -> (r: ConfigStore)
        ensures
            r.spec_cfg() is None,
    {
        ConfigStore { cfg: None }
    }
}

/// Stores `cfg` if nothing is stored yet; keeps the first value otherwise.
pub fn set_config(store: &mut ConfigStore, cfg: MyConfig)
    ensures
        final(store).spec_cfg() == if old(store).spec_cfg() is None {
            Some(cfg)
        } else {
            old(store).spec_cfg()
        },
{
    match store.cfg {
        None => {
            store.cfg = Some(cfg);
        },
        Some(_) => {},
    }
}

/// The stored configuration, if one was set.
pub fn get_config_opt(store: &ConfigStore) -> (r: Option<&MyConfig>)
    ensures
        match r {
            Some(c) => store.spec_cfg() == Some(*c),
            None => store.spec_cfg() is None,
        },
{
    match &store.cfg {
        Some(c) => Some(c),
        None => None,
    }
}

/// The stored configuration; the caller must have set one first.
pub fn get_config(store: &ConfigStore) -> (r: &MyConfig)
    requires
        store.is_set(),
    ensures
        store.spec_cfg() == Some(*r),
{
    match &store.cfg {
        Some(c) => c,
        None => unreached(),
    }
}

} // verus!
