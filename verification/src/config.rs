//! Settings of a node: search, storage, performance and feature switches.

use crate::search::algorithms::Score;
use vstd::prelude::*;

verus! {

/// Limits and switches of the search engine.
#[derive(Debug)]
pub struct SearchConfig {
    pub max_results: usize,
    pub enable_fuzzy: bool,
    pub enable_vector: bool,
    /// Results that score below this are of no interest.
    pub min_score: Score,
}

/// Where and how documents are kept.
#[derive(Debug)]
pub struct StorageConfig {
    pub path: String,
    pub cache_size_mb: usize,
    pub persist_interval_secs: u64,
}

/// Sizing of the worker pool and of batches.
#[derive(Debug, Clone, Copy, PartialEq, Eq, Structural)]
pub struct PerformanceConfig {
    pub worker_threads: usize,
    pub max_concurrent_searches: usize,
    pub batch_size: usize,
}

/// Optional features.
#[derive(Debug, Clone, Copy, PartialEq, Eq, Structural)]
pub struct FeaturesConfig {
    pub enable_metrics: bool,
    pub enable_logging: bool,
    pub enable_analytics: bool,
}

/// All settings of a node.
#[derive(Debug)]
pub struct Config {
    pub search: SearchConfig,
    pub storage: StorageConfig,
    pub performance: PerformanceConfig,
    pub features: FeaturesConfig,
}

impl Clone for SearchConfig {
    fn clone(&self) -> (r: Self)
        ensures
            r == *self,
    {
        SearchConfig {
            max_results: self.max_results,
            enable_fuzzy: self.enable_fuzzy,
            enable_vector: self.enable_vector,
            min_score: self.min_score,
        }
    }
}

impl Clone for StorageConfig {
    fn clone(&self) -> (r: Self)
        ensures
            r == *self,
    {
        StorageConfig {
            path: self.path.clone(),
            cache_size_mb: self.cache_size_mb,
            persist_interval_secs: self.persist_interval_secs,
        }
    }
}

impl Clone for Config {
    fn clone(&self) -> (r: Self)
        ensures
            r == *self,
    {
        Config {
            search: self.search.clone(),
            storage: self.storage.clone(),
            performance: self.performance,
            features: self.features,
        }
    }
}

/// Asks `num_cpus::get` for the number of logical CPUs that this process may
/// use. The crate documents that the number is at least 1.
#[verifier::external_body]
fn available_cpus() -> (n: usize)
    ensures
        n >= 1,
{
    num_cpus::get()
}

impl Config {
    /// The default settings but for the number of worker threads, which
    /// depends on the machine.
    pub open spec fn is_default_with(self, worker_threads: usize) -> bool {
        &&& self.search.max_results == 100
        &&& self.search.enable_fuzzy
        &&& self.search.enable_vector
        &&& self.search.min_score == (Score { numerator: 1, denominator: 10 })
        &&& self.storage.path@ == "./data"@
        &&& self.storage.cache_size_mb == 1024
        &&& self.storage.persist_interval_secs == 60
        &&& self.performance == (PerformanceConfig {
            worker_threads,
            max_concurrent_searches: 100,
            batch_size: 1000,
        })
        &&& self.features == (FeaturesConfig {
            enable_metrics: true,
            enable_logging: true,
            enable_analytics: false,
        })
    }

    /// The default settings for a machine on which `worker_threads` threads
    /// are to work.
    pub fn with_worker_threads(worker_threads: usize) -> (r: Config)
        ensures
            r.is_default_with(worker_threads),
    {
        Config {
            search: SearchConfig {
                max_results: 100,
                enable_fuzzy: true,
                enable_vector: true,
                min_score: Score { numerator: 1, denominator: 10 },
            },
            storage: StorageConfig {
                path: "./data".to_owned(),
                cache_size_mb: 1024,
                persist_interval_secs: 60,
            },
            performance: PerformanceConfig {
                worker_threads,
                max_concurrent_searches: 100,
                batch_size: 1000,
            },
            features: FeaturesConfig {
                enable_metrics: true,
                enable_logging: true,
                enable_analytics: false,
            },
        }
    }
}

impl Default for Config {
    /// The default settings, with one worker thread for each CPU that the
    /// process may use.
    fn default() -> (r: Self)
        ensures
            exists|worker_threads: usize| worker_threads >= 1 && r.is_default_with(worker_threads),
    {
        Config::with_worker_threads(available_cpus())
    }
}

/// The place where the settings in force are kept.
pub struct ConfigStore {
    current: Option<Config>,
}

impl ConfigStore {
    /// The settings in force, if any were set.
    pub closed spec fn spec_current(&self) -> Option<Config> {
        self.current
    }

    /// A store in which no settings are in force yet.
    pub fn new() -> (r: ConfigStore)
        ensures
            r.spec_current() is None,
    {
        ConfigStore { current: None }
    }
}

/// Puts settings in force.
///
/// `loaded` is what reading a settings file gave, where the caller named
/// one: the settings, or why they could not be had. Without a file the
/// defaults are put in force. A failed load is handed back and leaves the
/// store as it was.
pub fn init_config(store: &mut ConfigStore, loaded: Option<Result<Config, String>>) -> (r: Result<
    (),
    String,
>)
    ensures
        loaded matches Some(Ok(config)) ==> r is Ok && final(store).spec_current() == Some(config),
        loaded matches Some(Err(reason)) ==> r == Err::<(), String>(reason)
            && final(store).spec_current() == old(store).spec_current(),
        loaded is None ==> r is Ok && final(store).spec_current() is Some
            && exists|worker_threads: usize|
            worker_threads >= 1 && final(store).spec_current()->0.is_default_with(worker_threads),
{
    match loaded {
        Some(Ok(config)) => {
            store.current = Some(config);
            Ok(())
        },
        Some(Err(reason)) => Err(reason),
        None => {
            let config = Config::default();
            let ghost threads = choose|threads: usize|
                threads >= 1 && config.is_default_with(threads);
            store.current = Some(config);
            assert(store.spec_current()->0.is_default_with(threads));
            Ok(())
        },
    }
}

/// The settings in force, or `None` while none were set.
pub fn get_config(store: &ConfigStore) -> (r: Option<Config>)
    ensures
        r == store.spec_current(),
{
    match &store.current {
        Some(config) => Some(config.clone()),
        None => None,
    }
}

} // verus!
