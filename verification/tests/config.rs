use fabric::config::{get_config, init_config, Config, ConfigStore, FeaturesConfig, PerformanceConfig};
use fabric::search::algorithms::Score;

#[test]
fn default_config_values() {
    let config = Config::default();
    assert_eq!(config.search.max_results, 100);
    assert!(config.search.enable_fuzzy);
    assert!(config.search.enable_vector);
    assert_eq!(config.search.min_score, Score { numerator: 1, denominator: 10 });
    assert_eq!(config.storage.path, "./data");
    assert_eq!(config.storage.cache_size_mb, 1024);
    assert_eq!(config.storage.persist_interval_secs, 60);
    assert!(config.performance.worker_threads >= 1);
    assert_eq!(config.performance.max_concurrent_searches, 100);
    assert_eq!(config.performance.batch_size, 1000);
    assert_eq!(
        config.features,
        FeaturesConfig { enable_metrics: true, enable_logging: true, enable_analytics: false }
    );
}

#[test]
fn config_for_a_given_number_of_threads() {
    let config = Config::with_worker_threads(7);
    assert_eq!(
        config.performance,
        PerformanceConfig { worker_threads: 7, max_concurrent_searches: 100, batch_size: 1000 }
    );
    assert_eq!(config.storage.path, "./data");
}

#[test]
fn init_config_without_a_file_sets_the_defaults() {
    let mut store = ConfigStore::new();
    assert!(get_config(&store).is_none());
    assert_eq!(init_config(&mut store, None), Ok(()));
    let config = get_config(&store).unwrap();
    assert_eq!(config.search.max_results, 100);
    assert!(config.performance.worker_threads >= 1);
}

#[test]
fn init_config_takes_what_was_loaded() {
    let mut store = ConfigStore::new();
    let mut loaded = Config::with_worker_threads(2);
    loaded.search.max_results = 5;
    loaded.storage.path = "/var/fabric".to_string();
    assert_eq!(init_config(&mut store, Some(Ok(loaded))), Ok(()));
    let config = get_config(&store).unwrap();
    assert_eq!(config.search.max_results, 5);
    assert_eq!(config.storage.path, "/var/fabric");
    assert_eq!(config.performance.worker_threads, 2);
}

#[test]
fn init_config_hands_a_failed_load_back() {
    let mut store = ConfigStore::new();
    let failed = init_config(&mut store, Some(Err("Failed to read config file: gone".to_string())));
    assert_eq!(failed, Err("Failed to read config file: gone".to_string()));
    assert!(get_config(&store).is_none());
    init_config(&mut store, Some(Ok(Config::with_worker_threads(3)))).unwrap();
    let failed = init_config(&mut store, Some(Err("Failed to parse config: bad".to_string())));
    assert!(failed.is_err());
    assert_eq!(get_config(&store).unwrap().performance.worker_threads, 3);
}
