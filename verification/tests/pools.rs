use velo_core::lora::{LoraConfig, LoraRegistry, LoraWeights};
use velo_core::metal::types::DeviceParts;
use velo_core::model_pool::ModelPool;
use velo_core::scalar::F32;
use velo_core::speculative::SpeculativeError;
use velo_core::table::Table;

#[test]
fn test_lora_registry_management() {
    let mut registry: LoraRegistry<u8> = LoraRegistry::new();
    let config = LoraConfig {
        r: 8,
        alpha: F32::from_bits(16.0f32.to_bits()),
        target_modules: vec!["attention.wq".to_string()],
    };

    let weights = LoraWeights { weights: Table::new() };

    registry.add_adapter(1, weights, config);

    assert!(registry.get_config(1).is_some());
    assert_eq!(registry.get_config(1).unwrap().r, 8);
    assert!(registry.get_weights(1).is_some());

    assert_eq!(registry.prefetch(&[1, 2]), vec![2]);

    registry.evict_unused(&[2]);
    assert!(registry.get_config(1).is_none());
}

fn no_parts() -> DeviceParts {
    DeviceParts { device: false, command_queue: false, library: false }
}

#[test]
fn test_model_pool_basic() {
    let mut pool: ModelPool<u8> = ModelPool::new(no_parts());
    assert!(pool.get("test").is_none());

    pool.remove("test"); // Should not panic
}

#[test]
fn test_model_pool_errors() {
    let mut pool: ModelPool<u8> = ModelPool::new(no_parts());
    let res = pool.check_load();
    assert!(res.is_err());
    assert!(format!("{:?}", res.err().unwrap()).contains("No device"));

    let res_sync = pool.finish_load("test".into(), Ok(7));
    assert!(res_sync.is_err());
    assert!(format!("{:?}", res_sync.err().unwrap()).contains("No device"));
    assert!(pool.get("test").is_none());
}

#[test]
fn a_missing_queue_or_library_is_named() {
    let queue = DeviceParts { device: true, command_queue: false, library: true };
    let pool: ModelPool<u8> = ModelPool::new(queue);
    assert_eq!(pool.check_load().unwrap_err().to_string(), "No queue");
    let library = DeviceParts { device: true, command_queue: true, library: false };
    let pool: ModelPool<u8> = ModelPool::new(library);
    assert_eq!(pool.check_load().unwrap_err().to_string(), "No library");
}

#[test]
fn loaded_models_are_kept() {
    let all = DeviceParts { device: true, command_queue: true, library: true };
    let mut pool: ModelPool<u8> = ModelPool::new(all);
    assert!(pool.finish_load("a".into(), Ok(7)).is_ok());
    assert_eq!(pool.get("a"), Some(&7));
    let failed = Err(SpeculativeError::Model("broken".into()));
    assert!(pool.finish_load("b".into(), failed).is_err());
    assert!(pool.get("b").is_none());
    pool.add("c".into(), 9);
    pool.remove("a");
    assert!(pool.get("a").is_none());
    assert_eq!(pool.get("c"), Some(&9));
}

#[test]
fn tables_keep_their_order() {
    let mut t: Table<u8> = Table::new();
    assert!(t.is_empty());
    t.insert("b".into(), 1);
    t.insert("a".into(), 2);
    t.insert("b".into(), 3);
    assert_eq!(t.len(), 2);
    assert_eq!(t.get("b"), Some(&3));
    assert_eq!(t.entry(0), ("b", &3));
    assert_eq!(t.remove("b"), Some(3));
    assert_eq!(t.remove("b"), None);
    assert_eq!(t.get("a"), Some(&2));
}

#[test]
fn adapters_in_use_stay() {
    let mut registry: LoraRegistry<u8> = LoraRegistry::new();
    for id in 1..5 {
        let config = LoraConfig {
            r: id as usize,
            alpha: F32::from_bits(1.0f32.to_bits()),
            target_modules: Vec::new(),
        };
        registry.add_adapter(id, LoraWeights { weights: Table::new() }, config);
    }
    registry.evict_unused(&[3, 1, 3, 9]);
    assert_eq!(registry.prefetch(&[1, 2, 3, 4, 9]), vec![2, 4, 9]);
    assert_eq!(registry.get_config(3).unwrap().r, 3);
    assert_eq!(registry.adapters.len(), 2);
    assert_eq!(registry.configs.len(), 2);
}
