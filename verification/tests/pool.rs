use pikarust_core::engine::{Engine, EnginePool, PoolConfig, PoolError};

fn pool(max_engines: usize) -> EnginePool {
    EnginePool::new(PoolConfig { max_engines, ..PoolConfig::default() })
}

#[test]
fn pool_config_default() {
    let c = PoolConfig::default();
    assert_eq!(c.max_engines, 8);
    assert_eq!(c.threads_per_engine, 1);
    assert_eq!(c.hash_mb_per_engine, 16);
    assert!(c.nnue_file.is_none());
}

#[test]
fn capacity_is_reserved_once_and_restored_on_release() {
    let mut p = pool(1);
    assert!(matches!(p.reserve(), Ok(None)));
    assert_eq!(p.active_count(), 1);
    assert!(matches!(p.reserve(), Err(PoolError::Exhausted)));
    assert_eq!(p.active_count(), 1);
    p.release(Some(Engine::without_nnue().unwrap()));
    assert_eq!(p.active_count(), 0);
    assert_eq!(p.available_count(), 1);
    assert!(matches!(p.reserve(), Ok(Some(_))));
    assert_eq!(p.available_count(), 0);
    assert_eq!(p.active_count(), 1);
}

#[test]
fn failed_initialization_frees_its_room() {
    let mut p = pool(1);
    assert!(matches!(p.reserve(), Ok(None)));
    p.release(None);
    assert_eq!(p.active_count(), 0);
    assert_eq!(p.available_count(), 0);
    assert!(matches!(p.reserve(), Ok(None)));
}

#[test]
fn idle_engines_are_handed_out_last_in_first_out() {
    let mut p = pool(2);
    assert!(matches!(p.reserve(), Ok(None)));
    assert!(matches!(p.reserve(), Ok(None)));
    let mut first = Engine::without_nnue().unwrap();
    first.set_option("Hash", "32").unwrap();
    p.release(Some(first));
    p.release(Some(Engine::without_nnue().unwrap()));
    match p.reserve() {
        Ok(Some(e)) => assert_eq!(e.options().hash_mb, 16),
        _ => panic!("expected an idle engine"),
    }
    match p.reserve() {
        Ok(Some(e)) => assert_eq!(e.options().hash_mb, 32),
        _ => panic!("expected an idle engine"),
    }
    assert!(matches!(p.reserve(), Err(PoolError::Exhausted)));
}
