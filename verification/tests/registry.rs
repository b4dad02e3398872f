use assemblr::registry::{RegistryWriteHandle, ServiceRegistry, TypeKey};
use std::collections::HashMap;
use std::sync::{Arc, Mutex};

// Test trait and implementations
trait DatabaseService: Send + Sync {
    fn query(&self, sql: &str) -> String;
}

struct PostgresDb;

impl DatabaseService for PostgresDb {
    fn query(&self, sql: &str) -> String {
        format!("Executing: {}", sql)
    }
}

struct MySqlDb;

impl DatabaseService for MySqlDb {
    fn query(&self, sql: &str) -> String {
        format!("MySQL: {}", sql)
    }
}

// Test structs
struct CacheService {
    name: String,
}

#[allow(dead_code)]
struct ConfigService {
    port: u16,
    host: String,
}

struct Counter {
    value: Mutex<i32>,
}

impl Counter {
    fn new() -> Self {
        Counter { value: Mutex::new(0) }
    }

    fn increment(&self) -> i32 {
        let mut val = self.value.lock().unwrap();
        *val += 1;
        *val
    }

    fn get(&self) -> i32 {
        *self.value.lock().unwrap()
    }
}

// Generic struct
struct Container<T> {
    data: T,
}

// Complex trait
trait ComplexService: Send + Sync {
    fn method_one(&self) -> String;
    fn method_two(&self, input: i32) -> i32;
    fn method_three(&self) -> Vec<String>;
}

struct ComplexServiceImpl {
    prefix: String,
}

impl ComplexService for ComplexServiceImpl {
    fn method_one(&self) -> String {
        format!("{}_one", self.prefix)
    }

    fn method_two(&self, input: i32) -> i32 {
        input * 2
    }

    fn method_three(&self) -> Vec<String> {
        vec!["a".to_string(), "b".to_string(), "c".to_string()]
    }
}

/// The one service payload type this test suite stores in registries; each
/// variant shares its instance, mirroring an `Arc`-of-anything store.
#[derive(Clone)]
enum Svc {
    Cache(Arc<CacheService>),
    Db(Arc<Box<dyn DatabaseService>>),
    Complex(Arc<Box<dyn ComplexService>>),
    Config(Arc<ConfigService>),
    Count(Arc<Counter>),
    Text(Arc<String>),
    Numbers(Arc<Vec<i32>>),
    IntBox(Arc<i32>),
    BoolBox(Arc<bool>),
    TextMap(Arc<HashMap<String, Vec<i32>>>),
    IntContainer(Arc<Container<i32>>),
    TextContainer(Arc<Container<String>>),
    VecContainer(Arc<Container<Vec<i32>>>),
}

impl Svc {
    fn cache(self) -> Arc<CacheService> {
        match self {
            Svc::Cache(c) => c,
            _ => panic!("not a cache service"),
        }
    }

    fn db(self) -> Arc<Box<dyn DatabaseService>> {
        match self {
            Svc::Db(d) => d,
            _ => panic!("not a database service"),
        }
    }

    fn complex(self) -> Arc<Box<dyn ComplexService>> {
        match self {
            Svc::Complex(c) => c,
            _ => panic!("not a complex service"),
        }
    }

    fn config(self) -> Arc<ConfigService> {
        match self {
            Svc::Config(c) => c,
            _ => panic!("not a config service"),
        }
    }

    fn count(self) -> Arc<Counter> {
        match self {
            Svc::Count(c) => c,
            _ => panic!("not a counter"),
        }
    }
}

fn cache_key() -> TypeKey {
    TypeKey::new("CacheService")
}

fn db_key() -> TypeKey {
    TypeKey::new("DatabaseService")
}

fn config_key() -> TypeKey {
    TypeKey::new("ConfigService")
}

fn counter_key() -> TypeKey {
    TypeKey::new("Counter")
}

fn string_key() -> TypeKey {
    TypeKey::new("String")
}

// ============================================================================
// Basic Registration and Lookup
// ============================================================================

#[test]
fn test_register_and_get_struct() {
    let registry: ServiceRegistry<Svc> = ServiceRegistry::new();
    let cache_service = CacheService { name: "redis".to_string() };

    {
        let handle = RegistryWriteHandle::new(&registry);
        handle.register(&cache_key(), Svc::Cache(Arc::new(cache_service)));
    }

    let cache = registry.get(&cache_key()).unwrap().cache();
    assert_eq!(cache.name, "redis");
}

#[test]
fn registry_test_register_and_get_struct() {
    let registry: ServiceRegistry<Svc> = ServiceRegistry::new();
    registry.register(
        &cache_key(),
        Svc::Cache(Arc::new(CacheService { name: "redis".to_string() })),
    );

    let cache = registry.get(&cache_key()).unwrap().cache();
    assert_eq!(cache.name, "redis");
}

#[test]
fn test_foo() {
    struct Foo {
        ds: Arc<Box<dyn DatabaseService>>,
    }

    let registry: ServiceRegistry<Svc> = ServiceRegistry::new();

    registry.register(
        &db_key(),
        Svc::Db(Arc::new(Box::new(PostgresDb) as Box<dyn DatabaseService>)),
    );

    let db = registry.get(&db_key()).unwrap().db();
    let f = Foo { ds: db.clone() };

    assert_eq!(db.query("SELECT 1"), "Executing: SELECT 1");
    assert_eq!(f.ds.query("SELECT 1"), "Executing: SELECT 1");
}

#[test]
fn test_register_and_get_trait() {
    let registry: ServiceRegistry<Svc> = ServiceRegistry::new();

    {
        let handle = RegistryWriteHandle::new(&registry);
        handle.register(
            &db_key(),
            Svc::Db(Arc::new(Box::new(PostgresDb) as Box<dyn DatabaseService>)),
        );
    }

    let db = registry.get(&db_key()).unwrap().db();
    assert_eq!(db.query("SELECT 1"), "Executing: SELECT 1");
}

#[test]
fn registry_test_register_and_get_trait() {
    let registry: ServiceRegistry<Svc> = ServiceRegistry::new();
    registry.register(
        &db_key(),
        Svc::Db(Arc::new(Box::new(PostgresDb) as Box<dyn DatabaseService>)),
    );

    let db = registry.get(&db_key()).unwrap().db();
    assert_eq!(db.query("SELECT 1"), "Executing: SELECT 1");
}

#[test]
fn test_get_nonexistent_service() {
    let registry: ServiceRegistry<Svc> = ServiceRegistry::new();
    let result = registry.get(&cache_key());
    assert!(result.is_none());
}

#[test]
fn test_multiple_services() {
    let registry: ServiceRegistry<Svc> = ServiceRegistry::new();
    let cache_service = CacheService { name: "redis".to_string() };

    {
        let handle = RegistryWriteHandle::new(&registry);
        handle.register(&cache_key(), Svc::Cache(Arc::new(cache_service)));
        handle.register(
            &db_key(),
            Svc::Db(Arc::new(Box::new(PostgresDb) as Box<dyn DatabaseService>)),
        );
        // Resolution works through both the registry and the handle
        registry.get(&db_key()).unwrap();
        handle.get(&db_key()).unwrap();
    }

    assert!(registry.contains(&cache_key()));
    assert!(registry.contains(&db_key()));
    assert!(!registry.contains(&string_key()));
}

#[test]
fn registry_test_multiple_services() {
    let registry: ServiceRegistry<Svc> = ServiceRegistry::new();
    registry.register(
        &cache_key(),
        Svc::Cache(Arc::new(CacheService { name: "redis".to_string() })),
    );
    registry.register(
        &db_key(),
        Svc::Db(Arc::new(Box::new(PostgresDb) as Box<dyn DatabaseService>)),
    );

    assert!(registry.contains(&cache_key()));
    assert!(registry.contains(&db_key()));
    assert!(!registry.contains(&string_key()));
}

#[test]
fn test_clear() {
    let registry: ServiceRegistry<Svc> = ServiceRegistry::new();
    registry.register(
        &cache_key(),
        Svc::Cache(Arc::new(CacheService { name: "redis".to_string() })),
    );

    assert!(registry.contains(&cache_key()));
    registry.clear();
    assert!(!registry.contains(&cache_key()));
}

// ============================================================================
// Empty Registry Tests
// ============================================================================

#[test]
fn test_empty_registry() {
    let registry: ServiceRegistry<Svc> = ServiceRegistry::new();
    assert!(!registry.contains(&cache_key()));
    assert!(!registry.contains(&string_key()));
}

#[test]
fn test_contains_empty_registry() {
    let registry: ServiceRegistry<Svc> = ServiceRegistry::new();
    assert!(!registry.contains(&cache_key()));
    assert!(!registry.contains(&db_key()));
    assert!(!registry.contains(&TypeKey::new("i32")));
}

// ============================================================================
// Registration & Replacement
// ============================================================================

#[test]
fn test_service_replacement() {
    let registry: ServiceRegistry<Svc> = ServiceRegistry::new();

    {
        let handle = RegistryWriteHandle::new(&registry);
        handle.register(
            &cache_key(),
            Svc::Cache(Arc::new(CacheService { name: "redis".to_string() })),
        );
    }

    let first = registry.get(&cache_key()).unwrap().cache();
    assert_eq!(first.name, "redis");

    {
        let handle = RegistryWriteHandle::new(&registry);
        handle.register(
            &cache_key(),
            Svc::Cache(Arc::new(CacheService { name: "memcached".to_string() })),
        );
    }

    let second = registry.get(&cache_key()).unwrap().cache();
    assert_eq!(second.name, "memcached");
}

#[test]
fn test_register_different_values_same_type() {
    let registry: ServiceRegistry<Svc> = ServiceRegistry::new();

    {
        let handle = RegistryWriteHandle::new(&registry);
        handle.register(
            &cache_key(),
            Svc::Cache(Arc::new(CacheService { name: "first".to_string() })),
        );
        handle.register(
            &cache_key(),
            Svc::Cache(Arc::new(CacheService { name: "second".to_string() })),
        );
        handle.register(
            &cache_key(),
            Svc::Cache(Arc::new(CacheService { name: "third".to_string() })),
        );
    }

    let service = registry.get(&cache_key()).unwrap().cache();
    assert_eq!(service.name, "third");
}

#[test]
fn test_multiple_different_types() {
    let registry: ServiceRegistry<Svc> = ServiceRegistry::new();

    {
        let handle = RegistryWriteHandle::new(&registry);
        handle.register(
            &cache_key(),
            Svc::Cache(Arc::new(CacheService { name: "redis".to_string() })),
        );
        handle.register(
            &config_key(),
            Svc::Config(Arc::new(ConfigService { port: 8080, host: "localhost".to_string() })),
        );
        handle.register(&counter_key(), Svc::Count(Arc::new(Counter::new())));
    }

    assert!(registry.contains(&cache_key()));
    assert!(registry.contains(&config_key()));
    assert!(registry.contains(&counter_key()));

    let cache = registry.get(&cache_key()).unwrap().cache();
    let config = registry.get(&config_key()).unwrap().config();
    let counter = registry.get(&counter_key()).unwrap().count();

    assert_eq!(cache.name, "redis");
    assert_eq!(config.port, 8080);
    assert_eq!(counter.get(), 0);
}

// ============================================================================
// RegistryWriteHandle Behavior
// ============================================================================

#[test]
fn test_handle_shares_storage() {
    let registry: ServiceRegistry<Svc> = ServiceRegistry::new();
    let handle = RegistryWriteHandle::new(&registry);

    handle.register(
        &cache_key(),
        Svc::Cache(Arc::new(CacheService { name: "redis".to_string() })),
    );

    // Should be visible in both handle and registry
    let from_registry = registry.get(&cache_key()).unwrap().cache();
    let from_handle = handle.get(&cache_key()).unwrap().cache();

    assert_eq!(from_registry.name, "redis");
    assert_eq!(from_handle.name, "redis");
}

#[test]
fn test_multiple_handles() {
    let registry: ServiceRegistry<Svc> = ServiceRegistry::new();
    let handle1 = RegistryWriteHandle::new(&registry);
    let handle2 = RegistryWriteHandle::new(&registry);

    handle1.register(
        &cache_key(),
        Svc::Cache(Arc::new(CacheService { name: "redis".to_string() })),
    );
    handle2.register(
        &config_key(),
        Svc::Config(Arc::new(ConfigService { port: 8080, host: "localhost".to_string() })),
    );

    // Both services should be accessible from both handles
    assert!(registry.contains(&cache_key()));
    assert!(registry.contains(&config_key()));

    let cache_from_h1 = handle1.get(&cache_key()).unwrap().cache();
    let cache_from_h2 = handle2.get(&cache_key()).unwrap().cache();
    assert_eq!(cache_from_h1.name, cache_from_h2.name);
}

#[test]
fn test_handle_resolve_vs_registry_resolve() {
    let registry: ServiceRegistry<Svc> = ServiceRegistry::new();
    let handle = RegistryWriteHandle::new(&registry);

    handle.register(&counter_key(), Svc::Count(Arc::new(Counter::new())));

    let from_registry = registry.get(&counter_key()).unwrap().count();
    let from_handle = handle.get(&counter_key()).unwrap().count();

    // Both should point to the same shared instance
    from_registry.increment();
    assert_eq!(from_handle.get(), 1);

    from_handle.increment();
    assert_eq!(from_registry.get(), 2);
}

#[test]
fn test_handle_register_visible_in_registry() {
    let registry: ServiceRegistry<Svc> = ServiceRegistry::new();

    {
        let handle = RegistryWriteHandle::new(&registry);
        handle.register(
            &cache_key(),
            Svc::Cache(Arc::new(CacheService { name: "memcached".to_string() })),
        );
    }

    assert!(registry.contains(&cache_key()));
    let service = registry.get(&cache_key()).unwrap().cache();
    assert_eq!(service.name, "memcached");
}

// ============================================================================
// Arc Reference Sharing
// ============================================================================

#[test]
fn test_resolve_returns_same_arc() {
    let registry: ServiceRegistry<Svc> = ServiceRegistry::new();

    {
        let handle = RegistryWriteHandle::new(&registry);
        handle.register(&counter_key(), Svc::Count(Arc::new(Counter::new())));
    }

    let counter1 = registry.get(&counter_key()).unwrap().count();
    let counter2 = registry.get(&counter_key()).unwrap().count();

    counter1.increment();
    counter1.increment();

    // counter2 should see the same shared state
    assert_eq!(counter2.get(), 2);

    counter2.increment();
    assert_eq!(counter1.get(), 3);
}

#[test]
fn test_arc_strong_count() {
    let registry: ServiceRegistry<Svc> = ServiceRegistry::new();

    {
        let handle = RegistryWriteHandle::new(&registry);
        handle.register(
            &cache_key(),
            Svc::Cache(Arc::new(CacheService { name: "redis".to_string() })),
        );
    }

    let ref1 = registry.get(&cache_key()).unwrap().cache();
    let ref2 = registry.get(&cache_key()).unwrap().cache();
    let ref3 = registry.get(&cache_key()).unwrap().cache();

    // All three should point to the same instance
    assert_eq!(ref1.name, ref2.name);
    assert_eq!(ref2.name, ref3.name);

    // Verify they're actually the same instance by checking pointer equality
    assert!(Arc::ptr_eq(&ref1, &ref2));
    assert!(Arc::ptr_eq(&ref2, &ref3));
}

// ============================================================================
// Complex Trait Scenarios
// ============================================================================

#[test]
fn test_multiple_trait_implementations() {
    let registry: ServiceRegistry<Svc> = ServiceRegistry::new();

    {
        let handle = RegistryWriteHandle::new(&registry);
        // Note: only one implementation is registered per capability key
        handle.register(
            &db_key(),
            Svc::Db(Arc::new(Box::new(PostgresDb) as Box<dyn DatabaseService>)),
        );
    }

    let db = registry.get(&db_key()).unwrap().db();
    assert_eq!(db.query("SELECT *"), "Executing: SELECT *");

    // Replace with different implementation
    {
        let handle = RegistryWriteHandle::new(&registry);
        handle.register(
            &db_key(),
            Svc::Db(Arc::new(Box::new(MySqlDb) as Box<dyn DatabaseService>)),
        );
    }

    let db2 = registry.get(&db_key()).unwrap().db();
    assert_eq!(db2.query("SELECT *"), "MySQL: SELECT *");
}

#[test]
fn test_trait_with_mutable_state() {
    let registry: ServiceRegistry<Svc> = ServiceRegistry::new();

    {
        let handle = RegistryWriteHandle::new(&registry);
        handle.register(&counter_key(), Svc::Count(Arc::new(Counter::new())));
    }

    let counter1 = registry.get(&counter_key()).unwrap().count();
    let counter2 = registry.get(&counter_key()).unwrap().count();

    assert_eq!(counter1.increment(), 1);
    assert_eq!(counter2.increment(), 2);
    assert_eq!(counter1.get(), 2);
}

#[test]
fn test_trait_with_multiple_methods() {
    let registry: ServiceRegistry<Svc> = ServiceRegistry::new();

    {
        let handle = RegistryWriteHandle::new(&registry);
        handle.register(
            &TypeKey::new("ComplexService"),
            Svc::Complex(
                Arc::new(
                    Box::new(ComplexServiceImpl { prefix: "test".to_string() })
                        as Box<dyn ComplexService>,
                ),
            ),
        );
    }

    let service = registry.get(&TypeKey::new("ComplexService")).unwrap().complex();
    assert_eq!(service.method_one(), "test_one");
    assert_eq!(service.method_two(5), 10);
    assert_eq!(service.method_three(), vec!["a", "b", "c"]);
}

// ============================================================================
// Different Data Types
// ============================================================================

#[test]
fn test_register_primitive_wrapper() {
    let registry: ServiceRegistry<Svc> = ServiceRegistry::new();

    {
        let handle = RegistryWriteHandle::new(&registry);
        handle.register(&TypeKey::new("IntWrapper"), Svc::IntBox(Arc::new(42)));
        handle.register(&TypeKey::new("BoolWrapper"), Svc::BoolBox(Arc::new(true)));
    }

    let int_val = match registry.get(&TypeKey::new("IntWrapper")).unwrap() {
        Svc::IntBox(v) => v,
        _ => panic!("wrong payload"),
    };
    let bool_val = match registry.get(&TypeKey::new("BoolWrapper")).unwrap() {
        Svc::BoolBox(v) => v,
        _ => panic!("wrong payload"),
    };

    assert_eq!(*int_val, 42);
    assert_eq!(*bool_val, true);
}

#[test]
fn test_register_string_and_vec() {
    let registry: ServiceRegistry<Svc> = ServiceRegistry::new();

    {
        let handle = RegistryWriteHandle::new(&registry);
        handle.register(&string_key(), Svc::Text(Arc::new("hello world".to_string())));
        handle.register(&TypeKey::new("Vec<i32>"), Svc::Numbers(Arc::new(vec![1, 2, 3, 4, 5])));
    }

    let string_val = match registry.get(&string_key()).unwrap() {
        Svc::Text(v) => v,
        _ => panic!("wrong payload"),
    };
    let vec_val = match registry.get(&TypeKey::new("Vec<i32>")).unwrap() {
        Svc::Numbers(v) => v,
        _ => panic!("wrong payload"),
    };

    assert_eq!(*string_val, "hello world");
    assert_eq!(*vec_val, vec![1, 2, 3, 4, 5]);
}

#[test]
fn test_register_complex_nested_types() {
    let registry: ServiceRegistry<Svc> = ServiceRegistry::new();

    {
        let handle = RegistryWriteHandle::new(&registry);
        let mut map = HashMap::new();
        map.insert("key1".to_string(), vec![1, 2, 3]);
        map.insert("key2".to_string(), vec![4, 5, 6]);
        handle.register(&TypeKey::new("HashMap<String, Vec<i32>>"), Svc::TextMap(Arc::new(map)));

        handle.register(
            &config_key(),
            Svc::Config(Arc::new(ConfigService { port: 9000, host: "0.0.0.0".to_string() })),
        );
    }

    let map_val = match registry.get(&TypeKey::new("HashMap<String, Vec<i32>>")).unwrap() {
        Svc::TextMap(v) => v,
        _ => panic!("wrong payload"),
    };
    assert_eq!(map_val.get("key1"), Some(&vec![1, 2, 3]));

    let config = registry.get(&config_key()).unwrap().config();
    assert_eq!(config.port, 9000);
}

#[test]
fn test_register_generic_types() {
    let registry: ServiceRegistry<Svc> = ServiceRegistry::new();

    {
        let handle = RegistryWriteHandle::new(&registry);
        handle.register(
            &TypeKey::new("Container<i32>"),
            Svc::IntContainer(Arc::new(Container { data: 42 })),
        );
        handle.register(
            &TypeKey::new("Container<String>"),
            Svc::TextContainer(Arc::new(Container { data: "text".to_string() })),
        );
        handle.register(
            &TypeKey::new("Container<Vec<i32>>"),
            Svc::VecContainer(Arc::new(Container { data: vec![1, 2, 3] })),
        );
    }

    let int_container = match registry.get(&TypeKey::new("Container<i32>")).unwrap() {
        Svc::IntContainer(v) => v,
        _ => panic!("wrong payload"),
    };
    let string_container = match registry.get(&TypeKey::new("Container<String>")).unwrap() {
        Svc::TextContainer(v) => v,
        _ => panic!("wrong payload"),
    };
    let vec_container = match registry.get(&TypeKey::new("Container<Vec<i32>>")).unwrap() {
        Svc::VecContainer(v) => v,
        _ => panic!("wrong payload"),
    };

    assert_eq!(int_container.data, 42);
    assert_eq!(string_container.data, "text");
    assert_eq!(vec_container.data, vec![1, 2, 3]);
}

// ============================================================================
// Registration Edge Cases
// ============================================================================

#[test]
fn test_register_macro_with_complex_expression() {
    let registry: ServiceRegistry<Svc> = ServiceRegistry::new();

    {
        let handle = RegistryWriteHandle::new(&registry);

        // Register with computed values
        let name = format!("{}-{}", "redis", "cache");
        handle.register(&cache_key(), Svc::Cache(Arc::new(CacheService { name })));

        // Register with constructor
        handle.register(&counter_key(), Svc::Count(Arc::new(Counter::new())));
    }

    let cache = registry.get(&cache_key()).unwrap().cache();
    assert_eq!(cache.name, "redis-cache");

    let counter = registry.get(&counter_key()).unwrap().count();
    assert_eq!(counter.get(), 0);
}

#[test]
fn test_resolve_trait_macro_variations() {
    let registry: ServiceRegistry<Svc> = ServiceRegistry::new();

    {
        let handle = RegistryWriteHandle::new(&registry);
        handle.register(
            &db_key(),
            Svc::Db(Arc::new(Box::new(PostgresDb) as Box<dyn DatabaseService>)),
        );
    }

    // Via registry
    let db1 = registry.get(&db_key()).unwrap().db();
    assert_eq!(db1.query("test"), "Executing: test");

    // Via handle
    let handle = RegistryWriteHandle::new(&registry);
    let db2 = handle.get(&db_key()).unwrap().db();
    assert_eq!(db2.query("test"), "Executing: test");

    // Direct resolve
    let db3 = registry.get(&db_key()).unwrap().db();
    assert_eq!(db3.query("test"), "Executing: test");
}

// ============================================================================
// Contains Method Coverage
// ============================================================================

#[test]
fn test_contains_after_registration() {
    let registry: ServiceRegistry<Svc> = ServiceRegistry::new();

    assert!(!registry.contains(&cache_key()));

    {
        let handle = RegistryWriteHandle::new(&registry);
        handle.register(
            &cache_key(),
            Svc::Cache(Arc::new(CacheService { name: "redis".to_string() })),
        );
    }

    assert!(registry.contains(&cache_key()));
}

#[test]
fn test_contains_different_types() {
    let registry: ServiceRegistry<Svc> = ServiceRegistry::new();

    {
        let handle = RegistryWriteHandle::new(&registry);
        handle.register(
            &cache_key(),
            Svc::Cache(Arc::new(CacheService { name: "redis".to_string() })),
        );
        handle.register(
            &config_key(),
            Svc::Config(Arc::new(ConfigService { port: 8080, host: "localhost".to_string() })),
        );
    }

    assert!(registry.contains(&cache_key()));
    assert!(registry.contains(&config_key()));
    assert!(!registry.contains(&counter_key()));
    assert!(!registry.contains(&string_key()));
}

#[test]
fn test_contains_before_and_after() {
    let registry: ServiceRegistry<Svc> = ServiceRegistry::new();

    assert!(!registry.contains(&cache_key()));
    assert!(!registry.contains(&config_key()));

    {
        let handle = RegistryWriteHandle::new(&registry);
        handle.register(
            &cache_key(),
            Svc::Cache(Arc::new(CacheService { name: "redis".to_string() })),
        );
    }

    assert!(registry.contains(&cache_key()));
    assert!(!registry.contains(&config_key()));

    {
        let handle = RegistryWriteHandle::new(&registry);
        handle.register(
            &config_key(),
            Svc::Config(Arc::new(ConfigService { port: 3000, host: "localhost".to_string() })),
        );
    }

    assert!(registry.contains(&cache_key()));
    assert!(registry.contains(&config_key()));
}

// ============================================================================
// Default Trait
// ============================================================================

#[test]
fn registry_test_default_trait() {
    let registry: ServiceRegistry<Svc> = Default::default();
    assert!(!registry.contains(&cache_key()));

    {
        let handle = RegistryWriteHandle::new(&registry);
        handle.register(
            &cache_key(),
            Svc::Cache(Arc::new(CacheService { name: "test".to_string() })),
        );
    }

    assert!(registry.contains(&cache_key()));
}

// ============================================================================
// Shared Access
// ============================================================================

#[test]
fn test_shared_service_modification() {
    let registry: ServiceRegistry<Svc> = ServiceRegistry::new();

    {
        let handle = RegistryWriteHandle::new(&registry);
        handle.register(&counter_key(), Svc::Count(Arc::new(Counter::new())));
    }

    let counter1 = registry.get(&counter_key()).unwrap().count();
    let counter2 = registry.get(&counter_key()).unwrap().count();
    let counter3 = registry.get(&counter_key()).unwrap().count();

    counter1.increment();
    counter2.increment();
    counter3.increment();

    assert_eq!(counter1.get(), 3);
    assert_eq!(counter2.get(), 3);
    assert_eq!(counter3.get(), 3);
}

#[test]
fn test_service_independence() {
    let registry: ServiceRegistry<Svc> = ServiceRegistry::new();

    {
        let handle = RegistryWriteHandle::new(&registry);
        handle.register(&counter_key(), Svc::Count(Arc::new(Counter::new())));
        handle.register(
            &cache_key(),
            Svc::Cache(Arc::new(CacheService { name: "redis".to_string() })),
        );
    }

    let counter = registry.get(&counter_key()).unwrap().count();
    counter.increment();

    // Resolving the counter shouldn't affect the cache service
    let cache = registry.get(&cache_key()).unwrap().cache();
    assert_eq!(cache.name, "redis");

    // Counter should still have its state
    assert_eq!(counter.get(), 1);
}
