use atlas_core::exchange::SourceFile;
use atlas_core::manager::AtlasManager;
use atlas_core::standard::AtlasError;

fn number(text: &String) -> Option<u64> {
    text.parse::<f64>().ok().map(|value| value.to_bits())
}

fn table(name: &str, days: usize) -> SourceFile {
    let mut text = String::from("Date,Close\n");
    for day in 0..days {
        text.push_str(&format!("2001-01-{:02},{}\n", day + 1, day + 10));
    }
    SourceFile { file_name: name.to_string(), path: name.to_string(), content: text.into_bytes() }
}

#[test]
fn new_registry_is_empty() {
    let manager = AtlasManager::new().unwrap();
    assert!(manager.get_exchange_ids().is_empty());
    assert!(matches!(manager.get_exchange("any"), Err(AtlasError::ConfigurationError { .. })));
}

#[test]
fn registered_collection_is_found_by_name() {
    let mut manager = AtlasManager::new().unwrap();
    let files = vec![table("a.csv", 3), table("b.csv", 5)];
    manager.add_exchange("first", "dir", "%Y-%m-%d", &files, &number).unwrap();
    let found = manager.get_exchange("first").unwrap();
    assert_eq!(found.get_name(), "first");
    assert_eq!(found.get_source(), "dir");
    assert_eq!(found.get_datetime_format(), "%Y-%m-%d");
    assert_eq!(found.get_timestamps().len(), 5);
    assert_eq!(found.get_headers(), &vec!["Close".to_string()]);
    assert_eq!(found.get_close_index(), 0);
    match manager.get_exchange("second") {
        Err(error) => assert_eq!(error.to_string(), "Configuration error: exchange not found: second"),
        Ok(_) => panic!("nothing was registered under the name"),
    }
    assert_eq!(manager.get_exchange_ids(), vec!["first".to_string()]);
}

#[test]
fn registering_a_name_again_replaces_the_collection() {
    let mut manager = AtlasManager::new().unwrap();
    manager.add_exchange("x", "dir", "%Y-%m-%d", &vec![table("a.csv", 3)], &number).unwrap();
    manager.add_exchange("y", "dir", "%Y-%m-%d", &vec![table("a.csv", 4)], &number).unwrap();
    let earlier = manager.get_exchange("x").unwrap();
    manager.add_exchange("x", "dir", "%Y-%m-%d", &vec![table("a.csv", 7)], &number).unwrap();
    assert_eq!(earlier.get_timestamps().len(), 3);
    assert_eq!(manager.get_exchange("x").unwrap().get_timestamps().len(), 7);
    assert_eq!(manager.get_exchange("y").unwrap().get_timestamps().len(), 4);
    let mut ids = manager.get_exchange_ids();
    ids.sort();
    assert_eq!(ids, vec!["x".to_string(), "y".to_string()]);
}

#[test]
fn failed_build_leaves_the_registry_as_it_was() {
    let mut manager = AtlasManager::new().unwrap();
    manager.add_exchange("x", "dir", "%Y-%m-%d", &vec![table("a.csv", 3)], &number).unwrap();
    let outcome = manager.add_exchange("x", "dir", "%Y-%m-%d", &Vec::new(), &number);
    assert!(matches!(outcome, Err(AtlasError::ConfigurationError { .. })));
    let outcome = manager.add_exchange("z", "dir", "%d", &vec![table("a.csv", 3)], &number);
    assert!(matches!(outcome, Err(AtlasError::ParseError { .. })));
    assert_eq!(manager.get_exchange("x").unwrap().get_timestamps().len(), 3);
    assert_eq!(manager.get_exchange_ids(), vec!["x".to_string()]);
}
