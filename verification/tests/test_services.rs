use portscan::services::ServiceTable;
use portscan::COMMON_SERVICES;
use std::collections::{HashMap, HashSet};

#[test]
fn test_services_unique_ports() {
    let ports: HashSet<u16> = COMMON_SERVICES.iter().map(|&(_, port)| port).collect();

    assert_eq!(ports.len(), COMMON_SERVICES.len());
}

#[test]
fn test_services_valid_ports() {
    for &(_, port) in COMMON_SERVICES.iter() {
        assert!(port > 0);
    }
}

#[test]
fn test_services_common_ports() {
    let ports: HashSet<u16> = COMMON_SERVICES.iter().map(|&(_, port)| port).collect();

    assert!(ports.contains(&80));
    assert!(ports.contains(&443));
    assert!(ports.contains(&22));
    assert!(ports.contains(&21));
}

#[test]
fn test_service_map() {
    let service_map: HashMap<u16, &str> = COMMON_SERVICES
        .iter()
        .map(|&(name, port)| (port, name))
        .collect();

    assert_eq!(service_map.get(&80), Some(&"HTTP"));
    assert_eq!(service_map.get(&443), Some(&"HTTPS"));
    assert_eq!(service_map.get(&22), Some(&"SSH"));
    assert_eq!(service_map.get(&12345), None);
}

#[test]
fn name_for_known_and_unknown_ports() {
    let table = ServiceTable::new();

    assert_eq!(table.name_for(80), Some("HTTP".to_string()));
    assert_eq!(table.name_for(443), Some("HTTPS".to_string()));
    assert_eq!(table.name_for(22), Some("SSH".to_string()));
    assert_eq!(table.name_for(12345), None);
    assert_eq!(table.name_for(0), None);
}

#[test]
fn name_for_agrees_with_every_table_entry() {
    let table = ServiceTable::new();

    for &(name, port) in COMMON_SERVICES.iter() {
        assert_eq!(table.name_for(port), Some(name.to_string()));
    }
}
