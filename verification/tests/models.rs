use firewalleye::models::named_map::NamedMap;
use firewalleye::models::{Interface, Options, Totals};

#[test]
fn test_macro() {
    assert_eq!(
        Totals::new(123, 123, 123, 123),
        Totals {
            packets: 123,
            bytes: 123,
            src: 123,
            dst: 123
        }
    );
    let options = Options::new(vec!["123".to_string()], vec![], vec![]);
    assert_eq!(options.iifaces, vec!["123".to_string()]);
    assert!(options.oifaces.is_empty());
    assert!(options.protocols.is_empty());
}

#[test]
fn interface_default_is_empty() {
    assert_eq!(Interface::default(), Interface::new(0, 0, 0, 0));
}

#[test]
fn update_inputs_adds_to_inputs_only() {
    let mut i = Interface::new(1, 2, 3, 4);
    i.update_inputs((10, 100));
    assert_eq!(i, Interface::new(11, 2, 103, 4));
}

#[test]
fn update_outputs_adds_to_outputs_only() {
    let mut i = Interface::new(1, 2, 3, 4);
    i.update_outputs((10, 100));
    assert_eq!(i, Interface::new(1, 12, 3, 104));
}

#[test]
fn update_inputs_up_to_the_limit() {
    let mut i = Interface::new(u32::MAX - 1, 0, 0, 0);
    i.update_inputs((1, u32::MAX));
    assert_eq!(i, Interface::new(u32::MAX, 0, u32::MAX, 0));
}

#[test]
fn named_map_reads_back_what_was_written() {
    let mut m: NamedMap<u32> = NamedMap::new();
    assert_eq!(m.get(&"eth0".to_string()), None);
    m.insert("eth0".to_string(), 5);
    m.insert("eth1".to_string(), 7);
    m.insert("eth0".to_string(), 9);
    assert_eq!(m.get(&"eth0".to_string()), Some(9));
    assert_eq!(m.get(&"eth1".to_string()), Some(7));
    assert_eq!(m.get(&"eth2".to_string()), None);
    assert_eq!(
        m.entries(),
        &vec![("eth0".to_string(), 9), ("eth1".to_string(), 7)]
    );
}
