use vm_device::address::is_power_of_two;
use vm_device::registry::Registry;

#[test]
fn a_registry_holds_one_value_per_name() {
    let mut registry: Registry<u32> = Registry::new();
    let a = "a".to_string();
    let b = "b".to_string();
    assert!(!registry.contains_key(&a));
    assert_eq!(registry.remove(&a), None);
    assert_eq!(registry.insert(a.clone(), 1), Ok(()));
    assert_eq!(registry.insert(b.clone(), 2), Ok(()));
    assert!(registry.contains_key(&a));
    assert!(registry.contains_key(&b));
    // A second value under a name is handed back, and the first one stays.
    assert_eq!(registry.insert(a.clone(), 3), Err(3));
    assert_eq!(registry.remove(&a), Some(1));
    assert!(!registry.contains_key(&a));
    assert!(registry.contains_key(&b));
    assert_eq!(registry.remove(&a), None);
    assert_eq!(registry.insert(a.clone(), 3), Ok(()));
    assert_eq!(registry.remove(&b), Some(2));
    assert_eq!(registry.remove(&a), Some(3));
    assert!(!registry.contains_key(&b));
}

#[test]
fn names_are_told_apart_exactly() {
    let mut registry: Registry<u32> = Registry::new();
    assert_eq!(registry.insert("mmio".to_string(), 1), Ok(()));
    assert_eq!(registry.insert("mmio ".to_string(), 2), Ok(()));
    assert_eq!(registry.insert("MMIO".to_string(), 3), Ok(()));
    assert_eq!(registry.insert("".to_string(), 4), Ok(()));
    assert_eq!(registry.insert("".to_string(), 5), Err(5));
    assert_eq!(registry.remove(&"mmio ".to_string()), Some(2));
    assert_eq!(registry.remove(&"".to_string()), Some(4));
    assert_eq!(registry.remove(&"mmio".to_string()), Some(1));
    assert_eq!(registry.remove(&"MMIO".to_string()), Some(3));
}

#[test]
fn powers_of_two() {
    assert!(!is_power_of_two(0));
    assert!(is_power_of_two(1));
    assert!(is_power_of_two(2));
    assert!(!is_power_of_two(3));
    assert!(is_power_of_two(4));
    assert!(!is_power_of_two(6));
    assert!(!is_power_of_two(200));
    assert!(is_power_of_two(0x100));
    assert!(is_power_of_two(1 << 63));
    assert!(!is_power_of_two((1 << 63) + 1));
    assert!(!is_power_of_two(u64::MAX));
    for shift in 0..64 {
        assert!(is_power_of_two(1u64 << shift));
        if shift > 1 {
            assert!(!is_power_of_two((1u64 << shift) - 1));
            assert!(!is_power_of_two((1u64 << shift) | 1));
        }
    }
}
