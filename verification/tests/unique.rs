use evm_extractor::unique::AddressSet;

fn list(items: &[&str]) -> Vec<String> {
    items.iter().map(|item| item.to_string()).collect()
}

#[test]
fn addresses_are_kept_once_in_the_order_in_which_they_came() {
    let mut set = AddressSet::new();
    assert_eq!(set.len(), 0);
    set.insert_all(list(&["b", "a", "b"]));
    set.insert("c".to_string());
    set.insert_all(list(&["a", "d", "C"]));
    assert_eq!(set.addresses(), &list(&["b", "a", "c", "d", "C"]));
    assert_eq!(set.len(), 5);
}

#[test]
fn the_order_of_the_batches_does_not_change_what_is_kept() {
    let (one, two) = (list(&["x", "y", "x"]), list(&["y", "z"]));
    let mut first = AddressSet::new();
    first.insert_all(one.clone());
    first.insert_all(two.clone());
    let mut second = AddressSet::new();
    second.insert_all(two.clone());
    second.insert_all(one.clone());
    let mut joined = AddressSet::new();
    joined.insert_all([one, two].concat());
    assert_eq!(first.addresses(), joined.addresses());
    assert_eq!(first.len(), second.len());
    let (mut a, mut b) = (first.addresses().clone(), second.addresses().clone());
    a.sort();
    b.sort();
    assert_eq!(a, b);
}

#[test]
fn any_order_of_arrival_gathers_the_same_addresses() {
    let batches = [list(&["a", "b"]), list(&["b", "c", "a"]), list(&[]), list(&["d", "d"])];
    let orders = [[0, 1, 2, 3], [3, 2, 1, 0], [1, 3, 0, 2], [2, 0, 3, 1]];
    for order in orders {
        let mut set = AddressSet::new();
        for index in order {
            set.insert_all(batches[index].clone());
        }
        let mut found = set.addresses().clone();
        found.sort();
        assert_eq!(found, list(&["a", "b", "c", "d"]));
        assert_eq!(set.len(), 4);
    }
}
