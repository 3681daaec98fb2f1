use hashing::OpenAddressing;
use rand::Rng;
use std::collections::HashMap;

#[test]
fn std_hashmap() {
    // setup
    let mut origin_elems: Vec<(u64, u64)> = Vec::new();
    let pressure = 20;
    let mut rng = rand::thread_rng();
    let mut reference_table: HashMap<u64, u64> = HashMap::new();
    for _ in 0..pressure {
        let k: u64 = rng.gen_range(10000, 1000000);
        let v: u64 = rng.gen_range(1, 100);
        origin_elems.push((k, v));
        reference_table.insert(k, v);
    }
    println!(
        "setup finished, pressure: {}, table length: {}",
        origin_elems.len(),
        reference_table.len()
    );

    // new
    let mut table = OpenAddressing::new();

    // insert
    for elem in &origin_elems {
        table.insert(elem.0, elem.1);
    }

    // check table
    assert_eq!(reference_table.len(), table.len());
    table.check();

    // lookup
    for (k, v) in &reference_table {
        if table.lookup(*k) != Some(*v) {
            println!("value inconsistent at key {}", k);
            for e in &origin_elems {
                if e.0 == *k {
                    println!("origin elems: {} -> {}", k, e.1);
                }
            }
            println!("reference table: {} -> {}", k, reference_table.get(k).unwrap());
            println!("table: {} -> {:?}", k, table.lookup(*k));
            panic!();
        }
    }

    assert_eq!(reference_table.len(), table.len());
    table.check();

    // removal
    for (k, _) in &reference_table {
        let result = table.remove(k);
        match result {
            Some(v) => println!("remove {} success, value: {}", k, v),
            None => {
                println!("remove {} failed", k);
                panic!();
            }
        }
    }

    table.check();
    assert_eq!(0, table.len());
}
