use consistent_hash::ring::new_hash_table;
use consistent_hash::ring::distance;
use consistent_hash::ring::ConsistentHashTable;
use consistent_hash::ring::HashStrategy;
use consistent_hash::ring::RingError;
use consistent_hash::ring::RingHasher;

fn run_command(hash_table: &mut ConsistentHashTable<RingHasher>, command: &str) -> Option<String> {
    if command.starts_with("add s") {
        let server = &command[4..];
        hash_table.add_container(server.to_owned());
        return None;
    }

    if command.starts_with("remove s") {
        let server = &command[7..];
        hash_table.remove_container(server.to_owned());
        return None;
    }

    if command.starts_with("add k") {
        let key = &command[4..];
        hash_table.add_entry(key.to_owned());
        return None;
    }

    if command.starts_with("query k") {
        let key = &command[6..];
        let result = hash_table.get_container_id_for_entry(key.to_owned());
        let id = match result {
            Ok(id) => id,
            Err(_) => panic!("Invalid"),
        };
        return Some(id);
    }

    println!("command not recognized: {}", command);
    None
}

#[test]
fn test_commands() {
    // Simplified command parsing to allow writing test cases in a concise and readable way
    //
    // add s<x> - represents adding a server
    // remove s<x> - represents deleting a server
    // add k<x> - represents add a key
    // query k<x> - represents querying the server to which k<x> is assigned to
    let data: Vec<(Vec<&str>, Vec<&str>)> = vec![
        // Case 1: inserting a key with a bunch of pre-existing servers
        (vec!["add s10", "add s20", "add s30", "add k9", "query k9"], vec!["s10"]),
        // Case 2: inserting a key with a bunch of pre-existing servers then removing a server
        (
            vec![
                "add s10",
                "add s20",
                "add s30",
                "add k9",
                "query k9",
                "remove s10",
                "query k9",
                "remove s20",
                "query k9",
            ],
            vec!["s10", "s20", "s30"],
        ),
        // Case 3: all containers are smaller than the queried value
        (
            vec!["add s10", "add s20", "add k100", "add s30", "query k100"],
            vec!["s10"],
        ),
    ];

    for instance in &data {
        let commands = &instance.0;
        let query_results = &instance.1;

        let mut hash_table = new_hash_table();
        hash_table.set_hash_function(RingHasher::Numeric);

        let mut query_results_index = 0;

        for &command in commands {
            let result = run_command(&mut hash_table, command);
            match result {
                None => continue,
                Some(actual_server) => {
                    let expected_server = query_results[query_results_index];
                    query_results_index += 1;
                    assert_eq!(actual_server, expected_server);
                }
            }
        }
    }
}

#[test]
fn successor_picks_smallest_greater_hash() {
    let mut table = ConsistentHashTable::new(RingHasher::Numeric);
    table.add_container("s10".to_owned());
    table.add_container("s20".to_owned());
    table.add_container("s30".to_owned());
    assert_eq!(table.get_container_id_for_entry("k9".to_owned()), Ok("s10".to_owned()));
}

#[test]
fn removal_reroutes_to_next_successor() {
    let mut table = ConsistentHashTable::new(RingHasher::Numeric);
    table.add_container("s10".to_owned());
    table.add_container("s20".to_owned());
    table.add_container("s30".to_owned());
    table.remove_container("s10".to_owned());
    assert_eq!(table.get_container_id_for_entry("k9".to_owned()), Ok("s20".to_owned()));
    table.remove_container("s20".to_owned());
    assert_eq!(table.get_container_id_for_entry("k9".to_owned()), Ok("s30".to_owned()));
}

#[test]
fn wrap_around_routes_to_minimum() {
    let mut table = ConsistentHashTable::new(RingHasher::Numeric);
    table.add_container("s10".to_owned());
    table.add_container("s20".to_owned());
    table.add_container("s30".to_owned());
    assert_eq!(table.get_container_id_for_entry("k100".to_owned()), Ok("s10".to_owned()));
}

#[test]
fn empty_ring_fails_with_no_containers() {
    let table = ConsistentHashTable::new(RingHasher::Numeric);
    assert_eq!(
        table.get_container_id_for_entry("k1".to_owned()),
        Err(RingError::NoContainers)
    );
}

#[test]
fn one_container_serves_every_key() {
    let mut table = ConsistentHashTable::new(RingHasher::Numeric);
    table.add_container("s50".to_owned());
    assert_eq!(table.get_container_id_for_entry("k1".to_owned()), Ok("s50".to_owned()));
    assert_eq!(table.get_container_id_for_entry("k50".to_owned()), Ok("s50".to_owned()));
    assert_eq!(table.get_container_id_for_entry("k99".to_owned()), Ok("s50".to_owned()));
}

#[test]
fn key_on_container_hash_goes_to_next() {
    let mut table = ConsistentHashTable::new(RingHasher::Numeric);
    table.add_container("s10".to_owned());
    table.add_container("s20".to_owned());
    // Strict successor: a key sitting exactly on s10 belongs to s20.
    assert_eq!(table.get_container_id_for_entry("k10".to_owned()), Ok("s20".to_owned()));
}

#[test]
fn adding_twice_leaves_one_point() {
    let mut table = ConsistentHashTable::new(RingHasher::Numeric);
    table.add_container("s10".to_owned());
    table.add_container("s10".to_owned());
    table.remove_container("s10".to_owned());
    assert_eq!(
        table.get_container_id_for_entry("k1".to_owned()),
        Err(RingError::NoContainers)
    );
}

#[test]
fn removing_twice_equals_removing_once() {
    let mut table = ConsistentHashTable::new(RingHasher::Numeric);
    table.add_container("s10".to_owned());
    table.add_container("s20".to_owned());
    table.remove_container("s10".to_owned());
    table.remove_container("s10".to_owned());
    assert_eq!(table.get_container_id_for_entry("k5".to_owned()), Ok("s20".to_owned()));
}

#[test]
fn removing_absent_container_is_noop() {
    let mut table = ConsistentHashTable::new(RingHasher::Numeric);
    table.add_container("s10".to_owned());
    table.remove_container("s99".to_owned());
    assert_eq!(table.get_container_id_for_entry("k5".to_owned()), Ok("s10".to_owned()));
}

#[test]
fn resolve_is_deterministic() {
    let mut table = ConsistentHashTable::new(RingHasher::Numeric);
    table.add_container("s10".to_owned());
    table.add_container("s20".to_owned());
    let first = table.get_container_id_for_entry("k15".to_owned());
    let second = table.get_container_id_for_entry("k15".to_owned());
    assert_eq!(first, second);
    assert_eq!(first, Ok("s20".to_owned()));
}

#[test]
fn add_entry_does_not_affect_routing() {
    let mut table = ConsistentHashTable::new(RingHasher::Numeric);
    table.add_container("s10".to_owned());
    table.add_container("s20".to_owned());
    table.add_entry("k15".to_owned());
    table.add_entry("k3".to_owned());
    assert_eq!(table.get_container_id_for_entry("k15".to_owned()), Ok("s20".to_owned()));
    assert_eq!(table.get_container_id_for_entry("k3".to_owned()), Ok("s10".to_owned()));
}

#[test]
fn numeric_strategy_reads_digit_suffix() {
    assert_eq!(RingHasher::Numeric.hash(&"s10".to_owned()), 10);
    assert_eq!(RingHasher::Numeric.hash(&"k100".to_owned()), 100);
    assert_eq!(RingHasher::Numeric.hash(&"k4294967295".to_owned()), u32::MAX);
    // Absent, malformed or oversized suffixes map to 0.
    assert_eq!(RingHasher::Numeric.hash(&"s".to_owned()), 0);
    assert_eq!(RingHasher::Numeric.hash(&"sx1".to_owned()), 0);
    assert_eq!(RingHasher::Numeric.hash(&"k4294967296".to_owned()), 0);
}

#[test]
fn farm_strategy_matches_published_value() {
    // The documented FarmHash example hash64("hello world") == 6381520714923946011;
    // the strategy keeps its low 32 bits.
    assert_eq!(RingHasher::Farm.hash(&"hello world".to_owned()), 2346102811);
}

#[test]
fn farm_strategy_routes_single_container() {
    let mut table = new_hash_table();
    table.add_container("alpha".to_owned());
    assert_eq!(
        table.get_container_id_for_entry("any key at all".to_owned()),
        Ok("alpha".to_owned())
    );
}

#[test]
fn distance_is_absolute_difference() {
    assert_eq!(distance(5, 3), 2);
    assert_eq!(distance(3, 5), 2);
    assert_eq!(distance(7, 7), 0);
    assert_eq!(distance(0, u32::MAX), u32::MAX);
}

#[test]
fn removal_leaves_other_keys_untouched() {
    let mut table = ConsistentHashTable::new(RingHasher::Numeric);
    table.add_container("s10".to_owned());
    table.add_container("s20".to_owned());
    table.add_container("s30".to_owned());
    assert_eq!(table.get_container_id_for_entry("k15".to_owned()), Ok("s20".to_owned()));
    assert_eq!(table.get_container_id_for_entry("k25".to_owned()), Ok("s30".to_owned()));
    // Only keys that resolved to s10 may move when s10 leaves.
    table.remove_container("s10".to_owned());
    assert_eq!(table.get_container_id_for_entry("k15".to_owned()), Ok("s20".to_owned()));
    assert_eq!(table.get_container_id_for_entry("k25".to_owned()), Ok("s30".to_owned()));
}
