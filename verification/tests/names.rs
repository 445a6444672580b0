use preference_splitting::names::NameIndex;

fn index_of(names: &[&str]) -> NameIndex {
    let mut index = NameIndex::new();
    for n in names {
        index.push(n.to_string());
    }
    index
}

#[test]
fn lookup_finds_the_last_position_of_a_name() {
    let index = index_of(&["a", "b", "a", "c"]);
    assert_eq!(index.len(), 4);
    assert_eq!(index.lookup(&"a".to_string()), Some(2));
    assert_eq!(index.lookup(&"b".to_string()), Some(1));
    assert_eq!(index.lookup(&"c".to_string()), Some(3));
    assert_eq!(index.lookup(&"d".to_string()), None);
    assert_eq!(index.name(1), "b");
}

#[test]
fn lookup_after_push_finds_the_new_name_and_keeps_the_others() {
    let mut index = index_of(&["x", "y"]);
    let before_y = index.lookup(&"y".to_string());
    index.push("x".to_string());
    assert_eq!(index.lookup(&"x".to_string()), Some(2));
    assert_eq!(index.lookup(&"y".to_string()), before_y);
}

#[test]
fn many_names_with_shared_hash_buckets_are_told_apart() {
    let mut index = NameIndex::new();
    for i in 0..2000u32 {
        index.push(format!("{}", i % 1500));
    }
    assert_eq!(index.lookup(&"3".to_string()), Some(1503));
    assert_eq!(index.lookup(&"1499".to_string()), Some(1499));
    assert_eq!(index.lookup(&"1500".to_string()), None);
    assert_eq!(index.lookup(&"".to_string()), None);
}
