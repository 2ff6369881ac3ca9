use synapse_core::json::{decimal, id_list_json, json_array};

#[test]
fn decimal_writes_integers_as_to_string_does() {
    for &n in &[0u32, 7, 10, 99, 100, 1234567, u32::MAX] {
        assert_eq!(decimal(n), n.to_string());
    }
    assert_eq!(decimal(4294967295), "4294967295");
}

#[test]
fn json_array_of_nothing_is_empty_brackets() {
    assert_eq!(json_array(&Vec::new()), "[]");
}

#[test]
fn json_array_separates_elements_with_commas() {
    let one = vec!["{\"id\":1}".to_string()];
    assert_eq!(json_array(&one), "[{\"id\":1}]");
    let three = vec!["a".to_string(), "bb".to_string(), "".to_string()];
    assert_eq!(json_array(&three), "[a,bb,]");
}

#[test]
fn id_list_json_writes_ids_in_decimal() {
    assert_eq!(id_list_json(&vec![]), "[]");
    assert_eq!(id_list_json(&vec![1]), "[1]");
    assert_eq!(id_list_json(&vec![1, 23, 0, 4294967295]), "[1,23,0,4294967295]");
}

#[test]
fn id_list_json_matches_join_of_to_string() {
    let ids: Vec<u32> = vec![5, 10, 15];
    let joined: Vec<String> = ids.iter().map(|n| n.to_string()).collect();
    assert_eq!(id_list_json(&ids), format!("[{}]", joined.join(",")));
}
