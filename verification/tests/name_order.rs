use lau_penrose_v2::name_order::{name_precedes, sorted_names};

#[test]
fn name_precedes_is_string_order() {
    let words = ["", "a", "ab", "b", "B", "é", "z", "aa"];
    for x in words {
        for y in words {
            assert_eq!(name_precedes(&x.to_string(), &y.to_string()), x < y, "{} {}", x, y);
        }
    }
}

#[test]
fn sorted_names_keeps_repeats() {
    let list: Vec<String> = ["c", "a", "c", "b"].iter().map(|s| s.to_string()).collect();
    assert_eq!(sorted_names(&list), vec!["a", "b", "c", "c"]);
}
