use trait_mux::enumerate::{chars_of, power_set, rank_combinations};
use trait_mux::order::{chars_lt, indices_lt};

#[test]
fn names_compare_code_point_by_code_point() {
    let a: Vec<char> = "Debug".chars().collect();
    let b: Vec<char> = "Display".chars().collect();
    assert!(chars_lt(&a, &b));
    assert!(!chars_lt(&b, &a));
    assert!(!chars_lt(&a, &a));
    let p: Vec<char> = "Deb".chars().collect();
    assert!(chars_lt(&p, &a));
    assert!(chars_lt(&"Zed".chars().collect(), &"abc".chars().collect()));
}

#[test]
fn index_lists_compare_lexicographically() {
    assert!(indices_lt(&vec![0, 2], &vec![1, 3]));
    assert!(indices_lt(&vec![1], &vec![1, 0]));
    assert!(!indices_lt(&vec![2], &vec![1, 9]));
}

#[test]
fn chars_of_keeps_every_character() {
    assert_eq!(chars_of(&"aé∂z".to_string()), vec!['a', 'é', '∂', 'z']);
}

#[test]
fn power_set_follows_binary_counting() {
    let p = power_set(3);
    let expected: Vec<Vec<usize>> = vec![
        vec![],
        vec![0],
        vec![1],
        vec![0, 1],
        vec![2],
        vec![0, 2],
        vec![1, 2],
        vec![0, 1, 2],
    ];
    assert_eq!(p, expected);
}

#[test]
fn ranking_puts_the_largest_first_and_none_last() {
    let idents = vec!["B".to_string(), "A".to_string()];
    let r = rank_combinations(&"P".to_string(), &idents);
    let names: Vec<&str> = r.iter().map(|e| e.name.as_str()).collect();
    assert_eq!(names, vec!["PBA", "PA", "PB", "PNone"]);
}
