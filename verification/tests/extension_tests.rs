use my_domains::extension::{ext, has_extension};
use my_domains::group::{all_have_extension, extension_groups, extension_keys};
use my_domains::order::stable_order;
use my_domains::text::{chars_of, lex_le_exec};

fn strings(items: &[&str]) -> Vec<String> {
    items.iter().map(|s| String::from(*s)).collect()
}

#[test]
fn test_sort_extensions() {
    assert_eq!("net", ext("aha.net"));
    let mut v = vec!["aha.net", "aha.com", "aha.org"];
    v.sort_by(|a, b| ext(&a).cmp(ext(&b)));
    assert_eq!(vec!("aha.com", "aha.net", "aha.org"), v);
}

#[test]
fn ext_follows_the_last_dot() {
    assert_eq!(ext("www.example.co.uk"), "uk");
    assert_eq!(ext("Example.COM"), "COM");
    assert_eq!(ext("trailing."), "");
    assert_eq!(ext(".io"), "io");
    assert_eq!(ext("bücher.de"), "de");
    assert_eq!(ext("пример.рф"), "рф");
}

#[test]
fn names_without_a_dot_are_told_apart() {
    assert!(has_extension("aha.net"));
    assert!(has_extension("."));
    assert!(!has_extension("localhost"));
    assert!(!has_extension(""));
    assert!(all_have_extension(&strings(&["a.b", "c.d"])));
    assert!(!all_have_extension(&strings(&["a.b", "cd"])));
    assert!(all_have_extension(&strings(&[])));
}

#[test]
fn chars_are_read_in_order() {
    assert_eq!(chars_of("a.b"), vec!['a', '.', 'b']);
    assert_eq!(chars_of(""), Vec::<char>::new());
    assert_eq!(chars_of("é日"), vec!['é', '日']);
}

#[test]
fn strings_compare_as_std_compares_them() {
    let samples = ["", "a", "ab", "b", "B", "2023-01-01", "2024-05-01", "é", "z", "日本", "a b"];
    for a in samples.iter() {
        for b in samples.iter() {
            assert_eq!(lex_le_exec(&chars_of(a), &chars_of(b)), a <= b, "{:?} {:?}", a, b);
        }
    }
}

#[test]
fn stable_order_keeps_equal_keys_in_place() {
    let keys: Vec<Vec<char>> =
        ["net", "com", "net", "org", "com", ""].iter().map(|k| chars_of(k)).collect();
    assert_eq!(stable_order(&keys), vec![5, 1, 4, 0, 2, 3]);
    assert_eq!(stable_order(&Vec::new()), Vec::<usize>::new());
}

#[test]
fn extension_keys_are_the_top_level_domains() {
    let keys = extension_keys(&strings(&["aha.net", "x.y.org"]));
    assert_eq!(keys, vec![chars_of("net"), chars_of("org")]);
}

#[test]
fn groups_hold_one_top_level_domain_each() {
    let domains = strings(&["aha.net", "aha.com", "b.net", "aha.org", "c.com", "d.net"]);
    let groups = extension_groups(&domains);
    assert_eq!(groups, vec![vec![1, 4], vec![0, 2, 5], vec![3]]);
}

#[test]
fn grouping_then_flattening_is_sorting_by_extension() {
    let domains = strings(&["aha.net", "aha.com", "aha.org"]);
    let groups = extension_groups(&domains);
    let flat: Vec<&str> = groups.iter().flatten().map(|i| domains[*i].as_str()).collect();
    assert_eq!(flat, vec!["aha.com", "aha.net", "aha.org"]);
    let mut direct: Vec<&str> = domains.iter().map(|d| d.as_str()).collect();
    direct.sort_by(|a, b| ext(a).cmp(ext(b)));
    assert_eq!(flat, direct);
    let mut again = flat.clone();
    again.sort_by(|a, b| ext(a).cmp(ext(b)));
    assert_eq!(again, direct);
}

#[test]
fn grouping_an_empty_batch_gives_no_group() {
    assert_eq!(extension_groups(&strings(&[])), Vec::<Vec<usize>>::new());
}
