use my_domains::fetch_whois::{
    copy_of, resolve_domain, resolve_extension, sort_by_expiration, DomainInfo,
};

fn strings(items: &[&str]) -> Vec<String> {
    items.iter().map(|s| String::from(*s)).collect()
}

fn with_expiration(name: &str, expire: &str) -> DomainInfo {
    DomainInfo {
        name: String::from(name),
        expire: String::from(expire),
        registrar: String::new(),
        error: String::new(),
    }
}

fn answer(expire: &str, registrar: &str) -> Option<String> {
    Some(format!("Registry Expiry Date: {}\nRegistrar: {}\n", expire, registrar))
}

#[test]
fn an_answer_gives_a_record_without_error() {
    let info = resolve_domain(
        "example.com",
        Some("Registrar: Example Corp\nRegistry Expiry Date: 2025-01-01T00:00:00Z\n"),
    );
    assert_eq!(info.name, "example.com");
    assert_eq!(info.expire, "2025-01-01T00:00:00Z");
    assert_eq!(info.registrar, "Example Corp");
    assert_eq!(info.error, "");
}

#[test]
fn a_failed_lookup_gives_a_record_with_error_and_no_data() {
    let info = resolve_domain("example.com", None);
    assert_eq!(info.name, "example.com");
    assert_eq!(info.expire, "");
    assert_eq!(info.registrar, "");
    assert_eq!(info.error, "whois call failed");
}

#[test]
fn an_answer_without_fields_is_no_error() {
    let info = resolve_domain("example.com", Some("nothing of use"));
    assert_eq!(info.expire, "");
    assert_eq!(info.registrar, "");
    assert_eq!(info.error, "");
}

#[test]
fn a_group_is_resolved_in_its_order() {
    let domains = strings(&["a.net", "b.com", "c.net"]);
    let responses = vec![answer("2025", "A"), None, answer("2024", "C")];
    let records = resolve_extension(&domains, &responses, &vec![2, 0]);
    assert_eq!(records.len(), 2);
    assert_eq!(records[0].name, "c.net");
    assert_eq!(records[0].expire, "2024");
    assert_eq!(records[1].name, "a.net");
    assert_eq!(records[1].registrar, "A");
}

#[test]
fn a_copy_equals_its_source() {
    let info = resolve_domain("example.com", Some("Name: N\nExpires On: E"));
    let copy = copy_of(&info);
    assert_eq!(copy.name, info.name);
    assert_eq!(copy.expire, "E");
    assert_eq!(copy.registrar, "N");
    assert_eq!(copy.error, info.error);
}

#[test]
fn records_sort_by_expiration_empty_first() {
    let records = vec![
        with_expiration("a", ""),
        with_expiration("b", "2024-05-01"),
        with_expiration("c", "2023-01-01"),
    ];
    let sorted = sort_by_expiration(&records);
    let expirations: Vec<&str> = sorted.iter().map(|r| r.expire.as_str()).collect();
    assert_eq!(expirations, vec!["", "2023-01-01", "2024-05-01"]);
    let names: Vec<&str> = sorted.iter().map(|r| r.name.as_str()).collect();
    assert_eq!(names, vec!["a", "c", "b"]);
}

#[test]
fn records_with_one_expiration_keep_their_order() {
    let records = vec![
        with_expiration("a", "2024"),
        with_expiration("b", "2023"),
        with_expiration("c", "2024"),
        with_expiration("d", "2023"),
    ];
    let names: Vec<String> = sort_by_expiration(&records).into_iter().map(|r| r.name).collect();
    assert_eq!(names, vec!["b", "d", "a", "c"]);
}

#[test]
fn a_batch_gives_one_record_for_each_name() {
    let domains = strings(&["a.net", "b.com", "c.org", "d.net", "a.net"]);
    let responses = vec![None, answer("2025-01-01", "R"), None, answer("2024-01-01", "S"), None];
    let records = DomainInfo::fetch_info(&domains, &responses);
    assert_eq!(records.len(), domains.len());
    let mut names: Vec<&str> = records.iter().map(|r| r.name.as_str()).collect();
    names.sort();
    assert_eq!(names, vec!["a.net", "a.net", "b.com", "c.org", "d.net"]);
    assert_eq!(DomainInfo::fetch_info(&[], &[]).len(), 0);
}

#[test]
fn a_failed_lookup_leaves_the_others_whole() {
    let domains = strings(&["a.net", "b.net", "c.com"]);
    let responses = vec![answer("2025-01-01", "R"), None, answer("2024-01-01", "S")];
    let records = DomainInfo::fetch_info(&domains, &responses);
    let names: Vec<&str> = records.iter().map(|r| r.name.as_str()).collect();
    assert_eq!(names, vec!["b.net", "c.com", "a.net"]);
    assert_eq!(records[0].error, "whois call failed");
    assert_eq!(records[0].expire, "");
    assert_eq!(records[0].registrar, "");
    assert_eq!(records[1].error, "");
    assert_eq!(records[1].expire, "2024-01-01");
    assert_eq!(records[1].registrar, "S");
    assert_eq!(records[2].error, "");
    assert_eq!(records[2].expire, "2025-01-01");
    assert_eq!(records[2].registrar, "R");
}

#[test]
fn equal_expirations_stand_by_extension_then_by_place() {
    let domains = strings(&["a.org", "b.net", "c.com", "d.net", "e.com"]);
    let responses = vec![None, None, answer("2024", "R"), None, None];
    let records = DomainInfo::fetch_info(&domains, &responses);
    let names: Vec<&str> = records.iter().map(|r| r.name.as_str()).collect();
    assert_eq!(names, vec!["e.com", "b.net", "d.net", "a.org", "c.com"]);
}

#[test]
fn resolving_twice_gives_the_same_result() {
    let domains = strings(&["a.org", "b.net", "c.com", "d.net"]);
    let responses = vec![answer("2024", "R"), None, answer("2024", "S"), answer("2023", "T")];
    let first = DomainInfo::fetch_info(&domains, &responses);
    let second = DomainInfo::fetch_info(&domains, &responses);
    assert_eq!(first.len(), second.len());
    for (a, b) in first.iter().zip(second.iter()) {
        assert_eq!(a.name, b.name);
        assert_eq!(a.expire, b.expire);
        assert_eq!(a.registrar, b.registrar);
        assert_eq!(a.error, b.error);
    }
}
