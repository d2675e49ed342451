use pinger::cli::{new_opt, sort_hosts, split_args, Opt};

fn opt_with(hosts: Vec<&str>) -> Opt {
    new_opt(None, 10, 3, hosts.into_iter().map(str::to_string).collect())
}

fn strs(v: Vec<&str>) -> Vec<String> {
    v.into_iter().map(str::to_string).collect()
}

#[test]
fn comma_tokens_flatten_in_order() {
    let canonical = opt_with(vec!["a,b", "c"]).hosts();
    assert_eq!(canonical, strs(vec!["a", "b", "c"]));
}

#[test]
fn hosts_sort_lexicographically() {
    let canonical = opt_with(vec!["rust-lang.org", "mozilla.org"]).hosts();
    assert_eq!(canonical, strs(vec!["mozilla.org", "rust-lang.org"]));
    let canonical = opt_with(vec!["mozilla.org", "rust-lang.org"]).hosts();
    assert_eq!(canonical, strs(vec!["mozilla.org", "rust-lang.org"]));
}

#[test]
fn fragments_are_trimmed() {
    let canonical = opt_with(vec![" b , a ", "\tc\n"]).hosts();
    assert_eq!(canonical, strs(vec!["a", "b", "c"]));
}

#[test]
fn unicode_whitespace_is_trimmed_too() {
    let canonical = opt_with(vec!["\u{A0}b\u{2003},\u{3000} a "]).hosts();
    assert_eq!(canonical, strs(vec!["a", "b"]));
}

#[test]
fn fragment_of_only_unicode_whitespace_drops() {
    let canonical = opt_with(vec!["a,\u{A0}\u{2028}", "b"]).hosts();
    assert_eq!(canonical, strs(vec!["a", "b"]));
}

#[test]
fn duplicates_survive() {
    let canonical = opt_with(vec!["b", "a,b"]).hosts();
    assert_eq!(canonical, strs(vec!["a", "b", "b"]));
}

#[test]
fn empty_fragments_drop() {
    let canonical = opt_with(vec!["a,,b", " , ", ""]).hosts();
    assert_eq!(canonical, strs(vec!["a", "b"]));
}

#[test]
fn same_input_same_canonical_list() {
    let first = opt_with(vec!["z,y", " x "]).hosts();
    let second = opt_with(vec!["z,y", " x "]).hosts();
    assert_eq!(first, second);
}

#[test]
fn resorting_canonical_list_is_fixed_point() {
    let canonical = opt_with(vec!["z,y", "x,z"]).hosts();
    let again = sort_hosts(canonical.clone());
    assert_eq!(again, canonical);
}

#[test]
fn split_args_keeps_input_order() {
    let fragments = split_args(&strs(vec!["z, a", "m"]));
    assert_eq!(fragments, strs(vec!["z", "a", "m"]));
}
