use grab_github::Filter;

fn strings(v: Vec<&str>) -> Vec<String> {
    let mut out: Vec<String> = Vec::new();
    for s in v {
        out.push(s.to_string());
    }
    out
}

#[test]
pub fn only_included() {
    let filter = Filter::new(strings(vec!["src/**", "test", "*/any", "other/*"]), Vec::new());

    assert!(filter.check("src/test.rs"));
    assert!(filter.check("src/other"));
    assert!(filter.check("src/"));
    assert!(filter.check("src/test/test"));
    assert!(filter.check("test"));
    assert!(filter.check("one/any"));
    assert!(filter.check("two/any"));
    assert!(filter.check("other/one"));
    assert!(!filter.check("src"));
    assert!(!filter.check("wrong/test.rs"));
    assert!(!filter.check("wrong/test"));
    assert!(!filter.check("wrong.rs"));
    assert!(!filter.check("other/one/two"));
    assert!(!filter.check("one/any/other"));
}

#[test]
pub fn only_excluded() {
    let filter = Filter::new(Vec::new(), strings(vec!["src/**", "test", "*/any", "other/*"]));

    assert!(!filter.check("src/test.rs"));
    assert!(!filter.check("src/other"));
    assert!(!filter.check("src/"));
    assert!(!filter.check("src/test/test"));
    assert!(!filter.check("test"));
    assert!(!filter.check("one/any"));
    assert!(!filter.check("two/any"));
    assert!(!filter.check("other/one"));
    assert!(filter.check("src"));
    assert!(filter.check("wrong/test.rs"));
    assert!(filter.check("wrong/test"));
    assert!(filter.check("wrong.rs"));
    assert!(filter.check("other/one/two"));
    assert!(filter.check("one/any/other"));
}

#[test]
pub fn both() {
    let filter = Filter::new(
        strings(vec!["src/**", "test", "*/any", "other/*"]),
        strings(vec!["**/other", "one/*", "src/test/test"]),
    );

    assert!(filter.check("src/test.rs"));
    assert!(filter.check("src/"));
    assert!(filter.check("test"));
    assert!(filter.check("two/any"));
    assert!(filter.check("other/one"));
    assert!(!filter.check("one/any"));
    assert!(!filter.check("src/test/test"));
    assert!(!filter.check("src/other"));
    assert!(!filter.check("src"));
    assert!(!filter.check("wrong/test.rs"));
    assert!(!filter.check("wrong/test"));
    assert!(!filter.check("wrong.rs"));
    assert!(!filter.check("other/one/two"));
    assert!(!filter.check("one/any/other"));
}

#[test]
pub fn neither() {
    let filter = Filter::all();

    assert!(filter.check("src/test.rs"));
    assert!(filter.check("src/"));
    assert!(filter.check("test"));
    assert!(filter.check("two/any"));
    assert!(filter.check("other/one"));
    assert!(filter.check("one/any"));
    assert!(filter.check("src/test/test"));
    assert!(filter.check("src/other"));
    assert!(filter.check("src"));
    assert!(filter.check("wrong/test.rs"));
    assert!(filter.check("wrong/test"));
    assert!(filter.check("wrong.rs"));
    assert!(filter.check("other/one/two"));
    assert!(filter.check("one/any/other"));
}

#[test]
pub fn empty_filter_passes_odd_paths() {
    let filter = Filter::new(Vec::new(), Vec::new());
    assert!(filter.check(""));
    assert!(filter.check("a"));
    assert!(filter.check("a/b/c.txt"));
    assert!(filter.check("weird name with spaces/und.ots"));
}
