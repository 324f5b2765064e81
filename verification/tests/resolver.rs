use edon::resolver::resolve;

#[test]
fn absolute_http_url_is_returned_unchanged() {
    let r = resolve(
        &String::from("http://example.com/lib.js"),
        &String::from("/some/base"),
        false,
    );
    assert_eq!(r, "http://example.com/lib.js");
}

#[test]
fn absolute_https_url_is_returned_unchanged_whatever_the_base() {
    let spec = String::from("https://cdn.test/mod.ts");
    let r1 = resolve(&spec, &String::from("/a/b"), true);
    let r2 = resolve(&spec, &String::from("http://other/x.js"), false);
    assert_eq!(r1, "https://cdn.test/mod.ts");
    assert_eq!(r2, "https://cdn.test/mod.ts");
}

#[test]
fn resolution_is_deterministic() {
    let spec = String::from("./util.ts");
    let base = String::from("/proj/src/main.ts");
    let r1 = resolve(&spec, &base, true);
    let r2 = resolve(&spec, &base, true);
    assert_eq!(r1, r2);
}

#[test]
fn relative_specifier_joins_onto_url_base() {
    // Goes through the url crate: the result is neither input.
    let r = resolve(
        &String::from("../c.js"),
        &String::from("http://host/a/b/"),
        false,
    );
    assert_eq!(r, "http://host/a/c.js");
}

#[test]
fn url_join_keeps_query() {
    let r = resolve(
        &String::from("d.js?q=1"),
        &String::from("http://h/p/x.js"),
        false,
    );
    assert_eq!(r, "http://h/p/d.js?q=1");
}

#[test]
fn absolute_path_is_returned_unchanged() {
    let r = resolve(&String::from("/abs/mod.js"), &String::from("/other"), false);
    assert_eq!(r, "/abs/mod.js");
}

#[test]
fn relative_path_against_file_base_uses_parent_directory() {
    let r = resolve(
        &String::from("./a.js"),
        &String::from("/dir/b.js"),
        true,
    );
    assert_eq!(r, "/dir/a.js");
}

#[test]
fn dotdot_pops_a_directory() {
    let r = resolve(
        &String::from("../a.js"),
        &String::from("/d1/d2/b.js"),
        true,
    );
    assert_eq!(r, "/d1/a.js");
}

#[test]
fn relative_path_against_directory_base_joins_directly() {
    let r = resolve(&String::from("a.js"), &String::from("/cur/dir"), false);
    assert_eq!(r, "/cur/dir/a.js");
}

#[test]
fn dot_segments_are_dropped() {
    let r = resolve(
        &String::from("././x/./y.js"),
        &String::from("/base"),
        false,
    );
    assert_eq!(r, "/base/x/y.js");
}

#[test]
fn https_base_joins_too() {
    let r = resolve(
        &String::from("./mod.ts"),
        &String::from("https://cdn.test/pkg/index.ts"),
        false,
    );
    assert_eq!(r, "https://cdn.test/pkg/mod.ts");
}

#[test]
fn trailing_slash_on_a_directory_base_is_harmless() {
    let r = resolve(&String::from("a.js"), &String::from("/dir/"), false);
    assert_eq!(r, "/dir/a.js");
}
