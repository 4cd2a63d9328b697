use wildcard_trie::Trie;

#[test]
fn test_exact_path_matching() {
    let mut trie = Trie::new();
    trie.insert("/api/users", "users_handler");
    trie.insert("/api/posts", "posts_handler");

    assert_eq!(trie.get("/api/users"), Some(&"users_handler"));
    assert_eq!(trie.get("/api/posts"), Some(&"posts_handler"));
    assert_eq!(trie.get("/api/other"), None);
}

#[test]
fn test_wildcard_matching() {
    let mut trie = Trie::new();
    trie.insert("/api/*", "api_handler");

    assert_eq!(trie.get("/api/users"), Some(&"api_handler"));
    assert_eq!(trie.get("/api/posts/123"), Some(&"api_handler"));
    assert_eq!(trie.get("/auth/login"), None);
}

#[test]
fn test_exact_takes_precedence_over_wildcard() {
    let mut trie = Trie::new();
    trie.insert("/api/*", "wildcard_handler");
    trie.insert("/api/users", "exact_handler");

    assert_eq!(trie.get("/api/users"), Some(&"exact_handler"));
    assert_eq!(trie.get("/api/posts"), Some(&"wildcard_handler"));
}

#[test]
fn test_path_compression() {
    let mut trie = Trie::new();
    trie.insert("/api/v1/users", "v1_users");
    trie.insert("/api/v1/posts", "v1_posts");
    trie.insert("/api/v2/users", "v2_users");

    assert_eq!(trie.get("/api/v1/users"), Some(&"v1_users"));
    assert_eq!(trie.get("/api/v1/posts"), Some(&"v1_posts"));
    assert_eq!(trie.get("/api/v2/users"), Some(&"v2_users"));
}

#[test]
fn test_removal() {
    let mut trie = Trie::new();
    trie.insert("/api/users", "handler");

    assert_eq!(trie.get("/api/users"), Some(&"handler"));
    assert_eq!(trie.remove("/api/users"), Some("handler"));
    assert_eq!(trie.get("/api/users"), None);
}

#[test]
fn test_wildcard_removal() {
    let mut trie = Trie::new();
    trie.insert("/api/*", "handler");

    assert_eq!(trie.get("/api/users"), Some(&"handler"));
    assert_eq!(trie.remove("/api/*"), Some("handler"));
    assert_eq!(trie.get("/api/users"), None);
}

#[test]
fn test_root_path() {
    let mut trie = Trie::new();
    trie.insert("/", "root_handler");
    assert_eq!(trie.get("/"), Some(&"root_handler"));
}

#[test]
fn test_root_wildcard() {
    let mut trie = Trie::new();
    trie.insert("/*", "root_handler");
    assert_eq!(trie.get("/"), Some(&"root_handler"));
}

#[test]
fn test_empty_path() {
    let mut trie = Trie::new();
    trie.insert("", "empty_handler");
    assert_eq!(trie.get(""), Some(&"empty_handler"));
}

#[test]
fn test_common_prefix() {
    let mut trie = Trie::new();
    trie.insert("long_prefix_one", "one");
    trie.insert("long_prefix_two", "two");
    trie.insert("long_prefix_three", "three");

    assert_eq!(trie.get("long_prefix_one"), Some(&"one"));
    assert_eq!(trie.get("long_prefix_two"), Some(&"two"));
    assert_eq!(trie.get("long_prefix_three"), Some(&"three"));
}

#[test]
fn test_overwrite_latest_wins() {
    let mut trie = Trie::new();
    trie.insert("/api/users", "first");
    trie.insert("/api/users", "second");
    assert_eq!(trie.get("/api/users"), Some(&"second"));

    trie.insert("/api/*", "wild_first");
    trie.insert("/api/*", "wild_second");
    assert_eq!(trie.get("/api/posts"), Some(&"wild_second"));
}

#[test]
fn test_empty_and_root_independent() {
    let mut trie = Trie::new();
    trie.insert("", "empty_handler");
    assert_eq!(trie.get(""), Some(&"empty_handler"));
    assert_eq!(trie.get("/"), None);

    trie.insert("/", "root_handler");
    assert_eq!(trie.get(""), Some(&"empty_handler"));
    assert_eq!(trie.get("/"), Some(&"root_handler"));

    assert_eq!(trie.remove(""), Some("empty_handler"));
    assert_eq!(trie.get(""), None);
    assert_eq!(trie.get("/"), Some(&"root_handler"));
}

#[test]
fn test_deepest_wildcard_wins() {
    let mut trie = Trie::new();
    trie.insert("/api/*", "shallow");
    trie.insert("/api/users/*", "deep");

    assert_eq!(trie.get("/api/users/42"), Some(&"deep"));
    assert_eq!(trie.get("/api/users"), Some(&"deep"));
    assert_eq!(trie.get("/api/posts"), Some(&"shallow"));
}

#[test]
fn test_remove_leaves_wildcard_cover() {
    let mut trie = Trie::new();
    trie.insert("/api/*", "fallback");
    trie.insert("/api/users", "exact");

    assert_eq!(trie.remove("/api/users"), Some("exact"));
    assert_eq!(trie.get("/api/users"), Some(&"fallback"));
}

#[test]
fn test_remove_absent() {
    let mut trie: Trie<&str> = Trie::new();
    assert_eq!(trie.remove("/missing"), None);

    trie.insert("/api/users", "handler");
    assert_eq!(trie.remove("/api/other"), None);
    assert_eq!(trie.remove("/api"), None);
    assert_eq!(trie.remove("/api/users/42"), None);
    assert_eq!(trie.remove("/api/*"), None);
    assert_eq!(trie.get("/api/users"), Some(&"handler"));
}

#[test]
fn test_embedded_marker_is_literal() {
    let mut trie = Trie::new();
    trie.insert("/a/*/b", "literal");

    assert_eq!(trie.get("/a/*/b"), Some(&"literal"));
    assert_eq!(trie.get("/a/c/b"), None);
    assert_eq!(trie.get("/a/x"), None);
}

#[test]
fn test_wildcard_covers_its_base_and_raw_spelling() {
    let mut trie = Trie::new();
    trie.insert("/api/*", "handler");

    assert_eq!(trie.get("/api"), Some(&"handler"));
    assert_eq!(trie.get("/api/*"), Some(&"handler"));
    assert_eq!(trie.get("/ap"), None);
    assert_eq!(trie.get("/apix"), Some(&"handler"));
}

#[test]
fn test_is_empty() {
    let mut trie: Trie<u32> = Trie::new();
    assert!(trie.is_empty());

    trie.insert("/a", 1);
    assert!(!trie.is_empty());

    assert_eq!(trie.remove("/a"), Some(1));
    assert!(!trie.is_empty());
    assert_eq!(trie.get("/a"), None);
}

#[test]
fn test_default_is_empty() {
    let trie: Trie<u32> = Trie::default();
    assert!(trie.is_empty());
    assert_eq!(trie.get(""), None);
    assert_eq!(trie.get("/"), None);
}

#[test]
fn test_split_preserves_values() {
    let mut trie = Trie::new();
    trie.insert("/team", "team");
    trie.insert("/tea", "tea");
    trie.insert("/te", "te");

    assert_eq!(trie.get("/te"), Some(&"te"));
    assert_eq!(trie.get("/tea"), Some(&"tea"));
    assert_eq!(trie.get("/team"), Some(&"team"));
    assert_eq!(trie.get("/t"), None);
    assert_eq!(trie.get("/teams"), None);
}

#[test]
fn test_wildcard_on_shared_prefix_split() {
    let mut trie = Trie::new();
    trie.insert("/app/*", "app_wild");
    trie.insert("/api/users", "api_users");

    assert_eq!(trie.get("/app/one/two"), Some(&"app_wild"));
    assert_eq!(trie.get("/api/users"), Some(&"api_users"));
    assert_eq!(trie.get("/api"), None);
    assert_eq!(trie.get("/ap"), None);
}

#[test]
fn test_pretty_print_showcase() {
    let mut trie = Trie::new();

    trie.insert("/", "home");
    trie.insert("/api/*", "api_fallback");
    trie.insert("/api/v1/users", "users_v1");
    trie.insert("/api/v1/posts", "posts_v1");
    trie.insert("/static/*", "static_files");
    trie.insert("/admin/dashboard", "admin");

    println!("\nClean Radix Trie Structure:");
    println!("{}", trie.pretty_print());

    assert!(trie.pretty_print().contains("wildcard"));
}

#[test]
fn test_wildcard_breadth() {
    let mut trie = Trie::new();
    trie.insert("/api/*", "api_handler");

    assert_eq!(trie.get("/api/anything/nested/deep"), Some(&"api_handler"));
}

#[test]
fn test_pretty_print_shows_prefixes() {
    let mut trie = Trie::new();
    trie.insert("/abc", 5u32);

    let rendered = trie.pretty_print();
    assert!(rendered.contains("\"/abc\""));
    assert!(rendered.contains("exact: 5"));

    let empty: Trie<u32> = Trie::new();
    assert_eq!(empty.pretty_print(), "(empty trie)\n");
}
