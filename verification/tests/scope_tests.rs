use acm::scope::detect_scope;

fn s(strs: &[&str]) -> Vec<String> {
    strs.iter().map(|s| s.to_string()).collect()
}

#[test]
fn empty_files_returns_none() {
    assert_eq!(detect_scope(&[]), None);
}

#[test]
fn root_files_returns_none() {
    assert_eq!(detect_scope(&s(&["README.md", "Cargo.toml"])), None);
}

#[test]
fn single_file_in_src_subdir() {
    assert_eq!(detect_scope(&s(&["src/auth/login.rs"])), Some("auth".into()));
}

#[test]
fn multiple_files_same_subdir() {
    assert_eq!(
        detect_scope(&s(&["src/auth/login.rs", "src/auth/middleware.rs"])),
        Some("auth".into())
    );
}

#[test]
fn files_in_different_subdirs_under_src() {
    assert_eq!(detect_scope(&s(&["src/auth/login.rs", "src/config/mod.rs"])), None);
}

#[test]
fn nested_scope() {
    assert_eq!(
        detect_scope(&s(&["src/llm/ollama.rs", "src/llm/openai.rs"])),
        Some("llm".into())
    );
}

#[test]
fn strips_pkg_prefix() {
    assert_eq!(
        detect_scope(&s(&["pkg/api/handler.go", "pkg/api/routes.go"])),
        Some("api".into())
    );
}

#[test]
fn mixed_root_and_subdir_returns_none() {
    assert_eq!(detect_scope(&s(&["src/auth/login.rs", "README.md"])), None);
}

#[test]
fn only_src_returns_none() {
    assert_eq!(detect_scope(&s(&["src/main.rs"])), None);
}

#[test]
fn apps_monorepo_prefix() {
    assert_eq!(
        detect_scope(&s(&["apps/web/index.ts", "apps/web/layout.ts"])),
        Some("web".into())
    );
}

#[test]
fn deeply_nested_scope() {
    assert_eq!(
        detect_scope(&s(&["src/llm/providers/ollama.rs", "src/llm/providers/openai.rs"])),
        Some("llm/providers".into())
    );
}

#[test]
fn scope_without_known_prefix_keeps_first_component() {
    assert_eq!(
        detect_scope(&s(&["web/ui/a.ts", "web/ui/b.ts", "web/ui/c/d.ts"])),
        Some("web/ui".into())
    );
}

#[test]
fn scope_is_shortest_common_directory() {
    assert_eq!(
        detect_scope(&s(&["src/a/b/c/x.rs", "src/a/b/y.rs", "src/a/b/c/d/z.rs"])),
        Some("a/b".into())
    );
}

#[test]
fn scope_keeps_a_leading_dot_component_like_path() {
    assert_eq!(detect_scope(&s(&["./lib/net/a.rs", "./lib/net/b.rs"])), Some("./lib/net".into()));
    assert_eq!(detect_scope(&s(&["lib//net/a.rs"])), Some("net".into()));
}

#[test]
fn absolute_path_scope_includes_root() {
    assert_eq!(detect_scope(&s(&["/etc/app/x.conf"])), Some("//etc/app".into()));
}

#[test]
fn packages_and_libs_prefixes_are_stripped() {
    assert_eq!(detect_scope(&s(&["packages/core/a.ts"])), Some("core".into()));
    assert_eq!(detect_scope(&s(&["libs/util/a.ts"])), Some("util".into()));
    assert_eq!(detect_scope(&s(&["lib/util/a.ts"])), Some("util".into()));
}

#[test]
fn scope_does_not_depend_on_file_order() {
    let a = s(&["src/api/v1/users.rs", "src/api/v2/items.rs", "src/api/mod.rs"]);
    let b = s(&["src/api/mod.rs", "src/api/v2/items.rs", "src/api/v1/users.rs"]);
    assert_eq!(detect_scope(&a), Some("api".into()));
    assert_eq!(detect_scope(&a), detect_scope(&b));
    let c = s(&["README.md", "src/auth/login.rs"]);
    let d = s(&["src/auth/login.rs", "README.md"]);
    assert_eq!(detect_scope(&c), None);
    assert_eq!(detect_scope(&d), None);
}
