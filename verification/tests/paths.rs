use codex_history::paths::sorted_unique_paths;
use codex_history::{Component, PathModel};

fn p(text: &str) -> PathModel {
    PathModel::parse(text)
}

#[test]
fn parse_follows_path_components() {
    assert_eq!(p("/a//b/./c/").components.len(), 4);
    assert_eq!(p("/a//b/./c/").components[0], Component::RootDir);
    assert_eq!(p("./a").components[0], Component::CurDir);
    assert_eq!(p("a/../b").components[1], Component::ParentDir);
    assert!(p("a/./b").same(&p("a/b")));
    assert_eq!(p("a/./b").to_text(), "a/./b");
    assert!(p("").is_empty());
    assert_eq!(p("/").to_text(), "/");
    assert_eq!(p("./a/b/").to_text(), "./a/b/");
    assert_eq!(p("./a/b/").component_text(), "./a/b");
    for text in ["/a//b/./c/", "./a", "a/../b", ".", "..", "/", "a b/c"] {
        let comps: Vec<String> = std::path::Path::new(text)
            .components()
            .map(|c| c.as_os_str().to_string_lossy().into_owned())
            .collect();
        assert_eq!(p(text).components.len(), comps.len(), "{text}");
        assert_eq!(p(&p(text).to_text()), p(text), "{text}");
        assert!(p(&p(text).component_text()).same(&p(text)), "{text}");
    }
}

#[test]
fn join_strip_and_file_name_match_std() {
    let cases = [("/a/b", "c/d"), ("/a", "/x"), ("a", "./b"), ("", "x"), (".", "./b"), ("/", "x")];
    for (a, b) in cases {
        let std_joined = std::path::Path::new(a).join(b);
        assert_eq!(p(a).join(&p(b)), p(&std_joined.to_string_lossy()), "{a} {b}");
    }
    assert_eq!(p("/h/sessions/x.jsonl").strip_prefix(&p("/h")).unwrap().to_text(), "sessions/x.jsonl");
    assert!(p("/hx/a").strip_prefix(&p("/h")).is_none());
    assert_eq!(p("/h/a.db").file_name(), Some("a.db".to_string()));
    assert_eq!(p("/h/..").file_name(), None);
    assert_eq!(p("/h/state_5.sqlite").with_file_name("b.bak").to_text(), "/h/b.bak");
    assert_eq!(p("/").with_file_name("b").to_text(), "/b");
    for (a, name) in [("/h/./db", "x"), ("/h/db/", "x"), ("db", "x"), ("/h/..", "x"), ("", "x")] {
        let want = std::path::Path::new(a).with_file_name(name);
        assert_eq!(p(a).with_file_name(name).to_text(), want.to_string_lossy(), "{a}");
        assert!(p(a).with_file_name(name).same(&p(&want.to_string_lossy())), "{a}");
    }
    for (a, b) in [("/a/b/", "c"), ("/a//", "c"), ("", "c"), ("a", ""), ("a", "/b/./")] {
        let want = std::path::Path::new(a).join(b);
        assert_eq!(p(a).join(&p(b)).to_text(), want.to_string_lossy(), "{a} {b}");
    }
}

#[test]
fn has_extension_matches_std() {
    for name in ["a.jsonl", ".jsonl", "a.json", "a.b.jsonl", "..jsonl", "jsonl", "a.jsonl.bak"] {
        let std_ext = std::path::Path::new(name).extension().and_then(|e| e.to_str()) == Some("jsonl");
        assert_eq!(p(name).has_extension("jsonl"), std_ext, "{name}");
    }
}

#[test]
fn sorted_unique_paths_orders_like_std() {
    let texts = ["a-b", "a/b", "a", "/z", "./a", "a/b", "b", "a//b", "A"];
    let got: Vec<String> = sorted_unique_paths(texts.iter().map(|t| p(t)).collect())
        .iter()
        .map(|x| x.component_text())
        .collect();
    let set: std::collections::BTreeSet<std::path::PathBuf> =
        texts.iter().map(std::path::PathBuf::from).collect();
    let want: Vec<String> = set.iter().map(|x| p(&x.to_string_lossy()).component_text()).collect();
    assert_eq!(got, want);
}
