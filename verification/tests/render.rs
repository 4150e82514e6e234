use lsh::compiler::ir::HighlightKind;
use lsh::render::{color_map, kind_color, render_line, select_entrypoint, Entrypoint};
use lsh::runtime::Highlight;

fn ep(name: &str, paths: &[&str]) -> Entrypoint {
    Entrypoint {
        name: name.to_string(),
        display_name: name.to_string(),
        paths: paths.iter().map(|p| p.to_string()).collect(),
        address: 0,
    }
}

#[test]
fn selects_by_language_then_by_path() {
    let eps = vec![ep("diff", &["**/*.diff", "**/*.patch"]), ep("git_commit", &["**/COMMIT_EDITMSG"]), ep("json", &["**/*.json"])];
    assert_eq!(select_entrypoint(&eps, Some("git-commit"), None), Some(1));
    assert_eq!(select_entrypoint(&eps, Some("git_commit"), None), None);
    assert_eq!(select_entrypoint(&eps, Some("rust"), Some(b"a.json")), None);
    assert_eq!(select_entrypoint(&eps, None, Some(b"src/x.patch")), Some(0));
    assert_eq!(select_entrypoint(&eps, None, Some(b"dir/data.json")), Some(2));
    assert_eq!(select_entrypoint(&eps, None, Some(b"a.txt")), None);
    assert_eq!(select_entrypoint(&eps, None, None), None);
}

#[test]
fn renders_spans_in_their_colors() {
    let line = b"let x";
    let hs = [Highlight { start: 0, kind: 1u32 }, Highlight { start: 3, kind: 0 }, Highlight { start: 5, kind: 0 }];
    let colors = ["", "\x1b[95m"];
    let out = render_line(line, &hs, &colors);
    assert_eq!(out, b"\x1b[95mlet\x1b[m x\x1b[m".to_vec());
    // A kind without a color is written plain.
    let out = render_line(line, &hs, &[]);
    assert_eq!(out, b"let x".to_vec());
}

#[test]
fn color_map_places_colors_by_value() {
    assert_eq!(kind_color("comment"), Some("\x1b[32m"));
    assert_eq!(kind_color("other"), Some(""));
    assert_eq!(kind_color("bogus"), None);
    let kinds = vec![
        HighlightKind { identifier: "other".to_string(), value: 0 },
        HighlightKind { identifier: "string".to_string(), value: 3 },
        HighlightKind { identifier: "bogus.kind".to_string(), value: 1 },
        HighlightKind { identifier: "markup.bold".to_string(), value: 2 },
    ];
    let (map, unknown) = color_map(&kinds);
    assert_eq!(map, vec!["", "", "\x1b[1m", "\x1b[91m"]);
    assert_eq!(unknown, vec!["bogus.kind".to_string()]);
}
