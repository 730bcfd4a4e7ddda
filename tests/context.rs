use repo_review::context::{
    build_context, language_counts, large_files, size_ranking, top_files, total_lines,
    ReviewOutput,
};
use repo_review::repository::{DependencyEdge, FileEntry};
use repo_review::review_mode::ReviewMode;

fn file(path: &str, lines: usize, language: &str) -> FileEntry {
    FileEntry { path: path.to_string(), lines, language: language.to_string() }
}

fn paths(files: &[FileEntry]) -> Vec<&str> {
    files.iter().map(|f| f.path.as_str()).collect()
}

#[test]
fn languages_by_count() {
    let files = vec![file("x.rs", 10, "rust"), file("y.rs", 20, "rust"), file("z.py", 5, "python")];
    assert_eq!(
        language_counts(&files),
        vec![("rust".to_string(), 2), ("python".to_string(), 1)]
    );
}

#[test]
fn languages_equal_counts_by_name() {
    let files = vec![
        file("a.py", 1, "python"),
        file("b.go", 1, "go"),
        file("c.rs", 1, "rust"),
        file("d.go", 1, "go"),
        file("e.c", 1, "c"),
    ];
    assert_eq!(
        language_counts(&files),
        vec![
            ("go".to_string(), 2),
            ("c".to_string(), 1),
            ("python".to_string(), 1),
            ("rust".to_string(), 1)
        ]
    );
}

#[test]
fn languages_of_nothing() {
    assert!(language_counts(&vec![]).is_empty());
}

#[test]
fn ranking_larger_first_ties_by_path() {
    let files = vec![file("b", 10, "r"), file("a", 10, "r"), file("c", 30, "r"), file("d", 5, "r")];
    let ranked = size_ranking(&files);
    assert_eq!(paths(&ranked), vec!["c", "a", "b", "d"]);
}

#[test]
fn top_files_takes_the_largest() {
    let files = vec![file("b", 10, "r"), file("a", 10, "r"), file("c", 30, "r"), file("d", 5, "r")];
    assert_eq!(paths(&top_files(&files, 2)), vec!["c", "a"]);
    assert_eq!(paths(&top_files(&files, 10)), vec!["c", "a", "b", "d"]);
    assert!(top_files(&files, 0).is_empty());
}

#[test]
fn large_files_above_threshold() {
    let files = vec![file("s", 100, "r"), file("m", 500, "r"), file("l", 900, "r"), file("e", 500, "r")];
    assert_eq!(paths(&large_files(&files, 400)), vec!["l", "e", "m"]);
    assert!(large_files(&files, 900).is_empty());
    assert_eq!(paths(&large_files(&files, 899)), vec!["l"]);
}

#[test]
fn total_lines_sums() {
    let files = vec![file("a", 3, "r"), file("b", 4, "r"), file("c", 0, "r")];
    assert_eq!(total_lines(&files), 7);
    assert_eq!(total_lines(&vec![]), 0);
}

#[test]
fn context_collects_everything() {
    let files = vec![file("x.rs", 120, "rust"), file("y.rs", 40, "rust"), file("z.py", 300, "python")];
    let edges = vec![
        DependencyEdge { from: "x.rs".to_string(), to: "y.rs".to_string() },
        DependencyEdge { from: "y.rs".to_string(), to: "x.rs".to_string() },
    ];
    let ctx = build_context(&files, &edges, ReviewMode::Informative, "llama3".to_string(), 2, 100);
    assert_eq!(ctx.total_files, 3);
    assert_eq!(ctx.total_lines, 460);
    assert_eq!(paths(&ctx.top_files), vec!["z.py", "x.rs"]);
    assert_eq!(paths(&ctx.large_files), vec!["z.py", "x.rs"]);
    assert_eq!(ctx.languages, vec![("rust".to_string(), 2), ("python".to_string(), 1)]);
    assert_eq!(ctx.circular_deps, vec![vec!["x.rs".to_string(), "y.rs".to_string()]]);
    assert_eq!(ctx.dependency_edges.len(), 2);
    assert_eq!(ctx.dependency_edges[1].from, "y.rs");
    assert_eq!(ctx.mode, ReviewMode::Informative);
    assert_eq!(ctx.model, "llama3");
}

#[test]
fn output_default_is_empty() {
    let out = ReviewOutput::default();
    assert!(out.architecture.is_empty());
    assert!(out.performance.is_empty());
    assert!(out.security.is_empty());
    assert!(out.code_smells.is_empty());
    assert!(out.structural_improvements.is_empty());
    assert!(out.raw.is_empty());
}

#[test]
fn output_from_raw_keeps_text() {
    let out = ReviewOutput::from_raw("unstructured answer".to_string());
    assert_eq!(out.raw, "unstructured answer");
    assert!(out.architecture.is_empty());
    assert!(out.security.is_empty());
}
