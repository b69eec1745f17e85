use std::path::{Path, PathBuf};
use stratum::estrato::path as epath;
use stratum::path::{
    find_git_root, find_outermost_git_root, format_path, parse_path, resolve, root_lookup, settle,
    ParseError, PathToken, ResolveError, RootLookup, StratumPath,
};
use stratum::pathstr::ancestor_paths;
use tempfile::{tempdir, Builder, NamedTempFile, TempDir};

fn s(p: &Path) -> String {
    p.to_string_lossy().into_owned()
}

/// Resolves `tokens` the way the command line does: looks up the project
/// root on disk when the path needs one, then checks existence.
fn resolve_on_disk(base: &Path, current: &Path, tokens: &StratumPath) -> Result<PathBuf, ResolveError> {
    let root = match root_lookup(tokens) {
        Some(kind) => {
            let start = base.canonicalize().unwrap_or_else(|_| base.to_path_buf());
            let candidates: Vec<(String, bool)> = ancestor_paths(&s(&start))
                .into_iter()
                .map(|a| {
                    let has = Path::new(&a).join(".git").exists();
                    (a, has)
                })
                .collect();
            match kind {
                RootLookup::Nearest => find_git_root(&candidates),
                RootLookup::Outermost => find_outermost_git_root(&candidates),
            }
        }
        None => None,
    };
    let path = resolve(&s(base), &s(current), tokens, root)?;
    let exists = Path::new(&path).exists();
    settle(path, exists).map(PathBuf::from)
}

fn estrato_resolve_on_disk(
    base: &Path,
    current: &Path,
    tokens: &epath::EstratPath,
) -> Result<PathBuf, epath::ResolveError> {
    let path = epath::resolve(&s(base), &s(current), tokens)?;
    let exists = Path::new(&path).exists();
    epath::settle(path, exists).map(PathBuf::from)
}

/// A directory `name` inside `parent`, removed when dropped.
fn mkdir(parent: &Path, name: &str) -> TempDir {
    Builder::new().prefix(name).rand_bytes(0).tempdir_in(parent).unwrap()
}

/// An empty file `name` inside `parent`, removed when dropped.
fn mkfile(parent: &Path, name: &str) -> NamedTempFile {
    Builder::new().prefix(name).rand_bytes(0).tempfile_in(parent).unwrap()
}

fn simple(p: &str) -> PathToken {
    PathToken::Simple(p.to_string())
}

// --- parse_path, in both layouts ---

#[test]
fn path_simple_traditional() {
    assert_eq!(
        parse_path("subfolder1/subfolder2/file.md"),
        Ok(vec![simple("subfolder1/subfolder2/file.md")])
    );
    assert_eq!(
        epath::parse_path("subfolder1/subfolder2/file.md"),
        Ok(vec![epath::PathToken::Simple("subfolder1/subfolder2/file.md".to_string())])
    );
}

#[test]
fn path_down_one() {
    assert_eq!(parse_path(">impl"), Ok(vec![PathToken::Down("impl".into())]));
    assert_eq!(epath::parse_path(">impl"), Ok(vec![epath::PathToken::Down("impl".into())]));
}

#[test]
fn path_down_two() {
    assert_eq!(
        parse_path(">tech-decisions>impl"),
        Ok(vec![PathToken::Down("tech-decisions".into()), PathToken::Down("impl".into())])
    );
    assert_eq!(
        epath::parse_path(">tech-decisions>impl"),
        Ok(vec![
            epath::PathToken::Down("tech-decisions".into()),
            epath::PathToken::Down("impl".into()),
        ])
    );
}

#[test]
fn path_down_with_simple() {
    assert_eq!(
        parse_path(">tech-decisions>impl/package1/solution.rs"),
        Ok(vec![
            PathToken::Down("tech-decisions".into()),
            PathToken::Down("impl".into()),
            simple("/package1/solution.rs"),
        ])
    );
    assert_eq!(
        epath::parse_path(">tech-decisions>impl/package1/solution.rs"),
        Ok(vec![
            epath::PathToken::Down("tech-decisions".into()),
            epath::PathToken::Down("impl".into()),
            epath::PathToken::Simple("/package1/solution.rs".to_string()),
        ])
    );
}

#[test]
fn path_down_one_with_simple() {
    assert_eq!(
        parse_path(">tasks/pending.md"),
        Ok(vec![PathToken::Down("tasks".into()), simple("/pending.md")])
    );
    assert_eq!(
        epath::parse_path(">tasks/pending.md"),
        Ok(vec![
            epath::PathToken::Down("tasks".into()),
            epath::PathToken::Simple("/pending.md".to_string()),
        ])
    );
}

#[test]
fn path_up_one() {
    assert_eq!(parse_path("<"), Ok(vec![PathToken::Up]));
    assert_eq!(epath::parse_path("<"), Ok(vec![epath::PathToken::Up]));
}

#[test]
fn path_up_two_with_simple() {
    assert_eq!(
        parse_path("<</docs/api.md"),
        Ok(vec![PathToken::Up, PathToken::Up, simple("/docs/api.md")])
    );
    assert_eq!(
        epath::parse_path("<</docs/api.md"),
        Ok(vec![
            epath::PathToken::Up,
            epath::PathToken::Up,
            epath::PathToken::Simple("/docs/api.md".to_string()),
        ])
    );
}

#[test]
fn path_empty_is_error() {
    assert!(matches!(parse_path(""), Err(ParseError::Empty)));
    assert!(matches!(epath::parse_path(""), Err(epath::ParseError::Empty)));
}

#[test]
fn path_empty_layer_is_error() {
    assert!(matches!(parse_path(">a>>b"), Err(ParseError::InvalidSegment(_))));
    assert!(matches!(epath::parse_path(">a>>b"), Err(epath::ParseError::InvalidSegment(_))));
}

// --- stratum roots ---

#[test]
fn root_alone() {
    assert_eq!(parse_path("<*"), Ok(vec![PathToken::Root]));
}

#[test]
fn root_with_simple() {
    assert_eq!(
        parse_path("<*/subsystems/stratum"),
        Ok(vec![PathToken::Root, simple("/subsystems/stratum")])
    );
}

#[test]
fn root_with_down() {
    assert_eq!(parse_path("<*>impl"), Ok(vec![PathToken::Root, PathToken::Down("impl".into())]));
}

#[test]
fn root_full_example() {
    assert_eq!(
        parse_path("<*/subsystems/stratum>impl/crates/cli/src"),
        Ok(vec![
            PathToken::Root,
            simple("/subsystems/stratum"),
            PathToken::Down("impl".into()),
            simple("/crates/cli/src"),
        ])
    );
}

#[test]
fn root_invalid_suffix() {
    assert!(matches!(parse_path("<*foo"), Err(ParseError::InvalidSyntax(_))));
}

#[test]
fn format_path_root() {
    assert_eq!(format_path(&vec![PathToken::Root]), "<*");
}

#[test]
fn format_path_root_with_down() {
    let tokens = vec![
        PathToken::Root,
        simple("/subsystems/stratum"),
        PathToken::Down("impl".into()),
        simple("/crates/cli/src"),
    ];
    assert_eq!(format_path(&tokens), "<*/subsystems/stratum>impl/crates/cli/src");
}

#[test]
fn roundtrip_root_path() {
    let text = "<*/subsystems/stratum>impl/crates/cli/src";
    let tokens = parse_path(text).unwrap();
    assert_eq!(format_path(&tokens), text);
}

#[test]
fn top_root_alone() {
    assert_eq!(parse_path("*"), Ok(vec![PathToken::TopRoot]));
}

#[test]
fn top_root_with_simple() {
    assert_eq!(
        parse_path("*/subsystems/stratum"),
        Ok(vec![PathToken::TopRoot, simple("/subsystems/stratum")])
    );
}

#[test]
fn top_root_with_down() {
    assert_eq!(parse_path("*>impl"), Ok(vec![PathToken::TopRoot, PathToken::Down("impl".into())]));
}

#[test]
fn top_root_full_example() {
    assert_eq!(
        parse_path("*/subsystems/stratum>impl/crates/stratum/src"),
        Ok(vec![
            PathToken::TopRoot,
            simple("/subsystems/stratum"),
            PathToken::Down("impl".into()),
            simple("/crates/stratum/src"),
        ])
    );
}

#[test]
fn top_root_invalid_suffix() {
    assert!(matches!(parse_path("*foo"), Err(ParseError::InvalidSyntax(_))));
}

#[test]
fn format_top_root() {
    assert_eq!(format_path(&vec![PathToken::TopRoot]), "*");
}

#[test]
fn roundtrip_top_root_path() {
    let text = "*/subsystems/stratum>impl/crates/stratum/src";
    assert_eq!(format_path(&parse_path(text).unwrap()), text);
}

// --- resolve, in both layouts ---

#[test]
fn path_resolve_simple() {
    let dir = tempdir().unwrap();
    let docs = mkdir(dir.path(), "docs");
    let _f = mkfile(docs.path(), "readme.md");
    let file = dir.path().join("docs").join("readme.md");

    let tokens = parse_path("docs/readme.md").unwrap();
    let result = resolve_on_disk(dir.path(), dir.path(), &tokens).unwrap();
    assert_eq!(result, file);

    let tokens = epath::parse_path("docs/readme.md").unwrap();
    let result = estrato_resolve_on_disk(dir.path(), dir.path(), &tokens).unwrap();
    assert_eq!(result, file);
}

#[test]
fn path_resolve_down_two_with_simple() {
    let dir = tempdir().unwrap();
    let d1 = mkdir(dir.path(), ".stratum");
    let d2 = mkdir(d1.path(), "a");
    let d3 = mkdir(d2.path(), ".stratum");
    let d4 = mkdir(d3.path(), "b");
    let d5 = mkdir(d4.path(), "src");
    let _f = mkfile(d5.path(), "main.rs");
    let file = dir.path().join(".stratum/a/.stratum/b").join("src/main.rs");
    let tokens = parse_path(">a>b/src/main.rs").unwrap();
    let result = resolve_on_disk(dir.path(), dir.path(), &tokens).unwrap();
    assert_eq!(result, file);

    let e1 = mkdir(dir.path(), ".estrato");
    let e2 = mkdir(e1.path(), "a");
    let e3 = mkdir(e2.path(), ".estrato");
    let e4 = mkdir(e3.path(), "b");
    let e5 = mkdir(e4.path(), "src");
    let _g = mkfile(e5.path(), "main.rs");
    let file = dir.path().join(".estrato/a/.estrato/b").join("src/main.rs");
    let tokens = epath::parse_path(">a>b/src/main.rs").unwrap();
    let result = estrato_resolve_on_disk(dir.path(), dir.path(), &tokens).unwrap();
    assert_eq!(result, file);
}

#[test]
fn path_resolve_up() {
    let current = PathBuf::from("/project/.stratum/impl");
    let tokens = parse_path("<").unwrap();
    let result = resolve_on_disk(&current, &current, &tokens).unwrap();
    assert_eq!(result, PathBuf::from("../.."));

    let current = PathBuf::from("/project/.estrato/impl");
    let tokens = epath::parse_path("<").unwrap();
    let result = estrato_resolve_on_disk(&current, &current, &tokens).unwrap();
    assert_eq!(result, PathBuf::from("../.."));
}

#[test]
fn path_resolve_up_insufficient_depth() {
    let current = PathBuf::from("/project/.stratum/impl");
    let tokens = parse_path("<<<").unwrap();
    let err = resolve_on_disk(&current, &current, &tokens).unwrap_err();
    assert!(matches!(err, ResolveError::InsufficientDepth { requested: 3, actual: 1 }));

    let current = PathBuf::from("/project/.estrato/impl");
    let tokens = epath::parse_path("<<<").unwrap();
    let err = estrato_resolve_on_disk(&current, &current, &tokens).unwrap_err();
    assert!(matches!(err, epath::ResolveError::InsufficientDepth { requested: 3, actual: 1 }));
}

#[test]
fn resolve_root_finds_git() {
    let dir = tempdir().unwrap();
    let root = dir.path();
    let _git = mkdir(root, ".git");
    let a = mkdir(root, "subsystems");
    let b = mkdir(a.path(), "foo");
    let c = mkdir(b.path(), ".stratum");
    let d = mkdir(c.path(), "impl");
    let layer = d.path().to_path_buf();

    let tokens = parse_path("<*").unwrap();
    let result = resolve_on_disk(&layer, &layer, &tokens).unwrap();
    assert_eq!(result, root.canonicalize().unwrap());
}

#[test]
fn resolve_root_with_simple_path() {
    let dir = tempdir().unwrap();
    let root = dir.path();
    let _git = mkdir(root, ".git");
    let d = mkdir(root, "docs");
    let docs = d.path().to_path_buf();
    let a = mkdir(root, ".stratum");
    let b = mkdir(a.path(), "impl");
    let layer = b.path().to_path_buf();

    let tokens = parse_path("<*/docs").unwrap();
    let result = resolve_on_disk(&layer, &layer, &tokens).unwrap();
    assert_eq!(result, docs.canonicalize().unwrap());
}

#[test]
fn resolve_root_no_git_is_error() {
    let dir = tempdir().unwrap();
    let tokens = parse_path("<*").unwrap();
    let err = resolve_on_disk(dir.path(), dir.path(), &tokens).unwrap_err();
    assert_eq!(err, ResolveError::NoProjectRoot);
}

#[test]
fn resolve_top_root_finds_outermost_git() {
    let dir = tempdir().unwrap();
    let outer = dir.path();
    let _git = mkdir(outer, ".git");
    let a = mkdir(outer, "subsystems");
    let b = mkdir(a.path(), "foo");
    let _inner_git = mkdir(b.path(), ".git");
    let inner = b.path().to_path_buf();

    let tokens = parse_path("*").unwrap();
    let result = resolve_on_disk(&inner, &inner, &tokens).unwrap();
    assert_eq!(result, outer.canonicalize().unwrap());
}

#[test]
fn resolve_top_root_with_path() {
    let dir = tempdir().unwrap();
    let outer = dir.path();
    let _git = mkdir(outer, ".git");
    let a = mkdir(outer, "subsystems");
    let b = mkdir(a.path(), "foo");
    let _sub_git = mkdir(b.path(), ".git");
    let sub = b.path().to_path_buf();
    let d = mkdir(outer, "docs");
    let docs = d.path().to_path_buf();

    let tokens = parse_path("*/docs").unwrap();
    let result = resolve_on_disk(&sub, &sub, &tokens).unwrap();
    assert_eq!(result, docs.canonicalize().unwrap());
}

#[test]
fn resolve_top_root_no_git_is_error() {
    let dir = tempdir().unwrap();
    let tokens = parse_path("*").unwrap();
    let err = resolve_on_disk(dir.path(), dir.path(), &tokens).unwrap_err();
    assert_eq!(err, ResolveError::NoProjectRoot);
}
