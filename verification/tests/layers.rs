use std::path::{Path, PathBuf};
use stratum::estrato::context::Context;
use stratum::estrato::down::{resolve_down, settle_down, DownError};
use stratum::estrato::query as equery;
use stratum::estrato::up::{depth, resolve_up, UpError};
use stratum::path::PathToken;
use stratum::query::{parse, Query, QueryError};
use tempfile::{tempdir, Builder, TempDir};

fn p(s: &str) -> PathBuf {
    PathBuf::from(s)
}

fn down_on_disk(base: &Path, segments: &[String]) -> Result<PathBuf, DownError> {
    let path = resolve_down(&base.to_string_lossy(), &segments.to_vec());
    let exists = Path::new(&path).exists();
    settle_down(path, exists).map(PathBuf::from)
}

/// A directory `name` inside `parent`, removed when dropped.
fn mkdir(parent: &Path, name: &str) -> TempDir {
    Builder::new().prefix(name).rand_bytes(0).tempdir_in(parent).unwrap()
}

// --- queries ---

#[test]
fn down_one_level() {
    assert_eq!(equery::parse(">impl"), Ok(equery::Query::Down(vec!["impl".into()])));
}

#[test]
fn down_two_levels() {
    assert_eq!(
        equery::parse(">tech-decisions>impl"),
        Ok(equery::Query::Down(vec!["tech-decisions".into(), "impl".into()]))
    );
}

#[test]
fn query_up_one() {
    assert_eq!(equery::parse("<"), Ok(equery::Query::Up(1)));
}

#[test]
fn up_three() {
    assert_eq!(equery::parse("<<<"), Ok(equery::Query::Up(3)));
}

#[test]
fn query_list_down() {
    assert_eq!(equery::parse(">?"), Ok(equery::Query::ListDown));
    assert_eq!(parse(">?"), Ok(Query::ListDown));
}

#[test]
fn query_list_up() {
    assert_eq!(equery::parse("<?"), Ok(equery::Query::ListUp));
    assert_eq!(parse("<?"), Ok(Query::ListUp));
}

#[test]
fn query_empty_is_error() {
    assert_eq!(equery::parse(""), Err(equery::QueryError::Empty));
    assert_eq!(parse(""), Err(QueryError::Empty));
}

#[test]
fn invalid_syntax() {
    assert!(matches!(equery::parse("xyz"), Err(equery::QueryError::InvalidSyntax(_))));
}

#[test]
fn empty_segment_is_error() {
    assert!(matches!(
        equery::parse(">tech-decisions>>impl"),
        Err(equery::QueryError::InvalidSegment(_))
    ));
}

#[test]
fn path_down() {
    assert_eq!(parse(">impl"), Ok(Query::Path(vec![PathToken::Down("impl".into())])));
}

#[test]
fn path_traditional() {
    assert_eq!(
        parse("src/main.rs"),
        Ok(Query::Path(vec![PathToken::Simple("src/main.rs".to_string())]))
    );
}

// --- depth and climbing ---

#[test]
fn depth_root() {
    assert_eq!(depth("/home/user/project"), 0);
}

#[test]
fn depth_one() {
    assert_eq!(depth("/project/.estrato/impl"), 1);
}

#[test]
fn depth_two() {
    assert_eq!(depth("/project/.estrato/tech-decisions/.estrato/impl"), 2);
}

#[test]
fn up_one_from_depth_one() {
    let result = resolve_up("/project/.estrato/impl", 1).unwrap();
    assert_eq!(p(&result), p("../.."));
}

#[test]
fn up_two_from_depth_two() {
    let result = resolve_up("/project/.estrato/tech/.estrato/impl", 2).unwrap();
    assert_eq!(p(&result), p("../../..").join(".."));
}

#[test]
fn up_exceeds_depth() {
    let err = resolve_up("/project/.estrato/impl", 3).unwrap_err();
    assert!(matches!(err, UpError::InsufficientDepth { requested: 3, actual: 1 }));
}

#[test]
fn up_zero_is_error() {
    assert!(resolve_up("/project/.estrato/impl", 0).is_err());
}

// --- going down ---

#[test]
fn one_level_exists() {
    let dir = tempdir().unwrap();
    let a = mkdir(dir.path(), ".estrato");
    let _b = mkdir(a.path(), "impl");
    let target = dir.path().join(".estrato").join("impl");

    let result = down_on_disk(dir.path(), &["impl".into()]).unwrap();
    assert_eq!(result, target);
}

#[test]
fn two_levels_exist() {
    let dir = tempdir().unwrap();
    let a = mkdir(dir.path(), ".estrato");
    let b = mkdir(a.path(), "tech-decisions");
    let c = mkdir(b.path(), ".estrato");
    let _d = mkdir(c.path(), "impl");
    let target = dir.path().join(".estrato").join("tech-decisions").join(".estrato").join("impl");

    let result = down_on_disk(dir.path(), &["tech-decisions".into(), "impl".into()]).unwrap();
    assert_eq!(result, target);
}

#[test]
fn not_found() {
    let dir = tempdir().unwrap();
    let err = down_on_disk(dir.path(), &["noexiste".into()]).unwrap_err();
    assert!(matches!(err, DownError::NotFound(_)));
}

// --- context ---

#[test]
fn context_at_root_with_sub_layers() {
    // The directories found under `.estrato/`, in the order a listing gives them.
    let ctx = Context::from_dir("/tmp/project", vec!["tech-decisions".into(), "impl".into()]);
    assert_eq!(ctx.depth, 0);
    assert_eq!(ctx.sub_layers, vec!["impl", "tech-decisions"]);
    assert_eq!(ctx.up_path(), None);
}

#[test]
fn context_one_deep_no_sub_layers() {
    let ctx = Context::from_dir("/tmp/project/.estrato/impl", vec![]);
    assert_eq!(ctx.depth, 1);
    assert!(ctx.sub_layers.is_empty());
    assert_eq!(ctx.up_path(), Some("../..".to_string()));
}
