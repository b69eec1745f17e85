use stratum::context::Context as StratumContext;
use stratum::estrato::context::Context;
use stratum::estrato::down::{resolve_down, settle_down, DownError};
use stratum::estrato::path as epath;
use stratum::estrato::up::{depth, resolve_up, UpError};
use stratum::layer::{config_file_name, config_text, valid_layer_name};
use stratum::links::{
    anchor_found, decodable, decode, headings, is_markdown_name, link_problem, link_target, links_in,
    rel, skipped_dir, slug, split_anchor, wants_anchor, Why,
};
use stratum::order::sort_names;
use stratum::path::{
    cwd_as_stratum_path, find_git_root, find_outermost_git_root, format_path, parse_path, resolve,
    root_lookup, shown_path, PathToken, ResolveError, RootLookup,
};
use stratum::pathstr::ancestor_paths;
use stratum::query::{parse, Query, QueryError};
use stratum::tree::{is_visible, stratum_children, tree_line};

fn names(v: &[&str]) -> Vec<String> {
    v.iter().map(|s| s.to_string()).collect()
}

// --- climbing: `<` tokens, resolve_up and the up path of a context agree ---

#[test]
fn climbing_three_levels_matches_the_context_up_path() {
    let here = "/p/.estrato/a/.estrato/b/.estrato/c";
    let up = resolve_up(here, 3).unwrap();
    assert_eq!(up, "../../../../../..");
    let ctx = Context::from_dir(here, vec![]);
    assert_eq!(ctx.depth, 3);
    assert_eq!(ctx.up_path(), Some(up));
}

#[test]
fn estrato_up_tokens_resolve_to_repeated_level_up() {
    let here = "/p/.estrato/a/.estrato/b";
    let tokens = epath::parse_path("<<").unwrap();
    let t = epath::resolve("/base", here, &tokens).unwrap();
    assert_eq!(t, "../../../..");
    assert_eq!(resolve_up(here, 2).unwrap(), t);
}

#[test]
fn stratum_up_tokens_resolve_to_repeated_level_up() {
    let here = "/p/.stratum/a/.stratum/b";
    let tokens = parse_path("<<").unwrap();
    let t = resolve("/base", here, &tokens, Some("/root".to_string())).unwrap();
    assert_eq!(t, "../../../..");
    let ctx = StratumContext::from_dir(here, vec![]);
    assert_eq!(ctx.up_path(), Some(t));
}

#[test]
fn climbing_zero_levels_is_refused() {
    assert_eq!(
        resolve_up("/p/.estrato/a", 0),
        Err(UpError::InsufficientDepth { requested: 0, actual: 1 })
    );
}

#[test]
fn a_context_at_the_top_has_no_up_path() {
    assert_eq!(Context::from_dir("/p", vec![]).up_path(), None);
}

// --- going down adds one level per layer ---

#[test]
fn descending_two_layers_adds_two_levels() {
    let base = "/p/.estrato/x";
    let down = resolve_down(base, &names(&["a", "b"]));
    assert_eq!(down, "/p/.estrato/x/.estrato/a/.estrato/b");
    assert_eq!(depth(&down), depth(base) + 2);
}

#[test]
fn stratum_down_tokens_add_one_level_each() {
    let base = "/p/.stratum/x";
    let tokens = parse_path(">a>b").unwrap();
    let t = resolve(base, base, &tokens, None).unwrap();
    assert_eq!(t, "/p/.stratum/x/.stratum/a/.stratum/b");
    assert_eq!(stratum::up::depth(&t), stratum::up::depth(base) + 2);
}

#[test]
fn descending_from_a_path_ending_in_a_slash() {
    assert_eq!(resolve_down("/p/", &names(&["a"])), "/p/.estrato/a");
}

#[test]
fn a_missing_layer_is_reported_with_its_path() {
    assert_eq!(
        settle_down("/p/.estrato/nope".to_string(), false),
        Err(DownError::NotFound("/p/.estrato/nope".to_string()))
    );
}

// --- the working path resolves back to the working directory ---

#[test]
fn the_working_path_resolves_back() {
    let cwd = "/home/u/acreta/subsystems/stratum/.stratum/impl/src";
    let root = "/home/u/acreta";
    let tokens = cwd_as_stratum_path(cwd, Some(root.to_string())).unwrap();
    assert_eq!(format_path(&tokens), "*/subsystems/stratum>impl/src");
    let t = resolve("/elsewhere", "/elsewhere", &tokens, Some(root.to_string())).unwrap();
    assert_eq!(t, cwd);
}

#[test]
fn the_working_path_at_the_root_is_a_star() {
    let tokens = cwd_as_stratum_path("/home/u/acreta", Some("/home/u/acreta".to_string())).unwrap();
    assert_eq!(tokens, vec![PathToken::TopRoot]);
    assert_eq!(format_path(&tokens), "*");
}

#[test]
fn no_working_path_outside_the_root() {
    assert_eq!(cwd_as_stratum_path("/tmp/x", Some("/home/u".to_string())), None);
    assert_eq!(cwd_as_stratum_path("/tmp/x", None), None);
}

// --- roots ---

#[test]
fn a_rooted_path_without_a_root_is_refused() {
    let tokens = parse_path("<*/docs").unwrap();
    assert_eq!(root_lookup(&tokens), Some(RootLookup::Nearest));
    assert!(matches!(resolve("/b", "/b", &tokens, None), Err(ResolveError::NoProjectRoot)));
}

#[test]
fn the_nearest_and_the_outermost_git_root() {
    let c = vec![
        ("/a/b/c".to_string(), false),
        ("/a/b".to_string(), true),
        ("/a".to_string(), true),
        ("/".to_string(), false),
    ];
    assert_eq!(find_git_root(&c), Some("/a/b".to_string()));
    assert_eq!(find_outermost_git_root(&c), Some("/a".to_string()));
    assert_eq!(find_git_root(&[("/x".to_string(), false)].to_vec()), None);
}

#[test]
fn ancestors_run_from_the_path_to_the_root() {
    assert_eq!(ancestor_paths("/a/b"), names(&["/a/b", "/a", "/"]));
}

#[test]
fn too_many_ups_is_insufficient_depth() {
    let tokens = parse_path("<<<").unwrap();
    assert!(matches!(
        resolve("/p", "/p/.stratum/a", &tokens, None),
        Err(ResolveError::InsufficientDepth { requested: 3, actual: 1 })
    ));
}

#[test]
fn a_path_is_shown_relative_to_the_working_directory() {
    assert_eq!(shown_path("/p/.stratum/impl", "/p"), ".stratum/impl");
    assert_eq!(shown_path("/p", "/p"), "/p");
    assert_eq!(shown_path("../..", "/p"), "../..");
}

// --- queries ---

#[test]
fn the_listing_queries() {
    assert_eq!(parse(">?"), Ok(Query::ListDown));
    assert_eq!(parse("<?"), Ok(Query::ListUp));
    assert_eq!(parse(""), Err(QueryError::Empty));
    assert!(matches!(parse(">"), Err(QueryError::ParseError(_))));
}

// --- links ---

#[test]
fn only_local_links_are_reported() {
    let l = links_in("[a](#x) [b](http://x) [c]( ) [d](d.md \"title\") [e](https://y) [f](mailto:z)");
    assert_eq!(l, vec![("d.md".to_string(), "d".to_string())]);
}

#[test]
fn an_unclosed_link_is_not_a_link() {
    assert!(links_in("[a](b.md").is_empty());
    assert!(links_in("[a] (b.md)").is_empty());
}

#[test]
fn inline_code_hides_a_link() {
    assert!(links_in("`[a](b.md)`").is_empty());
}

#[test]
fn slug_lowercases_and_joins_words() {
    assert_eq!(slug("Hola Mundo"), "hola-mundo");
    assert_eq!(slug("a\tb"), "a-b");
    assert_eq!(slug("Año 2: ¿qué?"), "año-2-qué");
    assert_eq!(slug("`x` y_z"), "x-y_z");
}

#[test]
fn decoding_replaces_escapes_and_invalid_bytes() {
    assert_eq!(decode("%C3%A9"), "é");
    assert_eq!(decode("%FF"), "\u{FFFD}");
    assert_eq!(decode("a%zz"), "a%zz");
    assert!(decodable("%C3%A9"));
}

#[test]
fn headings_outside_code_blocks() {
    let h = headings("# Uno\n```\n# Dos\n```\n## Tres `x`\n####### siete\n#sin espacio\n");
    assert_eq!(h.len(), 2);
    assert!(h.contains(&"uno".to_string()));
    assert!(h.contains(&"tres-x".to_string()));
}

#[test]
fn a_link_target_and_its_anchor() {
    assert_eq!(
        link_target("/docs/a", "../b/c.md#Sec%C3%A9"),
        Some(("/docs/b/c.md".to_string(), "Sec%C3%A9".to_string()))
    );
    assert_eq!(link_target("/docs", "#solo"), None);
    assert_eq!(split_anchor("x.md"), ("x.md".to_string(), String::new()));
}

#[test]
fn anchors_are_looked_for_in_markdown_only() {
    assert!(wants_anchor(true, "/d/a.md", "x"));
    assert!(!wants_anchor(false, "/d/a.md", "x"));
    assert!(!wants_anchor(true, "/d/a.txt", "x"));
    assert!(!wants_anchor(true, "/d/.md", "x"));
    assert!(!wants_anchor(true, "/d/a.md", ""));
    assert!(anchor_found("## Sección uno\n", "secci%C3%B3n-uno"));
    assert!(!anchor_found("## Otra\n", "seccion"));
}

#[test]
fn the_problem_with_a_link() {
    assert_eq!(link_problem(true, "/d/a.md", "x", false, None), Some(Why::Missing));
    assert_eq!(link_problem(true, "/d/a.md", "", true, None), None);
    assert_eq!(link_problem(true, "/d/a.md", "uno", true, Some("# Uno\n".to_string())), None);
    assert_eq!(link_problem(true, "/d/a.md", "dos", true, Some("# Uno\n".to_string())), Some(Why::Anchor));
    assert_eq!(link_problem(true, "/d/a.md", "dos", true, None), None);
    assert_eq!(link_problem(false, "/d/a.md", "dos", true, Some("# Uno\n".to_string())), None);
}

#[test]
fn the_walk_skips_tool_directories_and_keeps_markdown() {
    assert!(skipped_dir(".git"));
    assert!(skipped_dir("target"));
    assert!(skipped_dir("node_modules"));
    assert!(skipped_dir(".bilink"));
    assert!(!skipped_dir("docs"));
    assert!(is_markdown_name("a.md"));
    assert!(is_markdown_name(".md"));
    assert!(!is_markdown_name("a.mdx"));
}

#[test]
fn a_path_relative_to_the_root_of_the_walk() {
    assert_eq!(rel("/r", "/r/docs/a.md"), "docs/a.md");
    assert_eq!(rel("/r", "/x/a.md"), "/x/a.md");
}

// --- sub-layers ---

#[test]
fn layer_names_and_configuration() {
    assert!(valid_layer_name("impl"));
    assert!(!valid_layer_name(""));
    assert!(!valid_layer_name("a/b"));
    assert!(!valid_layer_name("a\\b"));
    assert_eq!(config_file_name("impl"), ".impl.toml");
    assert_eq!(
        config_text("git@h:o/r.git", "main"),
        "remote = \"git@h:o/r.git\"\nbranch = \"main\"\n"
    );
}

#[test]
fn names_are_sorted() {
    assert_eq!(sort_names(names(&["b", "a", "c", "a"])), names(&["a", "a", "b", "c"]));
    assert_eq!(sort_names(names(&["ab", "a", "B"])), names(&["B", "a", "ab"]));
}

#[test]
fn context_sorts_sub_layers() {
    let ctx = Context::from_dir("/p", names(&["tech", "impl"]));
    assert_eq!(ctx.sub_layers, names(&["impl", "tech"]));
}

// --- the layer tree ---

#[test]
fn the_children_of_a_directory_in_the_tree() {
    let c = stratum_children(
        "/p",
        names(&["z", "impl"]),
        vec![
            ("subsystems".to_string(), true),
            (".hidden".to_string(), true),
            ("empty".to_string(), false),
            ("apps".to_string(), true),
        ],
    );
    let got: Vec<(String, String)> = c.into_iter().map(|x| (x.label, x.path)).collect();
    assert_eq!(
        got,
        vec![
            (">impl".to_string(), "/p/.stratum/impl".to_string()),
            (">z".to_string(), "/p/.stratum/z".to_string()),
            ("apps".to_string(), "/p/apps".to_string()),
            ("subsystems".to_string(), "/p/subsystems".to_string()),
        ]
    );
    assert!(is_visible("docs"));
    assert!(!is_visible(".git"));
}

#[test]
fn tree_lines_and_prefixes() {
    assert_eq!(
        tree_line("", ">impl", true),
        ("└── >impl".to_string(), "    ".to_string())
    );
    assert_eq!(
        tree_line("│   ", "stratum", false),
        ("│   ├── stratum".to_string(), "│   │   ".to_string())
    );
}

// --- the `.stratum` depth counts the layers that end the path ---

#[test]
fn stratum_depth_counts_trailing_layers() {
    assert_eq!(stratum::up::depth("/p"), 0);
    assert_eq!(stratum::up::depth("/p/.stratum/a"), 1);
    assert_eq!(stratum::up::depth("/p/.stratum/a/.stratum/b"), 2);
    assert_eq!(stratum::up::depth("/p/.stratum/a/src"), 0);
    assert_eq!(stratum::up::depth("/p/.stratum/a/x/.stratum/b"), 1);
    assert_eq!(stratum::up::depth("/p/.stratum/.stratum"), 0);
}

#[test]
fn estrato_depth_counts_trailing_layers() {
    assert_eq!(depth("/project/.estrato/impl/src"), 0);
    assert_eq!(depth("/p/.estrato/a/x/.estrato/b"), 1);
    assert_eq!(resolve_up("/project/.estrato/impl/src", 1), Err(UpError::InsufficientDepth { requested: 1, actual: 0 }));
}

#[test]
fn every_resolved_path_is_checked_for_existence() {
    let tokens = parse_path("<*/nope").unwrap();
    let p = resolve("/b", "/b", &tokens, Some("/g".to_string())).unwrap();
    assert_eq!(p, "/g/nope");
    assert_eq!(stratum::path::settle(p, false), Err(ResolveError::NotFound("/g/nope".to_string())));
    let up = resolve("/b", "/p/.stratum/a", &parse_path("<").unwrap(), None).unwrap();
    assert_eq!(stratum::path::settle(up.clone(), true), Ok(up));
    assert_eq!(
        epath::settle("../..".to_string(), false),
        Err(epath::ResolveError::NotFound("../..".to_string()))
    );
}

#[test]
fn white_space_is_the_unicode_set() {
    for u in 0u32..=0x10FFFF {
        if let Some(c) = char::from_u32(u) {
            assert_eq!(stratum::text::is_whitespace(c), c.is_whitespace(), "{u:x}");
        }
    }
}

#[test]
fn headings_come_sorted() {
    let h = headings("# Zeta\n# alfa\n# Beta\n# alfa\n");
    assert_eq!(h, vec!["alfa".to_string(), "beta".to_string(), "zeta".to_string()]);
}

// --- the grammar of stratum paths ---

#[test]
fn up_grammar_examples() {
    assert_eq!(parse_path("<</docs"), Ok(vec![PathToken::Up, PathToken::Up, PathToken::Simple("/docs".to_string())]));
    assert_eq!(parse_path("<</"), Ok(vec![PathToken::Up, PathToken::Up]));
    assert_eq!(parse_path("<<x"), Err(stratum::path::ParseError::InvalidSyntax("<<x".to_string())));
}

#[test]
fn down_grammar_examples() {
    assert_eq!(parse_path(">a>>b"), Err(stratum::path::ParseError::InvalidSegment(String::new())));
    assert_eq!(parse_path(">a>b/x>y"), Ok(vec![
        PathToken::Down("a".to_string()),
        PathToken::Down("b".to_string()),
        PathToken::Simple("/x>y".to_string()),
    ]));
    assert_eq!(parse_path(">/x"), Err(stratum::path::ParseError::InvalidSegment(String::new())));
}

#[test]
fn rooted_forms_agree() {
    let a = parse_path("*/sub>impl/src").unwrap();
    let b = parse_path("<*/sub>impl/src").unwrap();
    assert_eq!(a[0], PathToken::TopRoot);
    assert_eq!(b[0], PathToken::Root);
    assert_eq!(a[1..], b[1..]);
    assert_eq!(parse_path("*foo"), Err(stratum::path::ParseError::InvalidSyntax("*foo".to_string())));
    assert_eq!(parse_path("<*foo"), Err(stratum::path::ParseError::InvalidSyntax("<*foo".to_string())));
}

// --- climbing, normalizing, decoding, links ---

#[test]
fn climbing_is_two_parent_parts_per_level() {
    let up = resolve_up("/p/.estrato/a/.estrato/b", 2).unwrap();
    let parts: Vec<&str> = up.split('/').collect();
    assert_eq!(parts.len(), 4);
    assert!(parts.iter().all(|p| *p == ".."));
}

#[test]
fn normalizing_settles_dots() {
    assert_eq!(stratum::links::normalize("/a/./b/../c"), "/a/c");
    assert_eq!(stratum::links::normalize("/a/../.."), "/");
    assert_eq!(stratum::links::normalize("a/../../b"), "b");
}

#[test]
fn decoding_text_without_escapes_keeps_it() {
    assert_eq!(decode("plain text"), "plain text");
    assert_eq!(decode("é ñ 漢"), "é ñ 漢");
}

#[test]
fn links_of_joined_texts() {
    let a = "[a](a.md)\n";
    let b = "[b](b.md) [c](c.md \"t\")";
    let mut both = links_in(a);
    both.extend(links_in(b));
    assert_eq!(links_in(&format!("{a}{b}")), both);
    assert_eq!(both[2].0, "c.md");
}

#[test]
fn slugs_hold_only_word_characters() {
    for t in ["Hola, ¡Mundo! `x`", "  a\u{3000}b  ", "`.bilink/head` — de dónde", "x_y-z"] {
        let s = slug(t);
        assert!(s.chars().all(|c| c.is_alphanumeric() || c == '-' || c == '_'), "{s}");
        assert_eq!(slug(&t.replace('`', "")), s);
    }
    assert_eq!(slug("`.bilink/head` — de dónde"), "bilinkhead-de-dónde");
}

#[test]
fn only_a_fence_of_the_same_character_closes_a_block() {
    assert_eq!(headings("~~~\n```\n# No\n~~~\n# Si\n"), vec!["si".to_string()]);
    assert!(links_in("~~~\n```\n[a](a.md)\n~~~\n[b](b.md)\n").iter().all(|l| l.0 == "b.md"));
}

#[test]
fn escaped_anchors_decode() {
    assert_eq!(decode("de-d%C3%B3nde"), "de-dónde");
    assert_eq!(decode("%C3%A9"), "é");
    assert_eq!(decode("100%"), "100%");
    assert_eq!(decode("%zz"), "%zz");
}

#[test]
fn links_of_texts_joined_by_a_line_break() {
    let a = "[a](a.md)";
    let b = "[b](b.md)";
    let mut both = links_in(a);
    both.extend(links_in(b));
    assert_eq!(links_in(&format!("{a}\n{b}")), both);
}

#[test]
fn anchors_only_add_problems() {
    let dest = Some("# Uno\n".to_string());
    assert_eq!(link_problem(false, "/d/a.md", "dos", true, dest.clone()), None);
    assert_eq!(link_problem(true, "/d/a.md", "dos", true, dest), Some(Why::Anchor));
    assert_eq!(link_problem(false, "/d/a.md", "dos", false, None), Some(Why::Missing));
}
