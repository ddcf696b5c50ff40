use cmds::record::Cmd;
use cmds::store::{
    add, all_tags, command_parts, delete, modify, option_split, parse_mode, search, ConfigError,
    Mode,
};

fn rec(command: &str, description: &str, tags: &[&str]) -> Cmd {
    Cmd::new(
        command.to_string(),
        description.to_string(),
        tags.iter().map(|t| t.to_string()).collect(),
    )
}

#[test]
fn cmd_equality_is_structural() {
    let a = rec("ls", "list", &["fs"]);
    let b = rec("ls", "list", &["fs"]);
    let c = rec("ls", "list", &["net"]);
    assert_eq!(a, b);
    assert!(a != c);
}

#[test]
fn clone_preserves_fields() {
    let a = rec("ls -la", "list all", &["fs", "cli"]);
    let b = a.clone();
    assert_eq!(a, b);
}

#[test]
fn search_empty_selection_returns_all() {
    let cmds = vec![rec("a", "", &["x"]), rec("b", "", &["y"])];
    let out = search(&cmds, Vec::new());
    assert_eq!(out, cmds);
}

#[test]
fn search_or_semantics_example() {
    let first = rec("one", "", &["net", "cli"]);
    let second = rec("two", "", &["db"]);
    let third = rec("three", "", &["net"]);
    let cmds = vec![first.clone(), second.clone(), third.clone()];
    let out = search(&cmds, vec!["net".to_string()]);
    assert_eq!(out, vec![first, third]);
}

#[test]
fn search_no_match_returns_empty() {
    let cmds = vec![rec("a", "", &["x"])];
    let out = search(&cmds, vec!["zzz".to_string()]);
    assert!(out.is_empty());
}

#[test]
fn tag_derivation_trims_and_dedups() {
    let cmds = vec![rec("a", "", &[" a", "b "]), rec("b", "", &["b", "c"])];
    let tags = all_tags(&cmds);
    assert_eq!(tags.len(), 3);
    assert!(tags.contains(&"a".to_string()));
    assert!(tags.contains(&"b".to_string()));
    assert!(tags.contains(&"c".to_string()));
}

#[test]
fn add_splits_and_trims_tags() {
    let mut cmds = Vec::new();
    let r = add(
        &mut cmds,
        "ls".to_string(),
        "list".to_string(),
        "a, b".to_string(),
    );
    assert!(r.is_ok());
    assert_eq!(cmds.len(), 1);
    assert_eq!(cmds[0].tags, vec!["a".to_string(), "b".to_string()]);
}

#[test]
fn add_empty_command_rejected_store_unchanged() {
    let mut cmds = vec![rec("keep", "", &[])];
    let before = cmds.clone();
    let r = add(&mut cmds, String::new(), "d".to_string(), "t".to_string());
    assert_eq!(r, Err(ConfigError::EmptyCommand));
    assert_eq!(cmds, before);
}

#[test]
fn add_invalid_tags_rejected_store_unchanged() {
    let mut cmds = vec![rec("keep", "", &[])];
    let before = cmds.clone();
    let r = add(&mut cmds, "x".to_string(), String::new(), "-a,b".to_string());
    assert_eq!(r, Err(ConfigError::InvalidTagSyntax));
    assert_eq!(cmds, before);
}

#[test]
fn option_split_first_segment_policy() {
    assert!(option_split("-a,b").is_none());
    assert!(option_split("a,b").is_some());
    assert!(option_split("a;b,c").is_none());
    assert!(option_split("a\tb,c").is_none());
    // only the first comma-separated segment is inspected, by design
    assert!(option_split("a,-b").is_some());
    assert!(option_split("").is_some());
}

#[test]
fn delete_removes_all_equal_records() {
    let dup = rec("ls", "list", &["fs"]);
    let other = rec("pwd", "", &[]);
    let mut cmds = vec![dup.clone(), other.clone(), dup.clone()];
    delete(&mut cmds, dup);
    assert_eq!(cmds, vec![other]);
}

#[test]
fn delete_preserves_order_of_rest() {
    let a = rec("a", "", &[]);
    let b = rec("b", "", &[]);
    let c = rec("c", "", &[]);
    let mut cmds = vec![a.clone(), b.clone(), c.clone()];
    delete(&mut cmds, b);
    assert_eq!(cmds, vec![a, c]);
}

#[test]
fn modify_replaces_record_atomically() {
    let old = rec("old", "stale", &["x"]);
    let other = rec("other", "", &[]);
    let mut cmds = vec![old.clone(), other.clone()];
    let r = modify(
        &mut cmds,
        &old,
        "new".to_string(),
        "fresh".to_string(),
        "y".to_string(),
    );
    assert!(r.is_ok());
    assert_eq!(cmds, vec![other, rec("new", "fresh", &["y"])]);
}

#[test]
fn modify_error_leaves_store_unchanged() {
    let old = rec("old", "stale", &["x"]);
    let mut cmds = vec![old.clone()];
    let before = cmds.clone();
    let r = modify(
        &mut cmds,
        &old,
        String::new(),
        "fresh".to_string(),
        "y".to_string(),
    );
    assert_eq!(r, Err(ConfigError::EmptyCommand));
    assert_eq!(cmds, before);
}

#[test]
fn parse_mode_flags() {
    assert_eq!(parse_mode("-a"), Ok(Mode::Add));
    assert_eq!(parse_mode("-s"), Ok(Mode::Search));
    assert_eq!(parse_mode("-m"), Ok(Mode::Modify));
    assert_eq!(parse_mode("-d"), Ok(Mode::Delete));
    assert_eq!(parse_mode("-x"), Err(ConfigError::InvalidFlag));
    assert_eq!(parse_mode(""), Err(ConfigError::InvalidFlag));
}

#[test]
fn command_parts_splits_on_whitespace() {
    let (head, args) = command_parts("ls  -la\t/tmp").unwrap();
    assert_eq!(head, "ls");
    assert_eq!(args, vec!["-la".to_string(), "/tmp".to_string()]);
}

#[test]
fn command_parts_empty_command_is_none() {
    assert!(command_parts("").is_none());
    assert!(command_parts("   \t ").is_none());
}

#[test]
fn render_matches_documented_format() {
    let c = rec("ls -la", "list all", &["fs", "cli"]);
    assert_eq!(c.render(), "ls -la\n\t- desc: list all\n\t- tags: [fs, cli]");
    let bare = rec("pwd", "", &[]);
    assert_eq!(bare.render(), "pwd\n\t- desc: \n\t- tags: []");
}

#[test]
fn trim_and_split_edges() {
    assert_eq!(cmds::text::trim_str(" a\t"), "a");
    assert_eq!(cmds::text::trim_str("   "), "");
    let parts = cmds::text::split_on("a,", ',');
    assert_eq!(parts, vec!["a".to_string(), "".to_string()]);
    let single = cmds::text::split_on("", ',');
    assert_eq!(single, vec!["".to_string()]);
}
