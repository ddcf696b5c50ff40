use cmds::json::{load_from_json, save_to_json};
use cmds::record::Cmd;
use cmds::store::ConfigError;

fn rec(command: &str, description: &str, tags: &[&str]) -> Cmd {
    Cmd::new(
        command.to_string(),
        description.to_string(),
        tags.iter().map(|t| t.to_string()).collect(),
    )
}

#[test]
fn save_empty_store_is_brackets() {
    assert_eq!(save_to_json(&Vec::new()), "[]");
}

#[test]
fn load_empty_brackets() {
    let out = load_from_json("[]").unwrap();
    assert!(out.is_empty());
}

#[test]
fn round_trip_two_records() {
    let cmds = vec![
        rec("ls -la", "list all", &["fs", "cli"]),
        rec("ping host", "", &[]),
    ];
    let doc = save_to_json(&cmds);
    let back = load_from_json(&doc).unwrap();
    assert_eq!(back, cmds);
}

#[test]
fn round_trip_special_characters() {
    let cmds = vec![rec(
        "echo \"hi\\there\"",
        "line\nbreak and tab\t plus \u{1} control, caf\u{e9}",
        &["quote\"tag", "back\\slash"],
    )];
    let doc = save_to_json(&cmds);
    let back = load_from_json(&doc).unwrap();
    assert_eq!(back, cmds);
}

#[test]
fn saved_document_escapes_control_characters() {
    let cmds = vec![rec("a\u{1}b", "", &[])];
    let doc = save_to_json(&cmds);
    assert!(doc.contains("\\u0001"));
    assert!(!doc.contains('\u{1}'));
}

#[test]
fn load_rejects_malformed_documents() {
    assert_eq!(load_from_json("not json"), Err(ConfigError::MalformedJson));
    assert_eq!(load_from_json("["), Err(ConfigError::MalformedJson));
    assert_eq!(load_from_json("[]x"), Err(ConfigError::MalformedJson));
    assert_eq!(load_from_json("[{}]"), Err(ConfigError::MalformedJson));
    assert_eq!(load_from_json(""), Err(ConfigError::MalformedJson));
}

#[test]
fn load_accepts_escapes_and_flexible_whitespace() {
    let doc = "[ { \"command\" : \"\\u0041\\n\", \"description\" : \"\\t\", \"tags\" : [ \"x\" , \"y\" ] } ]";
    let out = load_from_json(doc).unwrap();
    assert_eq!(out.len(), 1);
    assert_eq!(out[0].command, "A\n");
    assert_eq!(out[0].description, "\t");
    assert_eq!(out[0].tags, vec!["x".to_string(), "y".to_string()]);
}

#[test]
fn load_rejects_lone_surrogate_escape() {
    let doc = "[{\"command\": \"\\uD800\", \"description\": \"\", \"tags\": []}]";
    assert_eq!(load_from_json(doc), Err(ConfigError::MalformedJson));
}

#[test]
fn serde_json_reads_saved_document() {
    let cmds = vec![rec("ls", "li\"st", &["a", "b"])];
    let doc = save_to_json(&cmds);
    let value: serde_json::Value = serde_json::from_str(&doc).unwrap();
    let arr = value.as_array().unwrap();
    assert_eq!(arr.len(), 1);
    assert_eq!(arr[0].get("command").unwrap().as_str().unwrap(), "ls");
    assert_eq!(arr[0].get("description").unwrap().as_str().unwrap(), "li\"st");
    let tags = arr[0].get("tags").unwrap().as_array().unwrap();
    assert_eq!(tags.len(), 2);
    assert_eq!(tags[0].as_str().unwrap(), "a");
    assert_eq!(tags[1].as_str().unwrap(), "b");
}

#[test]
fn serde_json_pretty_document_loads_back() {
    let mut obj = serde_json::Map::new();
    obj.insert(
        "command".to_string(),
        serde_json::Value::String("grep -r".to_string()),
    );
    obj.insert(
        "description".to_string(),
        serde_json::Value::String("search files".to_string()),
    );
    obj.insert(
        "tags".to_string(),
        serde_json::Value::Array(vec![serde_json::Value::String("search".to_string())]),
    );
    let value = serde_json::Value::Array(vec![serde_json::Value::Object(obj)]);
    let doc = serde_json::to_string_pretty(&value).unwrap();
    let out = load_from_json(&doc).unwrap();
    assert_eq!(out, vec![rec("grep -r", "search files", &["search"])]);
}
