use clap_sort::{
    derived_name, find_declarations, tokenize, validate_source, SourceError, Token, ViolationKind,
};

const UNSORTED: &str = r#"
use clap::{Parser, Subcommand};

/// This example shows INCORRECTLY sorted subcommands
#[derive(Parser)]
struct Cli {
    #[command(subcommand)]
    command: Commands,
}

#[derive(Subcommand)]
enum Commands {
    /// List all items
    List,

    /// Add a new item
    Add,

    /// Update an existing item
    Update,

    /// Delete an item
    Delete,
}

fn main() {
    println!("done");
}
"#;

#[test]
fn end_to_end_unsorted_enum() {
    let vs = validate_source(UNSORTED).unwrap();
    assert_eq!(vs.len(), 1);
    assert_eq!(vs[0].kind, ViolationKind::SubcommandOrder);
    assert_eq!(vs[0].path, vec!["Commands".to_string()]);
    assert_eq!(vs[0].actual, vec!["list", "add", "update", "delete"]);
    assert_eq!(vs[0].expected, vec!["add", "delete", "list", "update"]);
    assert!(vs[0].message().contains("are not sorted alphabetically"));
}

#[test]
fn end_to_end_sorted_enum() {
    let text = "#[derive(Subcommand)]\nenum Commands { Add, Delete, List, Update }\n";
    assert!(validate_source(text).unwrap().is_empty());
}

#[test]
fn enums_without_the_marker_are_ignored() {
    let text = "#[derive(Debug, Clone)]\nenum Colour { Red, Green, Blue }\nenum Plain { Z, A }\n";
    assert!(validate_source(text).unwrap().is_empty());
}

#[test]
fn explicit_name_overrides_identifier() {
    let text = r#"
#[derive(Debug, clap::Subcommand)]
pub enum Cmd {
    #[command(name = "zzz")]
    Alpha,
    #[command(about = "x", name = "foo")]
    Beta { #[arg(long)] flag: bool },
    Gamma(GammaArgs),
}
"#;
    let ts = tokenize(text).unwrap();
    let ds = find_declarations(&ts).unwrap();
    assert_eq!(ds.len(), 1);
    assert_eq!(ds[0].name, "Cmd");
    assert_eq!(ds[0].variants, vec!["zzz", "foo", "gamma"]);
    let vs = validate_source(text).unwrap();
    assert_eq!(vs.len(), 1);
    assert_eq!(vs[0].expected, vec!["foo", "gamma", "zzz"]);
}

#[test]
fn every_declaration_is_checked() {
    let text = "#[derive(Subcommand)] enum A { B, A }\n#[derive(Subcommand)] enum C { X, Y }\n#[derive(Subcommand)] enum D { Q_R, P }";
    let vs = validate_source(text).unwrap();
    assert_eq!(vs.len(), 2);
    assert_eq!(vs[0].path, vec!["A".to_string()]);
    assert_eq!(vs[1].path, vec!["D".to_string()]);
    assert_eq!(vs[1].actual, vec!["q-r", "p"]);
    let multi = validate_source("#[derive(Subcommand)] enum M { TaskDocs, Add }").unwrap();
    assert_eq!(multi[0].actual, vec!["task-docs", "add"]);
}

#[test]
fn derived_names() {
    assert_eq!(derived_name("Add"), "add");
    assert_eq!(derived_name("Add_Cmd"), "add-cmd");
    assert_eq!(derived_name("AddCmd"), "add-cmd");
    assert_eq!(derived_name("HTTPServer"), "http-server");
    assert_eq!(derived_name("V2Beta"), "v2-beta");
    assert_eq!(derived_name("TaskDocs"), "task-docs");
    assert_eq!(derived_name(""), "");
}

#[test]
fn override_applies_to_any_identifier() {
    let text = "#[derive(Subcommand)] enum E { #[command(name = \"foo\")] Whatever_Name }";
    let ts = tokenize(text).unwrap();
    let ds = find_declarations(&ts).unwrap();
    assert_eq!(ds[0].variants, vec!["foo"]);
}

#[test]
fn comments_and_strings_do_not_confuse_the_scanner() {
    let text = "// enum X { B, A }\n/* #[derive(Subcommand)] enum Y { B, A } */\nconst S: &str = \"enum Z { B, A }\";\n#[derive(Subcommand)] enum W { A, B }";
    assert!(validate_source(text).unwrap().is_empty());
}

#[test]
fn unterminated_comment_is_an_error() {
    assert_eq!(
        validate_source("/* never closed").unwrap_err(),
        SourceError::UnterminatedComment
    );
}

#[test]
fn unterminated_string_is_an_error() {
    assert_eq!(
        validate_source("const S: &str = \"open;").unwrap_err(),
        SourceError::UnterminatedLiteral
    );
}

#[test]
fn unbalanced_braces_are_an_error() {
    assert_eq!(
        validate_source("#[derive(Subcommand)] enum A { B, C").unwrap_err(),
        SourceError::UnbalancedDelimiter
    );
    assert_eq!(validate_source("fn f() { ]").unwrap_err(), SourceError::UnbalancedDelimiter);
}

#[test]
fn malformed_enum_is_an_error() {
    assert_eq!(
        validate_source("#[derive(Subcommand)] enum A { , }").unwrap_err(),
        SourceError::MalformedDeclaration
    );
}

#[test]
fn static_validation_is_repeatable() {
    let one = validate_source(UNSORTED).unwrap();
    let two = validate_source(UNSORTED).unwrap();
    assert_eq!(one.len(), two.len());
    assert_eq!(one[0].actual, two[0].actual);
    assert_eq!(one[0].expected, two[0].expected);
}

#[test]
fn raw_strings_and_quote_literals_are_read() {
    let text = "const A: &str = r#\"has \" quote { \"#;\nconst B: char = '\\'';\nconst C: char = '{';\nfn f<'a>(x: &'a str) {}\n#[derive(Subcommand)] enum E { B, A }";
    let vs = validate_source(text).unwrap();
    assert_eq!(vs.len(), 1);
    assert_eq!(vs[0].actual, vec!["b", "a"]);
}

#[test]
fn raw_string_value_is_kept_verbatim() {
    let ts = tokenize("r\"a\\nb\" br##\"x\"#y\"##").unwrap();
    assert_eq!(ts.len(), 2);
    match &ts[0] {
        Token::Str(v) => assert_eq!(v, "a\\nb"),
        other => panic!("unexpected token {:?}", other),
    }
    match &ts[1] {
        Token::Str(v) => assert_eq!(v, "x\"#y"),
        other => panic!("unexpected token {:?}", other),
    }
}

#[test]
fn escapes_in_explicit_names_are_decoded() {
    let text = "#[derive(Subcommand)] enum E { #[command(name = \"a\\\"b\")] X, #[command(name = \"tab\\there\")] Y }";
    let ts = tokenize(text).unwrap();
    let ds = find_declarations(&ts).unwrap();
    assert_eq!(ds[0].variants, vec!["a\"b", "tab\there"]);
}

#[test]
fn unterminated_raw_string_is_an_error() {
    assert_eq!(
        validate_source("const S: &str = r#\"open\";").unwrap_err(),
        SourceError::UnterminatedLiteral
    );
}

#[test]
fn pub_and_generics_are_passed_over() {
    let text = "#[derive(Subcommand)]\n#[command(about = \"x\")]\npub(crate) enum Cmd<T> { Zed(T), Add }";
    let vs = validate_source(text).unwrap();
    assert_eq!(vs.len(), 1);
    assert_eq!(vs[0].path, vec!["Cmd".to_string()]);
    assert_eq!(vs[0].expected, vec!["add", "zed"]);
}
