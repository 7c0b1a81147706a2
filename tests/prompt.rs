use prompt::prompt::{cursors, decimal_string, head_label, left_prompt, right_prompt};
use prompt::Color;

#[test]
fn colours_wrap_text() {
    assert_eq!("abc".red().to_string(), "\x1b[31mabc\x1b[0m");
    assert_eq!("abc".to_string().green().to_string(), "\x1b[32mabc\x1b[0m");
}

#[test]
fn decimals() {
    assert_eq!(decimal_string(0), "0");
    assert_eq!(decimal_string(7), "7");
    assert_eq!(decimal_string(130), "130");
    assert_eq!(decimal_string(-1), "-1");
    assert_eq!(decimal_string(i32::MIN), "-2147483648");
    assert_eq!(decimal_string(i32::MAX), "2147483647");
}

#[test]
fn left_prompts() {
    let who = Some(("alice".to_string(), "box".to_string()));
    assert_eq!(
        left_prompt(&who, "~/p", false, ">", "#"),
        "alice@box \x1b[32m~/p\x1b[0m> "
    );
    assert_eq!(
        left_prompt(&None, "/etc", true, ">", "#"),
        "\x1b[31m/etc\x1b[0m# "
    );
}

#[test]
fn right_prompts() {
    let head = Some("main".to_string());
    assert_eq!(right_prompt(0, &head), "(main)");
    assert_eq!(right_prompt(2, &head), "\x1b[31m2\x1b[0m (main)");
    assert_eq!(right_prompt(-3, &None), "\x1b[31m-3\x1b[0m");
    assert_eq!(right_prompt(0, &None), "");
}

#[test]
fn head_labels() {
    let none: Vec<String> = vec![];
    let tags = vec!["v1.0".to_string(), "stable".to_string()];
    let id = Some("abc1234".to_string());
    assert_eq!(
        head_label(&Some("main".to_string()), &tags, &id, false),
        Some("main".to_string())
    );
    assert_eq!(head_label(&None, &tags, &id, true), Some("v1.0\\stable *".to_string()));
    assert_eq!(head_label(&None, &none, &id, false), Some("abc1234".to_string()));
    assert_eq!(head_label(&None, &none, &None, true), None);
}

#[test]
fn cursors_from_arguments() {
    let args: Vec<String> = vec!["prompt".into(), "1000".into()];
    assert_eq!(cursors(&args), (">".to_string(), "#".to_string()));
    let args: Vec<String> = vec!["prompt".into(), "0".into(), "$".into()];
    assert_eq!(cursors(&args), ("$".to_string(), "#".to_string()));
    let args: Vec<String> = vec!["p".into(), "0".into(), "$".into(), "!".into()];
    assert_eq!(cursors(&args), ("$".to_string(), "!".to_string()));
}
