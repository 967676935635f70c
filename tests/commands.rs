use presentation::commands::{parse, parse_content, Command, ParseError};

#[test]
fn test_parse_content() {
    assert_eq!(parse_content(r"[]"), Some(r"".to_string()));
    assert_eq!(parse_content(r"[content]"), Some(r"content".to_string()));
    assert_eq!(
        parse_content(r"[content \[ content]"),
        Some(r"content [ content".to_string())
    );
    assert_eq!(
        parse_content(r"[content \] content]"),
        Some(r"content ] content".to_string())
    );
    assert_eq!(
        parse_content(r"[content \[ content \] content]"),
        Some(r"content [ content ] content".to_string())
    );
    assert_eq!(parse_content(r"[content []"), None);
    assert_eq!(parse_content(r"[content ]]"), Some(r"content ".to_string()));
}

#[test]
fn test_parse_commands() {
    let result = parse(&format!(
        r#"
        {};
        {};
        {};
        {} [
            content
        ];
        {} [
            content
        ];
        {} [
            class
        ];
        "#,
        Command::NEW_PAGE,
        Command::START_ADD_TO_PAGE,
        Command::STOP_ADD_TO_PAGE,
        Command::INJECT_TP_PAGE,
        Command::WRAP_IMAGE,
        Command::PAGE_CLASS,
    ));

    assert_eq!(
        result,
        Ok(vec![
            Command::NewPage,
            Command::StartAddToPage,
            Command::StopAddToPage,
            Command::InjectToPage("\n            content\n        ".to_string()),
            Command::WrapImage("\n            content\n        ".to_string()),
            Command::PageClass("class".to_string()),
        ])
    );

    let result = parse(&format!(r#" {}; "#, Command::NEW_PAGE));
    assert_eq!(result, Ok(vec![Command::NewPage]));
}

#[test]
fn commands_test_wrap_image() {
    let result = parse(&format!("{}[content];", Command::WRAP_IMAGE));
    assert_eq!(result, Ok(vec![Command::WrapImage("content".to_string())]));
    let result = parse(&format!("{}[!\\[\\]({})];", Command::WRAP_IMAGE, "{}"));
    assert_eq!(result, Ok(vec![Command::WrapImage("![]({})".to_string())]));
}

#[test]
fn escapes_are_replaced_once() {
    assert_eq!(
        parse(r#"inject[a \[ b \] \" c \' d \n e];"#),
        Ok(vec![Command::InjectToPage("a [ b ] \" c ' d \n e".to_string())])
    );
    // `\\n` is a backslash followed by the escape `\n`, not two escapes.
    assert_eq!(parse_content(r"[a\\n]"), Some("a\\\n".to_string()));
    // `\\[` becomes `\[`: the result is not unescaped a second time.
    assert_eq!(parse_content(r"[a\\[b]"), Some(r"a\[b".to_string()));
}

#[test]
fn parse_gives_the_same_result_twice() {
    let inputs = ["new; start-add;", "new", "foo;", "inject [x", "new; {", ""];
    for input in inputs {
        assert_eq!(parse(input), parse(input));
    }
}

#[test]
fn short_keywords_parse_in_order() {
    assert_eq!(
        parse("new; start-add; stop-add;"),
        Ok(vec![
            Command::NewPage,
            Command::StartAddToPage,
            Command::StopAddToPage
        ])
    );
}

#[test]
fn empty_and_blank_lists_parse_to_nothing() {
    assert_eq!(parse(""), Ok(vec![]));
    assert_eq!(parse(" \n\t "), Ok(vec![]));
}

#[test]
fn class_payload_is_trimmed() {
    assert_eq!(
        parse("class[  title \n];"),
        Ok(vec![Command::PageClass("title".to_string())])
    );
}

#[test]
fn unknown_command_is_reported() {
    assert_eq!(
        parse("new; foo; new;"),
        Err(ParseError::UnknownCommand("foo".to_string()))
    );
    assert_eq!(
        parse("foo-bar;"),
        Err(ParseError::UnknownCommand("foo".to_string()))
    );
}

#[test]
fn missing_payload_is_reported() {
    assert_eq!(
        parse("inject [abc; new;"),
        Err(ParseError::Content("inject".to_string()))
    );
    assert_eq!(parse("image;"), Err(ParseError::Content("image".to_string())));
}

#[test]
fn missing_separator_is_reported() {
    assert_eq!(
        parse("new new;"),
        Err(ParseError::MissingComma("new;".to_string()))
    );
    assert_eq!(parse("new"), Err(ParseError::MissingComma("".to_string())));
}

#[test]
fn trailing_text_is_reported() {
    assert_eq!(
        parse("new; {x "),
        Err(ParseError::Remaining("{x ".to_string()))
    );
}

#[test]
fn parse_error_messages() {
    assert_eq!(
        ParseError::UnknownCommand("foo".to_string()).message(),
        "Unknown command 'foo'. ".to_string()
    );
    assert_eq!(
        ParseError::MissingComma("x;".to_string()).message(),
        "Missing comma before 'x;'. ".to_string()
    );
    assert_eq!(
        ParseError::Content("inject".to_string()).message(),
        "Content after 'inject' could not be parsed correctly. ".to_string()
    );
    assert_eq!(
        ParseError::Remaining("{".to_string()).message(),
        "Unable to parse remaining '{'. ".to_string()
    );
}
