use presentation::path::{
    duble_quote_string, find_path_in_markdown_image, find_paths_in_html,
    find_paths_in_markdown, replace_paths, single_quote_string, wrap_image, WrapError,
};

#[test]
fn test_single_qoute_string() {
    let text = r#"'./bilder/digital_state_clock.svg'"#;
    assert_eq!(
        Some(("./bilder/digital_state_clock.svg".to_string(), 1..33)),
        single_quote_string(text)
    );
}

#[test]
fn test_duble_qoute_string() {
    let text = r#""./bilder/digital_state_clock.svg""#;
    assert_eq!(
        Some(("./bilder/digital_state_clock.svg".to_string(), 1..33)),
        duble_quote_string(text)
    );
}

#[test]
fn test_find_paths_in_html() {
    let text = "<img src=\"./images/image.png\" width=\"60%\">\n";
    assert_eq!(
        Some(("./images/image.png".to_string(), 10..28)),
        find_paths_in_html(text)
    );
}

#[test]
fn test_find_path_in_markdown_image() {
    let text = "![Some Deskription](./images/image.png)";
    assert_eq!(
        Some(("./images/image.png".to_string(), 20..38)),
        find_path_in_markdown_image(text)
    );
}

#[test]
fn test_find_paths_in_markdown() {
    let text = r#"
        # Some Header

        ![Some Deskription](./image1.png)

        some simple text

        <img src="./image2.png" width="60%">
        "#;
    assert_eq!(
        vec![
            ("./image1.png".to_string(), 52..64),
            ("./image2.png".to_string(), 111..123)
        ],
        find_paths_in_markdown(text)
    );
}

#[test]
fn test_find_paths_in_markdown2() {
    let text = r#"<img src="./image1.png">
![Image1](./image2.png)
<img src="./image3.png">"#;
    assert_eq!(
        vec![
            ("./image1.png".to_string(), 10..22),
            ("./image2.png".to_string(), 35..47),
            ("./image3.png".to_string(), 59..71)
        ],
        find_paths_in_markdown(text)
    );
}

#[test]
fn path_test_wrap_image() {
    let wrap = "![Some Image]({})  \n![Some Image]({})";
    let markdown = "![](./images/image1.png)\nsome text\n![](./images/image2.png)";
    assert_eq!(
        Ok("![Some Image](./images/image1.png)  \n![Some Image](./images/image2.png)"
            .to_string()),
        wrap_image(markdown, wrap)
    );
}

#[test]
fn test_replace_path() {
    let markdown =
        "# Header\n![](./images/image1.png)\n<src = \"./images/image2.png\">\n![](https://webimage/image.png)\nSome Text"
            .to_string();
    let markdown = replace_paths("presentations/output.rmd", "notebooks/input.ipynb", markdown);
    assert_eq!(markdown, Some("# Header\n![](../notebooks/./images/image1.png)\n<src = \"../notebooks/./images/image2.png\">\n![](https://webimage/image.png)\nSome Text".to_string()));
}

#[test]
fn test_replace_path2() {
    let markdown =
        "Here Is a cell with images.  \n<img src = \"./../images/image1.png\">  The text gets ignored.  \n![Image1](./../images/image2.png)  \n".to_string();
    let wrap = "wrap-image[<img src=\"{}\">\n\n![Image1]({})]";
    let markdown = wrap_image(&markdown, wrap).unwrap();
    let markdown = replace_paths("presentations/output.rmd", "notebooks/input.ipynb", markdown);
    assert_eq!(markdown, Some("wrap-image[<img src=\"../notebooks/./../images/image1.png\">\n\n![Image1](../notebooks/./../images/image2.png)]".to_string()));
}

#[test]
fn scan_finds_markdown_then_html_in_order() {
    assert_eq!(
        find_paths_in_markdown("![](a.png)\nsome text\n<img src=\"b.png\">"),
        vec![("a.png".to_string(), 4..9), ("b.png".to_string(), 31..36)]
    );
}

#[test]
fn scan_of_text_without_references_is_empty() {
    assert_eq!(find_paths_in_markdown(""), vec![]);
    assert_eq!(find_paths_in_markdown("plain [text] (here) <b>bold</b>"), vec![]);
    // An image without a closing parenthesis gives nothing.
    assert_eq!(find_paths_in_markdown("![x](a.png"), vec![]);
}

#[test]
fn scan_reads_single_quoted_src() {
    assert_eq!(
        find_paths_in_markdown("<img alt='x' src = 'c.png'>"),
        vec![("c.png".to_string(), 20..25)]
    );
}

#[test]
fn wrap_fills_two_references() {
    assert_eq!(
        wrap_image("![](a.png) ![](b.png)", "![x]({})  ![x]({})"),
        Ok("![x](a.png)  ![x](b.png)".to_string())
    );
}

#[test]
fn wrap_takes_explicit_indices() {
    let md = "![](a.png) ![](b.png)";
    assert_eq!(wrap_image(md, "{1}-{0}"), Ok("b.png-a.png".to_string()));
    assert_eq!(wrap_image(md, "{+1}"), Ok("b.png".to_string()));
    // `{}` takes its position among all placeholders.
    assert_eq!(wrap_image(md, "{0}{}"), Ok("a.pngb.png".to_string()));
    assert_eq!(wrap_image(md, "no placeholders"), Ok("no placeholders".to_string()));
}

#[test]
fn wrap_reports_bad_index() {
    assert_eq!(
        wrap_image("![](a.png)", "{x}"),
        Err(WrapError::ParseIntError("x".to_string()))
    );
    assert_eq!(
        wrap_image("![](a.png)", "{-1}"),
        Err(WrapError::ParseIntError("-1".to_string()))
    );
}

#[test]
fn wrap_reports_index_out_of_range() {
    assert_eq!(wrap_image("![](a.png)", "{2}"), Err(WrapError::OutOfIndex(2, 1)));
    assert_eq!(wrap_image("", "{}"), Err(WrapError::OutOfIndex(0, 0)));
}

#[test]
fn wrap_reports_unclosed_placeholder() {
    assert_eq!(wrap_image("![](a.png)", "x {"), Err(WrapError::SplitError));
}

#[test]
fn relocation_joins_parents_and_reference() {
    assert_eq!(
        replace_paths("pres/out.md", "nb/in.ipynb", "![](./img/x.png)".to_string()),
        Some("![](../nb/./img/x.png)".to_string())
    );
    assert_eq!(
        replace_paths("a/b/out.md", "nb/in.ipynb", "![](x.png)".to_string()),
        Some("![](../../nb/x.png)".to_string())
    );
}

#[test]
fn relocation_without_relative_references_keeps_text() {
    let text = "# T\n![](/abs/a.png)\n<img src=\"http://h/b.png\">\n![](https://h/c.png)\n";
    assert_eq!(
        replace_paths("pres/out.md", "nb/in.ipynb", text.to_string()),
        Some(text.to_string())
    );
    assert_eq!(
        replace_paths("", "", text.to_string()),
        Some(text.to_string())
    );
}

#[test]
fn relocation_needs_parents_for_relative_references() {
    assert_eq!(replace_paths("", "nb/in.ipynb", "![](x.png)".to_string()), None);
    assert_eq!(replace_paths("pres/out.md", "", "![](x.png)".to_string()), None);
}

#[test]
fn wrap_error_messages() {
    assert_eq!(
        WrapError::OutOfIndex(12, 3).message(),
        "Out of index. Len: 3 Index: 12".to_string()
    );
    assert_eq!(
        WrapError::ParseIntError("x".to_string()).message(),
        "Invalid index 'x'. ".to_string()
    );
    assert_eq!(
        WrapError::SplitError.message(),
        "Unable to split the content properly: a '{' is not closed. ".to_string()
    );
}

#[test]
fn wrap_index_at_the_limit_of_usize() {
    let too_big = format!("{}0", usize::MAX);
    assert_eq!(
        wrap_image("![](a.png)", &format!("{{{too_big}}}")),
        Err(WrapError::ParseIntError(too_big.clone()))
    );
    assert_eq!(
        wrap_image("![](a.png)", &format!("{{{}}}", usize::MAX)),
        Err(WrapError::OutOfIndex(usize::MAX, 1))
    );
}
