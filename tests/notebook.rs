use presentation::commands::{Command, ParseError};
use presentation::notebook::{join_documents, Cell, CellError, Issue, Metadata, Notebook};
use presentation::path::WrapError;

fn markdown(lines: &[&str]) -> Cell {
    Cell {
        cell_type: "markdown".to_string(),
        metadata: Metadata { tags: None },
        outputs: None,
        source: lines.iter().map(|l| l.to_string()).collect(),
    }
}

#[test]
fn test_cell_to_page() {
    let mut pages = vec![];
    let mut page_class = None;
    let cell = Cell {
        cell_type: "markdown".to_string(),
        outputs: None,
        source: vec![
            format!("<!--! {}; {}; -->\n", Command::NEW_PAGE, Command::START_ADD_TO_PAGE),
            "# Headline\n".to_string(),
        ],
        metadata: Metadata { tags: None },
    };
    cell.proses_to_presentation(&mut pages, &mut page_class).unwrap();
    assert_eq!(pages, vec!["# Headline\n".to_string()]);

    let mut pages = vec![];
    let mut page_class = None;
    let cell = Cell {
        cell_type: "markdown".to_string(),
        outputs: None,
        source: vec![
            "<!--!".to_string(),
            format!("{}\n;", Command::NEW_PAGE),
            format!("{}\n;", Command::START_ADD_TO_PAGE),
            "-->\n".to_string(),
            "# Headline\n".to_string(),
            "Text\n".to_string(),
            "More Text\n".to_string(),
        ],
        metadata: Metadata { tags: None },
    };
    cell.proses_to_presentation(&mut pages, &mut page_class).unwrap();
    assert_eq!(pages, vec!["# Headline\nText\nMore Text\n".to_string()]);

    let mut pages = vec![];
    let mut page_class = None;
    let cell = Cell {
        cell_type: "markdown".to_string(),
        outputs: None,
        source: vec![
            format!("<!--!{};\n", Command::NEW_PAGE),
            format!("{};\n", Command::NEW_PAGE),
            format!("{};\n", Command::NEW_PAGE),
            format!("{};\n", Command::NEW_PAGE),
            "-->\n".to_string(),
            "# Headline\n".to_string(),
            "Text".to_string(),
        ],
        metadata: Metadata { tags: None },
    };
    cell.proses_to_presentation(&mut pages, &mut page_class).unwrap();
    assert_eq!(
        pages,
        vec!["".to_string(), "".to_string(), "".to_string(), "".to_string()]
    );
}

#[test]
fn single_line_region_starts_a_page_with_content() {
    let cell = markdown(&["<!--! new; start-add; -->\n", "# Headline\n"]);
    let mut pages = vec![];
    let mut class = None;
    assert_eq!(cell.proses_to_presentation(&mut pages, &mut class), Ok(vec![]));
    assert_eq!(pages, vec!["# Headline\n".to_string()]);
}

#[test]
fn four_new_pages_without_content() {
    let cell = markdown(&["<!--! new; new; new; new; -->\n"]);
    let mut pages = vec![];
    let mut class = None;
    assert_eq!(cell.proses_to_presentation(&mut pages, &mut class), Ok(vec![]));
    assert_eq!(pages, vec![String::new(), String::new(), String::new(), String::new()]);
}

#[test]
fn unterminated_region_changes_nothing() {
    let cell = markdown(&["<!--! new; start-add; -->\n", "text\n", "<!--! new;\n", "more\n"]);
    let mut pages = vec!["before".to_string()];
    let mut class = Some("c".to_string());
    assert_eq!(
        cell.proses_to_presentation(&mut pages, &mut class),
        Err(CellError::UnterminatedCommandRegion { first: 2 })
    );
    assert_eq!(pages, vec!["before".to_string()]);
    assert_eq!(class, Some("c".to_string()));
}

#[test]
fn line_without_break_gets_one() {
    let cell = markdown(&["<!--! new; start-add; -->", "a", "b\n", "<!--! stop-add; -->", "c"]);
    let mut pages = vec![];
    let mut class = None;
    cell.proses_to_presentation(&mut pages, &mut class).unwrap();
    assert_eq!(pages, vec!["a\nb\n".to_string()]);
}

#[test]
fn class_goes_before_the_page_at_the_next_break() {
    let cell = markdown(&["<!--! new; class[ title ]; inject[x]; new; -->\n"]);
    let mut pages = vec![];
    let mut class = None;
    cell.proses_to_presentation(&mut pages, &mut class).unwrap();
    assert_eq!(pages, vec!["class: title\n\nx".to_string(), String::new()]);
    assert_eq!(class, None);
}

#[test]
fn later_class_overwrites_earlier() {
    let cell = markdown(&["<!--! new; class[a]; class[b]; -->\n"]);
    let mut pages = vec![];
    let mut class = None;
    cell.proses_to_presentation(&mut pages, &mut class).unwrap();
    assert_eq!(class, Some("b".to_string()));
}

#[test]
fn wrap_image_uses_the_cell_without_its_regions() {
    let cell = markdown(&[
        "<!--! new; image[<img src=\"{}\">]; -->\n",
        "![](a.png)\n",
    ]);
    let mut pages = vec![];
    let mut class = None;
    assert_eq!(cell.proses_to_presentation(&mut pages, &mut class), Ok(vec![]));
    assert_eq!(pages, vec!["<img src=\"a.png\">".to_string()]);
}

#[test]
fn failing_template_is_skipped_and_reported() {
    let cell = markdown(&["<!--! new; image[{3}]; inject[x]; -->\n", "![](a.png)\n"]);
    let mut pages = vec![];
    let mut class = None;
    assert_eq!(
        cell.proses_to_presentation(&mut pages, &mut class),
        Ok(vec![WrapError::OutOfIndex(3, 1)])
    );
    assert_eq!(pages, vec!["x".to_string()]);
}

#[test]
fn command_without_page_fails() {
    let cell = markdown(&["intro\n", "<!--! inject[x]; -->\n"]);
    let mut pages = vec![];
    let mut class = None;
    assert_eq!(
        cell.proses_to_presentation(&mut pages, &mut class),
        Err(CellError::UninitializedPage { line: 1 })
    );
    let cell = markdown(&["<!--! start-add; -->\n", "text\n"]);
    assert_eq!(
        cell.proses_to_presentation(&mut pages, &mut class),
        Err(CellError::UninitializedPage { line: 1 })
    );
}

#[test]
fn parse_error_names_the_region() {
    let cell = markdown(&["<!--!\n", "new;\n", "bogus;\n", "-->\n"]);
    let mut pages = vec![];
    let mut class = None;
    assert_eq!(
        cell.proses_to_presentation(&mut pages, &mut class),
        Err(CellError::Parse {
            first: 0,
            last: 3,
            error: ParseError::UnknownCommand("bogus".to_string())
        })
    );
    assert_eq!(pages, Vec::<String>::new());
}

#[test]
fn other_cell_types_change_nothing() {
    let mut cell = markdown(&["<!--! new; -->\n"]);
    cell.cell_type = "code".to_string();
    let mut pages = vec![];
    let mut class = None;
    assert_eq!(cell.proses_to_presentation(&mut pages, &mut class), Ok(vec![]));
    assert!(pages.is_empty());
    assert_eq!(
        cell.get_source_without_commands_comment(),
        Err(CellError::UnsupportedCellType("code".to_string()))
    );
}

#[test]
fn source_without_commands_drops_every_region_line() {
    let cell = markdown(&["a\n", "<!--! new; -->\n", "<!--!\n", "new;\n", "-->\n", "b\n"]);
    assert_eq!(cell.get_source_without_commands_comment(), Ok("a\nb\n".to_string()));
}

#[test]
fn notebook_pages_are_joined_and_relocated() {
    let notebook = Notebook {
        cells: vec![
            markdown(&["<!--! new; start-add; -->\n", "![](img/a.png)\n"]),
            markdown(&["<!--! new; start-add; class[wide]; -->\n", "B\n"]),
        ],
        path: "nb/in.ipynb".to_string(),
    };
    let mut issues = vec![];
    assert_eq!(
        notebook.into_pages("pres/out.md", &mut issues),
        Some("![](../nb/img/a.png)\n\n---\n\nclass: wide\n\nB\n".to_string())
    );
    assert_eq!(issues, vec![]);
}

#[test]
fn notebook_reports_failing_cells_and_goes_on() {
    let notebook = Notebook {
        cells: vec![
            markdown(&["<!--! bogus; -->\n"]),
            markdown(&["<!--! new; inject[ok]; image[{x}]; -->\n"]),
        ],
        path: "nb/in.ipynb".to_string(),
    };
    let mut issues = vec![];
    assert_eq!(notebook.into_pages("pres/out.md", &mut issues), Some("ok".to_string()));
    assert_eq!(
        issues,
        vec![
            Issue::CellFailed(
                0,
                CellError::Parse {
                    first: 0,
                    last: 0,
                    error: ParseError::UnknownCommand("bogus".to_string())
                }
            ),
            Issue::WrapSkipped(1, WrapError::ParseIntError("x".to_string())),
        ]
    );
}

#[test]
fn class_without_page_is_reported() {
    let notebook = Notebook {
        cells: vec![markdown(&["<!--! class[x]; -->\n"])],
        path: "nb/in.ipynb".to_string(),
    };
    let mut issues = vec![];
    assert_eq!(notebook.into_pages("pres/out.md", &mut issues), Some(String::new()));
    assert_eq!(issues, vec![Issue::UnplacedClass]);
}

#[test]
fn notebook_without_parent_directory_fails_on_relative_reference() {
    let notebook = Notebook {
        cells: vec![markdown(&["<!--! new; start-add; -->\n", "![](a.png)\n"])],
        path: "in.ipynb".to_string(),
    };
    let mut issues = vec![];
    assert_eq!(notebook.into_pages("", &mut issues), None);
}

#[test]
fn documents_are_joined_skipping_empty_ones() {
    let docs = vec!["A".to_string(), String::new(), "B".to_string()];
    assert_eq!(join_documents(&docs), "\n\n---\n\nA\n\n---\n\nB".to_string());
    assert_eq!(join_documents(&vec![]), String::new());
}

#[test]
fn pending_class_without_page_fails_at_page_break() {
    let cell = markdown(&["<!--! class[x]; new; -->\n"]);
    let mut pages = vec![];
    let mut class = None;
    assert_eq!(
        cell.proses_to_presentation(&mut pages, &mut class),
        Err(CellError::UninitializedPage { line: 0 })
    );
    assert_eq!(class, Some("x".to_string()));
    assert!(pages.is_empty());
}
