use brain::markdown::{
    is_single_title_header, normalized_import_lines, split_import_markdown,
    validate_markdown, validate_paragraph_line, MarkdownError,
};

#[test]
fn validates_voice_markdown() {
    let title = validate_markdown("# Server\n\nThe server stores ideas.\n\nMore text.").unwrap();
    assert_eq!(title, "Server");
}

#[test]
fn rejects_missing_single_hash_title() {
    let err = validate_markdown("## Server\nText").unwrap_err();
    assert!(err.message().contains("single '# Title'"));
}

#[test]
fn rejects_non_paragraph_blocks() {
    let err = validate_markdown("# Server\n- item").unwrap_err();
    assert!(err.message().contains("only title headers and paragraphs"));
}

#[test]
fn rejects_nested_headers_inside_an_idea() {
    let err = validate_markdown("# Server\n\nText.\n\n# API\n\nMore text.").unwrap_err();
    assert!(err.message().contains("only have one"));
}

#[test]
fn rejects_title_without_body_text() {
    let err = validate_markdown("# Server").unwrap_err();
    assert!(err.message().contains("text after its title"));
}

#[test]
fn splits_valid_import_markdown() {
    let ideas = split_import_markdown("# One\n\nFirst text.\n\n# Two\n\nSecond text.").unwrap();
    assert_eq!(ideas.len(), 2);
    assert_eq!(ideas[0], "# One\n\nFirst text.");
    assert_eq!(ideas[1], "# Two\n\nSecond text.");
}

#[test]
fn imports_brain_export_markdown() {
    let export = "<!-- project: brain | created_at: 2026-06-13T15:00:00Z | id: one -->\n\n# One\n\nFirst text.\n\n---\n\n<!-- project: brain | created_at: 2026-06-13T15:01:00Z | id: two -->\n\n# Two\n\nSecond text.";
    let ideas = split_import_markdown(export).unwrap();
    assert_eq!(ideas.len(), 2);
    assert_eq!(ideas[0], "# One\n\nFirst text.");
    assert_eq!(ideas[1], "# Two\n\nSecond text.");
}

#[test]
fn rejects_import_with_adjacent_headers() {
    let err = split_import_markdown("# One\n\n# Two\n\nSecond text.").unwrap_err();
    assert!(err.message().contains("before the previous idea has text"));
}

#[test]
fn rejects_import_with_nested_header_levels() {
    let err = split_import_markdown("# One\n\nText.\n\n## Two\n\nSecond text.").unwrap_err();
    assert!(err.message().contains("single '# Title'"));
}

#[test]
fn validate_markdown_messages_carry_line_numbers() {
    let err = validate_markdown("# Server\n\nText.\n\n# API\n\nMore text.").unwrap_err();
    assert_eq!(err, MarkdownError::ExtraHeader { line: 5 });
    assert_eq!(
        err.message(),
        "line 5 is not allowed; an idea can only have one '# Title' header"
    );
    let err = validate_markdown("# Server\n> quote").unwrap_err();
    assert_eq!(err, MarkdownError::NotParagraph { line: 2 });
    assert_eq!(
        err.message(),
        "line 2 is not a paragraph; only title headers and paragraphs are accepted"
    );
}

#[test]
fn validate_markdown_edge_cases() {
    assert_eq!(validate_markdown("   \n\t").unwrap_err(), MarkdownError::MarkdownRequired);
    assert_eq!(validate_markdown("#  \nText").unwrap_err(), MarkdownError::EmptyTitle);
    assert_eq!(validate_markdown("# # Nested\nText").unwrap(), "Nested");
    assert_eq!(validate_markdown("  # Padded title  \r\nBody\r\n").unwrap(), "Padded title");
    assert_eq!(validate_markdown("Text\n# Late").unwrap_err(), MarkdownError::MissingTitleHeader);
    assert_eq!(
        validate_markdown("# Title\n=====").unwrap_err(),
        MarkdownError::NotParagraph { line: 2 }
    );
    assert_eq!(validate_markdown("# Title\n\n\n").unwrap_err(), MarkdownError::MissingBody);
    assert_eq!(validate_markdown("# Title\nsome - text").unwrap(), "Title");
}

#[test]
fn single_title_headers() {
    assert!(is_single_title_header("# Title"));
    assert!(!is_single_title_header("## Title"));
    assert!(!is_single_title_header("#Title"));
}

#[test]
fn paragraph_lines() {
    assert!(validate_paragraph_line("plain text", 3).is_ok());
    for line in ["- item", "* item", "> quote", "`code", "| a | b |", "---", "==="] {
        assert_eq!(
            validate_paragraph_line(line, 7).unwrap_err(),
            MarkdownError::NotParagraph { line: 7 }
        );
    }
}

#[test]
fn normalized_lines_skip_export_comments() {
    let lines = normalized_import_lines("<!-- project: a -->\n# One\n<!-- other -->\ntext");
    assert_eq!(lines.len(), 3);
    assert_eq!(lines[0], (1, "# One".to_string()));
    assert_eq!(lines[1], (2, "<!-- other -->".to_string()));
    assert_eq!(lines[2], (3, "text".to_string()));
}

#[test]
fn import_errors() {
    assert_eq!(split_import_markdown("  ").unwrap_err(), MarkdownError::MarkdownRequired);
    assert_eq!(
        split_import_markdown("---\nText first\n# One\nBody").unwrap_err(),
        MarkdownError::ImportMissingTitle
    );
    assert_eq!(
        split_import_markdown("# One\n---\n# Two\nText").unwrap_err(),
        MarkdownError::SeparatorBeforeText { line: 2 }
    );
    assert_eq!(
        split_import_markdown("# One\nText\n# Two").unwrap_err(),
        MarkdownError::LastIdeaWithoutText
    );
    assert_eq!(
        split_import_markdown("# One\nText\n- item").unwrap_err(),
        MarkdownError::NotParagraph { line: 3 }
    );
    let err = split_import_markdown("# One\n\n# Two\n\nSecond text.").unwrap_err();
    assert_eq!(err, MarkdownError::HeaderBeforeText { line: 3 });
    assert_eq!(
        err.message(),
        "line 3 starts a new idea before the previous idea has text"
    );
}

#[test]
fn import_ending_with_separator_keeps_ideas() {
    let ideas = split_import_markdown("# One\nText\n---\n").unwrap();
    assert_eq!(ideas, vec!["# One\nText".to_string()]);
}

#[test]
fn import_ending_with_separator_checks_every_idea() {
    assert_eq!(
        split_import_markdown("# One\n\nText\n---\nfoo\n---").unwrap_err(),
        MarkdownError::MissingTitleHeader
    );
}

#[test]
fn single_idea_imports_as_itself() {
    let idea = "# Idea\n\nFirst paragraph.\n\nSecond paragraph.";
    assert_eq!(validate_markdown(idea).unwrap(), "Idea");
    assert_eq!(split_import_markdown(idea).unwrap(), vec![idea.to_string()]);
}

#[test]
fn accepts_section_headers_after_the_title() {
    let idea = "# Server\n\nThe server stores markdown files.\n\n## API\n\nThe API saves ideas into project folders.";
    assert_eq!(validate_markdown(idea).unwrap(), "Server");
    assert_eq!(validate_markdown("# T\n###### Deep\ntext").unwrap(), "T");
    assert_eq!(
        validate_markdown("# T\n####### Seven\ntext").unwrap_err(),
        MarkdownError::ExtraHeader { line: 2 }
    );
    assert_eq!(
        validate_markdown("# T\n#hashtag\ntext").unwrap_err(),
        MarkdownError::ExtraHeader { line: 2 }
    );
    assert_eq!(validate_markdown("# T\n## Only a header").unwrap_err(), MarkdownError::MissingBody);
}

#[test]
fn rejects_readme_counter_example() {
    let err = validate_markdown("## Missing top-level title\n\n- Lists are not paragraphs.").unwrap_err();
    assert_eq!(err, MarkdownError::MissingTitleHeader);
}

#[test]
fn ideas_written_one_after_another_import_back() {
    let first = "# One\n\nFirst text.\n\nMore first text.";
    let second = "# Two\nSecond text.";
    let doc = format!("{first}\n{second}");
    assert_eq!(
        split_import_markdown(&doc).unwrap(),
        vec![first.to_string(), second.to_string()]
    );
}

#[test]
fn bulk_export_imports_back() {
    let ideas = [
        "# Alpha\n\nFirst paragraph.\n\nSecond paragraph.",
        "# Beta\n\nOnly text.",
        "# Gamma\nText right under the title.",
    ];
    let entries: Vec<String> = ideas
        .iter()
        .enumerate()
        .map(|(k, idea)| {
            format!(
                "<!-- project: work | created_at: 2026-06-13T15:0{k}:00Z | id: id-{k} -->\n\n{idea}"
            )
        })
        .collect();
    let export = entries.join("\n\n---\n\n");
    let imported = split_import_markdown(&export).unwrap();
    assert_eq!(imported, ideas.iter().map(|s| s.to_string()).collect::<Vec<_>>());
}

#[test]
fn ideas_separated_by_blank_lines_or_dashes_import_back() {
    let ideas = vec![
        "# One\n\nFirst text.".to_string(),
        "# Two\nSecond text.\n\nMore.".to_string(),
        "# Three\n\nThird text.".to_string(),
    ];
    assert_eq!(split_import_markdown(&ideas.join("\n\n")).unwrap(), ideas);
    assert_eq!(split_import_markdown(&ideas.join("\n\n---\n\n")).unwrap(), ideas);
}
