use brain::stored::{
    is_idea_file_name, one_line, parse_stored_idea, prepare_markdown_idea, read_idea_file, slugify,
    stored_idea_is_valid, stored_idea_text, IdeaFileError, SaveIdeaError, StoredIdeaError,
    TimeParseError, Timestamp,
};
use brain::markdown::MarkdownError;
use brain::admin::has_selection;
use brain::search::{filter_sort_ideas, is_selected_id};

#[test]
fn slugifies_titles() {
    assert_eq!(slugify("My Project: API"), "my-project-api");
}

#[test]
fn slug_edge_cases() {
    assert_eq!(slugify("  !!  "), "idea");
    assert_eq!(slugify("--Hello--World--"), "hello-world");
    assert_eq!(slugify("Crème brûlée"), "cr-me-br-l-e");
}

#[test]
fn one_line_titles() {
    assert_eq!(one_line("a:b\nc"), "a -b c");
}

#[test]
fn stored_idea_round_trip() {
    let text = stored_idea_text(
        "id-1",
        "Time: now",
        "2026-06-13T15:43:25.478228Z",
        "  # Time: now\n\nBody text.\n",
    );
    assert_eq!(
        text,
        "---\nid: id-1\ntitle: Time - now\ncreated_at: 2026-06-13T15:43:25.478228Z\n---\n\n# Time: now\n\nBody text."
    );
    let idea = parse_stored_idea("proj", &text).unwrap();
    assert_eq!(idea.id, "id-1");
    assert_eq!(idea.project, "proj");
    assert_eq!(idea.title, "Time - now");
    assert_eq!(idea.markdown, "# Time: now\n\nBody text.");
    assert_eq!(idea.created_at.nanos, 478228000);
    assert_eq!(idea.created_at.secs, 1781365405);
}

#[test]
fn stored_idea_errors() {
    assert_eq!(parse_stored_idea("p", "id: x").unwrap_err(), StoredIdeaError::MissingMetadata);
    assert_eq!(
        parse_stored_idea("p", "---\nid: x\n").unwrap_err(),
        StoredIdeaError::IncompleteMetadata
    );
    assert_eq!(
        parse_stored_idea("p", "---\ntitle: t\ncreated_at: 2026-06-13T15:00:00Z\n---\n\n# t\nx")
            .unwrap_err(),
        StoredIdeaError::MissingId
    );
    assert_eq!(
        parse_stored_idea("p", "---\nid: 1\ncreated_at: 2026-06-13T15:00:00Z\n---\n\n# t\nx")
            .unwrap_err(),
        StoredIdeaError::MissingTitle
    );
    assert_eq!(
        parse_stored_idea("p", "---\nid: 1\ntitle: t\n---\n\n# t\nx").unwrap_err(),
        StoredIdeaError::MissingCreatedAt
    );
    assert_eq!(
        parse_stored_idea("p", "---\ncreated_at: soon\n---\n\nx").unwrap_err(),
        StoredIdeaError::InvalidCreatedAt(TimeParseError::Invalid)
    );
    assert_eq!(
        StoredIdeaError::InvalidCreatedAt(TimeParseError::Invalid).message(),
        "input contains invalid characters"
    );
    assert_eq!(
        parse_stored_idea("p", "---
created_at: 2026-06-13
---

x").unwrap_err(),
        StoredIdeaError::InvalidCreatedAt(TimeParseError::TooShort)
    );
    assert_eq!(StoredIdeaError::MissingId.message(), "idea is missing id");
}

#[test]
fn prepared_idea_reads_back() {
    let t = Timestamp { secs: 1781363005, nanos: 0 };
    let prepared = prepare_markdown_idea("project", "# One\n\nFirst text.\n", "abc", t).unwrap();
    assert_eq!(prepared.file_name, "one-abc.md");
    assert_eq!(
        prepared.stored,
        "---\nid: abc\ntitle: One\ncreated_at: 2026-06-13T15:03:25+00:00\n---\n\n# One\n\nFirst text."
    );
    assert_eq!(prepared.idea.markdown, "# One\n\nFirst text.");
    let back = read_idea_file("project", &prepared.stored).unwrap();
    assert_eq!(back.id, "abc");
    assert_eq!(back.title, "One");
    assert_eq!(back.created_at, t);
    assert!(stored_idea_is_valid("project", &prepared.stored));
}

#[test]
fn prepare_refuses_invalid_markdown() {
    let t = Timestamp { secs: 0, nanos: 0 };
    assert_eq!(
        prepare_markdown_idea("p", "no title", "x", t).err().unwrap(),
        SaveIdeaError::Markdown(MarkdownError::MissingTitleHeader)
    );
    let far = Timestamp { secs: i64::MAX, nanos: 0 };
    assert_eq!(
        prepare_markdown_idea("p", "# T\nx", "x", far).err().unwrap(),
        SaveIdeaError::TimestampOutOfRange
    );
}

#[test]
fn stored_idea_with_invalid_markdown_is_not_listed() {
    let text = "---\nid: 1\ntitle: t\ncreated_at: 2026-06-13T15:00:00Z\n---\n\n- list";
    assert_eq!(
        read_idea_file("p", text).err().unwrap(),
        IdeaFileError::Markdown(MarkdownError::MissingTitleHeader)
    );
    assert!(!stored_idea_is_valid("p", text));
}

#[test]
fn idea_files_have_the_md_extension() {
    assert!(is_idea_file_name("my-idea-1234.md"));
    assert!(is_idea_file_name("a.md"));
    assert!(is_idea_file_name("..md"));
    assert!(!is_idea_file_name(".md"));
    assert!(!is_idea_file_name("md"));
    assert!(!is_idea_file_name("notes.txt"));
    assert!(!is_idea_file_name("idea.md.bak"));
    assert!(!is_idea_file_name("idea.MD"));
    assert!(!is_idea_file_name(""));
}

#[test]
fn deletes_selected_ideas_by_id() {
    let t = Timestamp { secs: 1781363005, nanos: 0 };
    let first = prepare_markdown_idea("project", "# One\n\nFirst text.", "first-id", t).unwrap();
    let second = prepare_markdown_idea("project", "# Two\n\nSecond text.", "second-id", t).unwrap();
    let files = vec![first.stored.clone(), second.stored.clone()];

    let selected = vec![first.idea.id.clone()];
    assert!(has_selection(&selected));
    let mut deleted = 0;
    let mut remaining = Vec::new();
    for content in &files {
        let idea = parse_stored_idea("project", content).unwrap();
        if is_selected_id(&selected, &idea.id) {
            deleted += 1;
        } else {
            remaining.push(read_idea_file("project", content).unwrap());
        }
    }

    assert_eq!(deleted, 1);
    let remaining = filter_sort_ideas(remaining, None);
    assert_eq!(remaining.len(), 1);
    assert_eq!(remaining[0].id, second.idea.id);
}

#[test]
fn saved_times_read_back_exactly() {
    for t in [
        Timestamp { secs: 1781363005, nanos: 123_000_000 },
        Timestamp { secs: 1781363005, nanos: 123_456_789 },
        Timestamp { secs: -62167219200, nanos: 0 },
        Timestamp { secs: 253402300799, nanos: 999_999_999 },
    ] {
        let prepared = prepare_markdown_idea("p", "# T\n\nText.", "id-1", t).unwrap();
        let back = read_idea_file("p", &prepared.stored).unwrap();
        assert_eq!(back.created_at, t);
        assert_eq!(back.id, "id-1");
        assert_eq!(back.markdown, "# T\n\nText.");
    }
}

#[test]
fn slugs_are_lower_case() {
    assert_eq!(slugify("ÀB Çd -- EF"), "b-d-ef");
    assert_eq!(slugify("--"), "idea");
    assert_eq!(slugify("KELVIN \u{212A}"), "kelvin-k");
}
