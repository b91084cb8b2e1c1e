use brain::search::{
    filter_sort_ideas, find_idea_by_id, is_selected_id, keywords, related_ideas,
};
use brain::stored::{Idea, Timestamp};

fn idea(id: &str, title: &str, markdown: &str, secs: i64) -> Idea {
    Idea {
        id: id.to_string(),
        project: "proj".to_string(),
        title: title.to_string(),
        markdown: markdown.to_string(),
        created_at: Timestamp { secs, nanos: 0 },
    }
}

#[test]
fn keywords_of_spoken_text() {
    let words = keywords("This is about the Server, and the server's API with caching!");
    assert_eq!(words, vec!["server", "server", "caching"]);
}

#[test]
fn keywords_are_capped() {
    let text = (0..30).map(|i| format!("word{i}")).collect::<Vec<_>>().join(" ");
    let words = keywords(&text);
    assert_eq!(words.len(), 24);
    assert_eq!(words[0], "word0");
    assert_eq!(words[23], "word23");
}

#[test]
fn filter_and_sort_ideas() {
    let ideas = vec![
        idea("1", "Beta", "# Beta\nx", 10),
        idea("2", "Alpha", "# Alpha\nx", 10),
        idea("3", "Gamma", "# Gamma\nserver", 20),
        idea("4", "Alpha", "# Alpha\nother", 10),
    ];
    let all = filter_sort_ideas(ideas, None);
    let ids: Vec<&str> = all.iter().map(|i| i.id.as_str()).collect();
    assert_eq!(ids, vec!["3", "2", "4", "1"]);
    let ideas = vec![
        idea("1", "Beta", "# Beta\nSERVER", 10),
        idea("2", "Alpha", "# Alpha\nx", 10),
        idea("3", "Gamma", "# Gamma\nserver", 20),
    ];
    let found = filter_sort_ideas(ideas, Some("  Server "));
    let ids: Vec<&str> = found.iter().map(|i| i.id.as_str()).collect();
    assert_eq!(ids, vec!["3", "1"]);
}

#[test]
fn blank_query_keeps_all() {
    let ideas = vec![idea("1", "A", "# A\nx", 1), idea("2", "B", "# B\nx", 2)];
    assert_eq!(filter_sort_ideas(ideas, Some("   ")).len(), 2);
}

#[test]
fn related_ideas_ranked() {
    let ideas = vec![
        idea("1", "Server", "# Server\nstores ideas", 10),
        idea("2", "Other", "# Other\nnothing here", 30),
        idea("3", "Server cache", "# Server cache\nserver stores cache", 5),
        idea("4", "Cache", "# Cache\ncache", 40),
    ];
    let words = keywords("server stores cache");
    let related = related_ideas(&words, &ideas);
    let ids: Vec<&str> = related.iter().map(|i| i.id.as_str()).collect();
    assert_eq!(ids, vec!["3", "1", "4"]);
}

#[test]
fn related_ideas_at_most_eight() {
    let ideas: Vec<Idea> = (0..12).map(|i| idea(&i.to_string(), "Server", "# Server\nx", i)).collect();
    let words = keywords("server");
    let related = related_ideas(&words, &ideas);
    assert_eq!(related.len(), 8);
    assert_eq!(related[0].id, "11");
}

#[test]
fn finds_ideas_by_id() {
    let ideas = vec![idea("a", "A", "", 1), idea("b", "B", "", 2), idea("b", "C", "", 3)];
    assert_eq!(find_idea_by_id(&ideas, "b"), Some(1));
    assert_eq!(find_idea_by_id(&ideas, "z"), None);
    let ids = vec!["x".to_string(), "b".to_string()];
    assert!(is_selected_id(&ids, "b"));
    assert!(!is_selected_id(&ids, "a"));
}
