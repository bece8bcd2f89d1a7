use dashboard::format::{fmt_markdown_list_item, markdown_body, markdown_list};
use dashboard::markdown::{get_pos, update_section, RegexMd};
use dashboard::path::{file_name_with_extension, replace_file_extension};
use dashboard::section::replace_section;
use dashboard::{
    App, AppError, CommentBlock, Config, GitRepo, GitRepoListItem, List, Marker, ParserError,
    RepositoryTopic, RunAction, RunEvent, RunState,
};

fn item(name: &str, url: &str, description: &str) -> GitRepoListItem {
    GitRepoListItem { name: name.to_string(), url: url.to_string(), description: description.to_string() }
}

fn repo(name: &str, url: &str, description: &str) -> GitRepo {
    GitRepo {
        created_at: "2023-01-01T00:00:00Z".to_string(),
        description: description.to_string(),
        disk_usage: 12,
        id: format!("id-{name}"),
        name: name.to_string(),
        pushed_at: "2023-01-02T00:00:00Z".to_string(),
        repository_topics: Some(vec![RepositoryTopic { name: "rust".to_string() }]),
        ssh_url: format!("git@x:{name}.git"),
        stargazer_count: 3,
        updated_at: "2023-01-03T00:00:00Z".to_string(),
        url: url.to_string(),
    }
}

#[test]
fn empty_description_has_no_dash() {
    assert_eq!(fmt_markdown_list_item(&item("name", "url", "")), "* [name](url)");
}

#[test]
fn short_description_is_shown_whole() {
    assert_eq!(fmt_markdown_list_item(&item("bar", "https://x/bar", "a short blurb")), "* [bar](https://x/bar) — a short blurb");
}

#[test]
fn description_of_sixty_bytes_is_not_cut() {
    let d = "d".repeat(60);
    assert_eq!(fmt_markdown_list_item(&item("n", "u", &d)), format!("* [n](u) — {d}"));
}

#[test]
fn description_of_sixty_one_bytes_is_cut_to_sixty() {
    let d = format!("{}e", "d".repeat(60));
    assert_eq!(fmt_markdown_list_item(&item("n", "u", &d)), format!("* [n](u) — {}...", "d".repeat(60)));
}

#[test]
fn cut_does_not_split_a_character() {
    // 59 ASCII bytes and then a two-byte character that straddles the sixtieth byte.
    let d = format!("{}éx", "d".repeat(59));
    assert_eq!(fmt_markdown_list_item(&item("n", "u", &d)), format!("* [n](u) — {}...", "d".repeat(59)));
}

#[test]
fn markdown_list_joins_items_in_order() {
    let items = vec![item("foo", "https://x/foo", ""), item("bar", "https://x/bar", "a short blurb")];
    assert_eq!(markdown_list(&items), "* [foo](https://x/foo)\n* [bar](https://x/bar) — a short blurb");
    assert_eq!(markdown_list(&Vec::new()), "");
}

#[test]
fn two_records_end_to_end() {
    let records = vec![repo("foo", "https://x/foo", ""), repo("bar", "https://x/bar", "a short blurb")];
    let body = markdown_body(&records);
    assert_eq!(body, "* [foo](https://x/foo)\n* [bar](https://x/bar) — a short blurb");
    let block = CommentBlock::new("tag_1".to_string());
    let file = "# Repos\n<!--START_SECTION:tag_1-->\n<!--END_SECTION:tag_1-->\n";
    let out = String::from_utf8(replace_section(file, &body, &block).unwrap()).unwrap();
    assert_eq!(
        out,
        "# Repos\n<!--START_SECTION:tag_1-->\n* [foo](https://x/foo)\n* [bar](https://x/bar) — a short blurb\n<!--END_SECTION:tag_1-->\n"
    );
}

#[test]
fn list_item_takes_name_url_and_description() {
    let r = repo("foo", "https://x/foo", "desc");
    assert_eq!(GitRepoListItem::new(&r), item("foo", "https://x/foo", "desc"));
}

#[test]
fn list_builders_set_each_field() {
    let l = List::new().with_name("n".to_string()).with_url("u".to_string()).with_description("d".to_string());
    assert_eq!(l.name.as_deref(), Some("n"));
    assert_eq!(l.url.as_deref(), Some("u"));
    assert_eq!(l.description.as_deref(), Some("d"));
    let empty = List::default();
    assert!(empty.name.is_none() && empty.url.is_none() && empty.description.is_none());
}

#[test]
fn run_dispatches_both_writes_after_fetch() {
    let mut app = App::new(Config::default());
    assert_eq!(app.state, RunState::Fetching);
    let records = vec![repo("foo", "https://x/foo", ""), repo("bar", "https://x/bar", "a short blurb")];
    match app.step(RunEvent::Fetched(records.clone())) {
        RunAction::Dispatch { markdown_body, section } => {
            assert_eq!(markdown_body, "* [foo](https://x/foo)\n* [bar](https://x/bar) — a short blurb");
            assert_eq!(section.section_name(), "tag_1");
        }
        other => panic!("unexpected action {other:?}"),
    }
    assert_eq!(app.state, RunState::Dispatching);
    assert_eq!(app.records().unwrap(), &records);
    assert_eq!(app.db.repo_list.as_ref().unwrap().len(), 2);
    let done = app.step(RunEvent::Joined(Ok(()), Ok(())));
    assert!(matches!(done, RunAction::Finish(Ok(()))));
    assert_eq!(app.state, RunState::Done);
}

#[test]
fn failed_json_write_fails_the_run_without_undoing_markdown() {
    let mut app = App::new(Config::default());
    app.step(RunEvent::Fetched(vec![repo("foo", "https://x/foo", "")]));
    let r = app.step(RunEvent::Joined(Ok(()), Err(AppError::Io("unwritable".to_string()))));
    assert!(matches!(r, RunAction::Finish(Err(AppError::Io(_)))));
    assert_eq!(app.state, RunState::Failed);
    assert!(app.db.data.is_some());
}

#[test]
fn markdown_error_is_reported_first() {
    let mut app = App::new(Config::default());
    app.step(RunEvent::Fetched(Vec::new()));
    let md = Err(AppError::ParserError(ParserError::MarkerNotFound(Marker::Start)));
    let r = app.step(RunEvent::Joined(md, Err(AppError::SerdeError("x".to_string()))));
    assert!(matches!(r, RunAction::Finish(Err(AppError::ParserError(_)))));
}

#[test]
fn failed_fetch_stops_before_writing() {
    let mut app = App::new(Config::default());
    let r = app.step(RunEvent::FetchFailed(AppError::XshellError("gh failed".to_string())));
    assert!(matches!(r, RunAction::Finish(Err(AppError::XshellError(_)))));
    assert_eq!(app.state, RunState::Failed);
    assert!(app.db.data.is_none());
    assert!(matches!(app.records(), Err(AppError::UnwrapError(_))));
}

#[test]
fn event_out_of_order_is_a_logic_bug() {
    let mut app = App::new(Config::default());
    let r = app.step(RunEvent::Joined(Ok(()), Ok(())));
    assert!(matches!(r, RunAction::Finish(Err(AppError::LogicBug(_)))));
}

#[test]
fn find_in_text_reports_marker_lines() {
    let text = "a\n<!--START_SECTION:dashboard-->\nb\n<!--END_SECTION:dashboard-->\n<!--START_SECTION:dashboard-->";
    assert_eq!(RegexMd::find_in_text(text, "dashboard"), (Some(1), Some(3)));
    assert_eq!(RegexMd::find_in_text("x\n<!--END_SECTION:t-->\n<!--START_SECTION:t-->", "t"), (None, Some(1)));
    assert_eq!(RegexMd::find_in_text("plain", "t"), (None, None));
}

#[test]
fn get_pos_finds_first_line() {
    assert_eq!(get_pos("a\nbXc\nX", "X").unwrap(), 1);
    assert!(matches!(get_pos("a\nb", "X"), Err(ParserError::MarkerNotFound(Marker::Start))));
}

#[test]
fn update_section_rewrites_between_markers() {
    let text = "top\n<!--START_SECTION:dashboard-->\nold\n<!--END_SECTION:dashboard-->\nbottom";
    let out = update_section(text, "dashboard", "This is some new content.").unwrap();
    assert_eq!(
        String::from_utf8(out).unwrap(),
        "top\n<!--START_SECTION:dashboard-->\nThis is some new content.\n<!--END_SECTION:dashboard-->\nbottom\n"
    );
}

#[test]
fn update_section_inserts_the_content_lines() {
    let text = "<!--START_SECTION:d-->\nold\n<!--END_SECTION:d-->\n";
    let two = update_section(text, "d", "a\nb\n").unwrap();
    assert_eq!(String::from_utf8(two).unwrap(), "<!--START_SECTION:d-->\na\nb\n<!--END_SECTION:d-->\n");
    let none = update_section(text, "d", "").unwrap();
    assert_eq!(String::from_utf8(none).unwrap(), "<!--START_SECTION:d-->\n<!--END_SECTION:d-->\n");
}

#[test]
fn update_section_reports_missing_markers() {
    assert!(matches!(update_section("", "dashboard", "x"), Err(ParserError::MarkerNotFound(Marker::Start))));
    assert!(matches!(
        update_section("a\n<!--END_SECTION:d-->", "d", "x"),
        Err(ParserError::MarkerNotFound(Marker::Start))
    ));
    assert!(matches!(
        update_section("<!--START_SECTION:d-->\nrest", "d", "x"),
        Err(ParserError::MarkerNotFound(Marker::End))
    ));
}

#[test]
fn file_extension_is_replaced() {
    assert_eq!(replace_file_extension("docs/README.md", "json").as_deref(), Some("README.json"));
    assert_eq!(replace_file_extension("notes", "md").as_deref(), Some("notes.md"));
    assert_eq!(replace_file_extension("", "json"), None);
    assert_eq!(file_name_with_extension("a", "b"), "a.b");
}

#[test]
fn default_config() {
    let c = Config::default();
    assert_eq!(c.markdown_path, "README.md");
    assert_eq!(c.json_path, "gh_repo_list.json");
    assert_eq!(c.section_tag, "tag_1");
}
