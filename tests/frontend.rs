use engram::pages::home;
use engram::pages::results;
use engram::transcribe::TranscriberModel;
use engram::ui::{App, AppMessage, Page};
use engram::UserConfig;

#[test]
fn navigation_and_titles() {
    let mut app = App::new();
    assert!(app.current_page == Page::Home);
    assert_eq!(app.title(), "Engram - Home");
    app.update(AppMessage::HomeMessage(home::Message::SearchChanged("hello".to_string())));
    assert_eq!(app.home_page.search_query, "hello");
    app.update(AppMessage::HomeMessage(home::Message::SearchSubmit));
    assert!(app.current_page == Page::SearchResults);
    assert_eq!(app.title(), "Engram - Results for \"hello\"");
    app.update(AppMessage::ResultsMessage(results::Message::Back));
    assert!(app.current_page == Page::Home);
    app.update(AppMessage::HomeMessage(home::Message::NavigateToSettings));
    assert_eq!(app.title(), "Engram - Settings");
}

#[test]
fn config_defaults_to_base_model() {
    let c = UserConfig::new(None, None);
    assert_eq!(c.whisper_model.as_deref(), Some("base"));
    let c = UserConfig::new(Some("/usr/bin/ffmpeg".to_string()), Some("large".to_string()));
    assert_eq!(c.whisper_model.as_deref(), Some("large"));
    assert_eq!(c.ffmpeg_bin.as_deref(), Some("/usr/bin/ffmpeg"));
}

#[test]
fn models_have_stable_ids_and_files() {
    let m = TranscriberModel::from_name("base").unwrap();
    assert_eq!(m.ordinal(), 1);
    assert_eq!(m.model_id(), "1");
    assert_eq!(m.file_name(), "1.bin");
    assert_eq!(TranscriberModel::Large.file_name(), "4.bin");
    assert!(TranscriberModel::Tiny.url().contains("ggml-tiny-q5_1.bin"));
    assert!(TranscriberModel::from_name("huge").is_none());
}
