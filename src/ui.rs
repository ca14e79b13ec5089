//! The front-end's state: which page shows, and how messages move between
//! pages.
use vstd::prelude::*;
use crate::pages::home::{self, HomePage};
use crate::pages::results::{self, ResultsPage};
use crate::pages::settings::{self, SettingsPage};
use crate::subtitles::{chars_of, push_all, string_of};

verus! {

#[derive(Clone, Copy, Debug, PartialEq, Eq, Structural)]
pub enum Page {
    Home,
    Settings,
    SearchResults,
}

#[derive(Clone, Debug)]
pub enum AppMessage {
    HomeMessage(home::Message),
    SettingsMessage(settings::Message),
    ResultsMessage(results::Message),
}

pub struct App {
    pub current_page: Page,
    pub home_page: HomePage,
    pub settings_page: SettingsPage,
    pub results_page: ResultsPage,
    pub indexed_files: usize,
    pub indexed_size: String,
}

/// The window title for a page; the results page names its query.
pub open spec fn title_of(page: Page, query: Seq<char>) -> Seq<char> {
    match page {
        Page::Home => "Engram - Home"@,
        Page::Settings => "Engram - Settings"@,
        Page::SearchResults => "Engram - Results for \""@ + query + "\""@,
    }
}

impl App {
    pub fn new() -> (r: App)
        ensures
            r.current_page == Page::Home,
            r.home_page.search_query@ == Seq::<char>::empty(),
            r.results_page.query@ == Seq::<char>::empty(),
    {
        App {
            current_page: Page::Home,
            home_page: HomePage::new(),
            settings_page: SettingsPage,
            results_page: ResultsPage::new(),
            indexed_files: 152,
            indexed_size: "251GB".to_owned(),
        }
    }

    pub fn title(&self) -> (r: String)
        ensures
            r@ == title_of(self.current_page, self.results_page.query@),
    {
        match self.current_page {
            Page::Home => "Engram - Home".to_owned(),
            Page::Settings => "Engram - Settings".to_owned(),
            Page::SearchResults => {
                let head = "Engram - Results for \"".to_owned();
                let mut out = chars_of(head.as_str());
                let q = chars_of(self.results_page.query.as_str());
                push_all(&mut out, q.as_slice());
                let tail = "\"".to_owned();
                let t = chars_of(tail.as_str());
                push_all(&mut out, t.as_slice());
                string_of(&out)
            },
        }
    }

    /// Moves between pages. Submitting a search shows its results; the
    /// back buttons return home; edits go to the home page's search box.
    pub fn update(&mut self, message: AppMessage)
        ensures
            final(self).indexed_files == old(self).indexed_files,
            final(self).indexed_size == old(self).indexed_size,
            match message {
                AppMessage::HomeMessage(home::Message::NavigateToSettings) => {
                    &&& final(self).current_page == Page::Settings
                    &&& final(self).home_page == old(self).home_page
                    &&& final(self).results_page == old(self).results_page
                },
                AppMessage::HomeMessage(home::Message::SearchSubmit) => {
                    &&& final(self).current_page == Page::SearchResults
                    &&& final(self).results_page.query == old(self).home_page.search_query
                    &&& final(self).home_page == old(self).home_page
                },
                AppMessage::HomeMessage(home::Message::SearchChanged(q)) => {
                    &&& final(self).current_page == old(self).current_page
                    &&& final(self).home_page.search_query == q
                    &&& final(self).results_page == old(self).results_page
                },
                AppMessage::HomeMessage(_) => {
                    &&& final(self).current_page == old(self).current_page
                    &&& final(self).home_page == old(self).home_page
                    &&& final(self).results_page == old(self).results_page
                },
                _ => {
                    &&& final(self).current_page == Page::Home
                    &&& final(self).home_page == old(self).home_page
                    &&& final(self).results_page == old(self).results_page
                },
            },
    {
        match message {
            AppMessage::HomeMessage(msg) => match msg {
                home::Message::NavigateToSettings => {
                    self.current_page = Page::Settings;
                },
                home::Message::TriggerReIndex => {},
                home::Message::SearchSubmit => {
                    let query = self.home_page.search_query.clone();
                    self.current_page = Page::SearchResults;
                    self.results_page.query = query;
                },
                home::Message::SearchChanged(q) => {
                    self.home_page.update(home::Message::SearchChanged(q));
                },
                home::Message::OpenOptions => {},
            },
            AppMessage::SettingsMessage(_) => {
                self.current_page = Page::Home;
            },
            AppMessage::ResultsMessage(_) => {
                self.current_page = Page::Home;
            },
        }
    }
}

impl Default for App {
    fn default() -> (r: App)
        ensures
            r.current_page == Page::Home,
            r.home_page.search_query@ == Seq::<char>::empty(),
            r.results_page.query@ == Seq::<char>::empty(),
    {
        App::new()
    }
}

} // verus!
