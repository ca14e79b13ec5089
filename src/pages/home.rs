//! The home page: the search box.
use vstd::prelude::*;

verus! {

pub struct HomePage {
    pub search_query: String,
}

#[derive(Clone, Debug)]
pub enum Message {
    SearchChanged(String),
    SearchSubmit,
    OpenOptions,
    NavigateToSettings,
    TriggerReIndex,
}

impl HomePage {
    pub fn new() -> (r: HomePage)
        ensures
            r.search_query@ == Seq::<char>::empty(),
    {
        HomePage { search_query: String::new() }
    }

    /// Edits to the search box replace the query; the page leaves every
    /// other message to the application.
    pub fn update(&mut self, message: Message)
        ensures
            match message {
                Message::SearchChanged(q) => final(self).search_query == q,
                _ => final(self).search_query == old(self).search_query,
            },
    {
        match message {
            Message::SearchChanged(query) => {
                self.search_query = query;
            },
            _ => {},
        }
    }
}

} // verus!
