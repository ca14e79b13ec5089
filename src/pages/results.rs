//! The results page: the query whose hits it shows.
use vstd::prelude::*;

verus! {

pub struct ResultsPage {
    pub query: String,
}

#[derive(Clone, Debug)]
pub enum Message {
    Back,
}

impl ResultsPage {
    pub fn new() -> (r: ResultsPage)
        ensures
            r.query@ == Seq::<char>::empty(),
    {
        ResultsPage { query: String::new() }
    }
}

} // verus!
