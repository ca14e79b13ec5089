//! The settings page.
use vstd::prelude::*;

verus! {

pub struct SettingsPage;

#[derive(Clone, Debug)]
pub enum Message {
    Back,
}

} // verus!
