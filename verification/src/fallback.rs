//! What a localization hands back for a message.
use vstd::prelude::*;

verus! {

/// An attribute of a formatted message.
#[derive(Debug)]
pub struct L10nAttribute {
    pub name: String,
    pub value: String,
}

/// A formatted message: its value, where it has one, and its attributes.
#[derive(Debug)]
pub struct L10nMessage {
    pub value: Option<String>,
    pub attributes: Vec<L10nAttribute>,
}

/// A source of bundles that can load them ahead of time.
pub trait BundleIterator {
    /// Loads what the bundles need before they are asked for; by default, nothing.
    fn prefetch_sync(&mut self) {
    }
}

} // verus!
