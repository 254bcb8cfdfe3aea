//! Warnings (not errors) to be shown to the user.

use vstd::prelude::*;

verus! {

/// Struct for storing and setting warnings (not errors) to be shown to the user.
/// priority is on a scale 0-5, with 0 being the highest priority; a fresh
/// warning has priority 6 and no text.
#[derive(Clone)]
pub struct Warning {
    pub text: Option<String>,
    pub priority: i32,
}

/// The text of an optional warning, as characters.
pub open spec fn text_view(text: Option<String>) -> Option<Seq<char>> {
    match text {
        Some(t) => Some(t@),
        None => None,
    }
}

impl Warning {
    pub fn new() -> (w: Self)
        ensures
            w.text is None,
            w.priority == 6,
    {
        Warning { text: None, priority: 6 }
    }

    /// Set a new warning, but only if the warning to be set has higher priority than the current
    pub fn set(&mut self, text: Option<String>, priority: i32)
        ensures
            priority < old(self).priority ==> text_view(final(self).text) == text_view(text)
                && final(self).priority == priority,
            priority >= old(self).priority ==> text_view(final(self).text) == text_view(
                old(self).text,
            ) && final(self).priority == old(self).priority,
            final(self).priority <= old(self).priority,
    {
        if priority < self.priority {
            self.text = text;
            self.priority = priority;
        }
    }

    /// Whether a warning is set.
    pub fn is(&self) -> (r: bool)
        ensures
            r == self.text is Some,
    {
        self.text.is_some()
    }

    /// The warning text, or the empty string when there is none.
    pub fn banner(&self) -> (r: String)
        ensures
            r@ == match self.text {
                Some(t) => t@,
                None => Seq::<char>::empty(),
            },
    {
        match &self.text {
            Some(warning_text) => warning_text.clone(),
            None => String::new(),
        }
    }
}

impl Default for Warning {
    fn default() -> (w: Self)
        ensures
            w.text is None,
            w.priority == 6,
    {
        Self::new()
    }
}

} // verus!
