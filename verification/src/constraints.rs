//! The constraints that a writer places on one section.

use crate::section_list::{is_section_list, listed_numbers, parse_section_list};
use vstd::prelude::*;
use vstd::string::*;

verus! {

/// The constraints placed on one section of a manuscript. A reordering of the
/// sections has to honour the constraints of each of them.
#[derive(Clone, Debug)]
pub struct Constraints {
    /// Whether the section is locked in place. It is honoured for the first and
    /// for the last section only.
    pub fixed: bool,
    /// The sections that must come strictly after this one, by their one-based
    /// numbers.
    pub before: Vec<usize>,
    /// The text from which `before` was read, kept as it was typed.
    pub text_buffer: String,
    /// Whether `text_buffer` is a well-formed list of section numbers.
    pub text_buffer_is_valid: bool,
    /// The message to present where the constraints lead to a paradox, which
    /// is a cycle of sections each of which must come before the next.
    pub paradox_error: Option<String>,
}

/// What the order of the sections depends on: the part of the constraints of
/// one section that the precedence graph is built from.
pub struct Rule {
    pub fixed: bool,
    pub before: Seq<usize>,
}

/// A message, or that there is none, as plain characters.
pub open spec fn message_view(message: Option<String>) -> Option<Seq<char>> {
    match message {
        Some(text) => Some(text@),
        None => None,
    }
}

impl Constraints {
    /// The rule that these constraints state.
    pub open spec fn rule(&self) -> Rule {
        Rule { fixed: self.fixed, before: self.before@ }
    }

    /// Whether these are the constraints of a section of which nothing has
    /// been said yet: it is not fixed, need not come before any other, and
    /// its text is empty, which is well-formed.
    pub open spec fn is_unconstrained(&self) -> bool {
        &&& !self.fixed
        &&& self.before@.len() == 0
        &&& self.text_buffer@.len() == 0
        &&& self.text_buffer_is_valid
        &&& self.paradox_error is None
    }

    /// Takes `text` as the list of the sections that must come after this one.
    /// A well-formed list replaces the sections named so far; any other text
    /// is kept as typed, marked as invalid, and names no section.
    pub fn edit_before(&mut self, text: &str)
        ensures
            final(self).text_buffer@ == text@,
            final(self).text_buffer_is_valid == is_section_list(text@),
            final(self).before@ == if is_section_list(text@) {
                listed_numbers(text@)
            } else {
                Seq::<usize>::empty()
            },
            final(self).fixed == old(self).fixed,
            final(self).paradox_error == old(self).paradox_error,
    {
        self.text_buffer = String::from_str(text);
        match parse_section_list(text) {
            Some(listed) => {
                self.text_buffer_is_valid = true;
                self.before = listed;
            },
            None => {
                self.text_buffer_is_valid = false;
                self.before = Vec::new();
            },
        }
    }
}

impl Default for Constraints {
    fn default() -> (constraints: Self)
        ensures
            constraints.is_unconstrained(),
    {
        Constraints {
            fixed: false,
            before: Vec::new(),
            text_buffer: String::new(),
            text_buffer_is_valid: true,
            paradox_error: None,
        }
    }
}

/// The rules of a list of constraints, one for each section.
pub open spec fn rules_of(constraints: Seq<Constraints>) -> Seq<Rule> {
    constraints.map_values(|c: Constraints| c.rule())
}

} // verus!
