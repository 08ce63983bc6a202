//! The plain records of the student list and of question options.

use vstd::prelude::*;

verus! {

/// A student as listed in the students file.
#[derive(Debug)]
pub struct Student {
    pub name: String,
    pub username: String,
}

/// An option of a question, as written in a quiz file.
#[derive(Debug)]
pub struct OptionDef {
    pub text: String,
    pub is_correct: bool,
}

} // verus!
