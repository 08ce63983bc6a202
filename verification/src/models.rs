//! The quiz, its students and the answer tables found on scanned pages.

use vstd::prelude::*;

verus! {

/// A student who sits the quiz.
#[derive(Debug)]
pub struct Student {
    pub name: String,
    pub username: String,
}

/// A quiz: its heading data and its sections.
#[derive(Debug)]
pub struct Quiz {
    pub title: String,
    pub class: String,
    pub group: Option<String>,
    pub date: String,
    pub sections: Vec<Section>,
}

/// A section of a quiz: `section_type` is `"open"` or `"multiple_choice"`;
/// sections of any other type produce no questions.
#[derive(Debug)]
pub struct Section {
    pub title: String,
    pub section_type: String,
    pub description: String,
    pub questions: Vec<Question>,
}

/// A question with its points; open questions leave `lines` lines for the
/// answer (5 when not given), multiple-choice questions list their options.
#[derive(Clone, Debug)]
pub struct Question {
    pub question: String,
    pub points: u32,
    pub lines: Option<u32>,
    pub options: Option<Vec<QuestOption>>,
}

/// An option of a multiple-choice question.
#[derive(Clone, Debug)]
pub struct QuestOption {
    pub text: String,
    pub is_correct: bool,
}

/// Where a table was found on an aligned page.
#[derive(Clone, Copy, Debug)]
pub struct TableLocation {
    /// 0 for Results, 1 for Choices
    pub table_type: i32,
    pub x: u32,
    pub y: u32,
    pub width: u32,
    pub height: u32,
}

} // verus!
