//! The Typst markup of a student's quiz and its answer key.

use vstd::prelude::*;
use crate::models::{Quiz, Section, Student, Question, QuestOption};
use crate::text::{decimal, push_char, push_decimal, push_text, option_letter, letter_fits, letter_for};
use crate::sorting::indices;
use rand::rngs::ThreadRng;
use rand::seq::SliceRandom;
use std::collections::HashMap;

verus! {

/// The items joined by the separator.
pub open spec fn join(items: Seq<Seq<char>>, sep: Seq<char>) -> Seq<char>
    decreases items.len(),
{
    if items.len() == 0 {
        Seq::empty()
    } else if items.len() == 1 {
        items[0]
    } else {
        join(items.drop_last(), sep) + sep + items.last()
    }
}

/// Joining one more item appends the separator and the item.
pub proof fn lemma_join_step(items: Seq<Seq<char>>, sep: Seq<char>, i: int)
    requires
        0 <= i < items.len(),
    ensures
        join(items.take(i + 1), sep) == if i == 0 { items[0] } else { join(items.take(i), sep) + sep + items[i] },
{
    assert(items.take(i + 1).drop_last() =~= items.take(i));
    if i == 0 {
        assert(items.take(1) =~= seq![items[0]]);
    }
}

/// The total points of a list of questions.
pub open spec fn question_points(qs: Seq<Question>) -> int
    decreases qs.len(),
{
    if qs.len() == 0 { 0 } else { question_points(qs.drop_last()) + qs.last().points }
}

/// The total points of a section.
pub open spec fn section_points(s: Section) -> int {
    question_points(s.questions@)
}

/// The total points of a list of sections.
pub open spec fn sections_points(ss: Seq<Section>) -> int
    decreases ss.len(),
{
    if ss.len() == 0 { 0 } else { sections_points(ss.drop_last()) + section_points(ss.last()) }
}

/// The total points of the quiz.
pub open spec fn quiz_points(quiz: &Quiz) -> int {
    sections_points(quiz.sections@)
}

proof fn lemma_question_points_prefix(qs: Seq<Question>, k: int)
    requires
        0 <= k <= qs.len(),
    ensures
        0 <= question_points(qs.take(k)) <= question_points(qs),
    decreases qs.len(),
{
    if k == qs.len() {
        assert(qs.take(k) =~= qs);
        lemma_question_points_nonneg(qs);
    } else {
        lemma_question_points_prefix(qs.drop_last(), k);
        assert(qs.drop_last().take(k) =~= qs.take(k));
    }
}

proof fn lemma_question_points_nonneg(qs: Seq<Question>)
    ensures
        question_points(qs) >= 0,
    decreases qs.len(),
{
    if qs.len() > 0 {
        lemma_question_points_nonneg(qs.drop_last());
    }
}

proof fn lemma_sections_points_prefix(ss: Seq<Section>, k: int)
    requires
        0 <= k <= ss.len(),
    ensures
        0 <= sections_points(ss.take(k)) <= sections_points(ss),
        forall|i: int| 0 <= i < k ==> section_points(#[trigger] ss[i]) <= sections_points(ss),
    decreases ss.len(),
{
    if k == ss.len() {
        assert(ss.take(k) =~= ss);
        lemma_sections_points_nonneg(ss);
        if ss.len() > 0 {
            lemma_sections_points_prefix(ss.drop_last(), ss.len() - 1);
            lemma_question_points_nonneg(ss.last().questions@);
            assert forall|i: int| 0 <= i < k implies section_points(#[trigger] ss[i]) <= sections_points(ss) by {
                if i < k - 1 {
                    assert(ss[i] == ss.drop_last()[i]);
                }
            }
        }
    } else {
        lemma_sections_points_prefix(ss.drop_last(), k);
        assert(ss.drop_last().take(k) =~= ss.take(k));
        lemma_question_points_nonneg(ss.last().questions@);
        assert forall|i: int| 0 <= i < k implies section_points(#[trigger] ss[i]) <= sections_points(ss) by {
            assert(ss[i] == ss.drop_last()[i]);
        }
    }
}

proof fn lemma_sections_points_nonneg(ss: Seq<Section>)
    ensures
        sections_points(ss) >= 0,
    decreases ss.len(),
{
    if ss.len() > 0 {
        lemma_sections_points_nonneg(ss.drop_last());
        lemma_question_points_nonneg(ss.last().questions@);
    }
}

/// A bold table entry showing `n`.
pub open spec fn bold(n: nat) -> Seq<char> {
    "text(weight: \"bold\")["@ + decimal(n) + "]"@
}

/// `n` copies of an item joined by commas.
pub open spec fn repeat_join(item: Seq<char>, n: nat) -> Seq<char> {
    join(Seq::new(n, |i: int| item), ", "@)
}

/// The header row of the points table: the section numbers and a sum sign.
pub open spec fn header_cells(n: nat) -> Seq<Seq<char>> {
    Seq::new(n, |i: int| bold((i + 1) as nat)).push("$Sigma$"@)
}

/// The points row: the points of each section and the total.
pub open spec fn points_cells(quiz: &Quiz) -> Seq<Seq<char>> {
    Seq::new(quiz.sections@.len(), |i: int| bold(section_points(quiz.sections@[i]) as nat)).push(bold(quiz_points(quiz) as nat))
}

/// The Typst table of points per section, with an empty row for the marks.
pub open spec fn points_table(quiz: &Quiz) -> Seq<char> {
    let n = quiz.sections@.len();
    "#table(\n"@ + "\tcolumns: ("@ + repeat_join("5em"@, n + 1) + "),\n"@ + "\talign: center,\n"@ + "\tinset: 8pt,\n"@
        + "\t"@ + join(header_cells(n), ", "@) + ",\n"@
        + "\t"@ + join(points_cells(quiz), ", "@) + ",\n"@
        + "\t"@ + repeat_join("v(1.5em)"@, n + 1) + ",\n)\n"@
}

/// The points table framed by the markers that the marker finds again on the scan.
pub open spec fn points_summary(quiz: &Quiz, start_marker_id: Option<u32>) -> Seq<char> {
    let start = match start_marker_id { Some(id) => id as nat, None => 0nat };
    "#add_markers_around_table(start_id: "@ + decimal(start) + ")[\n"@ + points_table(quiz) + "\n]\n"@
}

/// Appends a bold table entry showing `n`.
fn push_bold(s: &mut String, n: u64)
    ensures
        final(s)@ == old(s)@ + bold(n as nat),
{
    push_text(s, "text(weight: \"bold\")[");
    push_decimal(s, n);
    push_text(s, "]");
    proof {
        assert(final(s)@ =~= old(s)@ + bold(n as nat));
    }
}

/// Appends `n` copies of an item joined by commas.
fn push_repeat_join(s: &mut String, item: &str, n: usize)
    ensures
        final(s)@ == old(s)@ + repeat_join(item@, n as nat),
{
    let ghost items = Seq::new(n as nat, |i: int| item@);
    let ghost base = s@;
    let mut i: usize = 0;
    while i < n
        invariant
            0 <= i <= n,
            items == Seq::new(n as nat, |i: int| item@),
            s@ == base + join(items.take(i as int), ", "@),
        decreases n - i,
    {
        proof {
            lemma_join_step(items, ", "@, i as int);
        }
        if i > 0 {
            push_text(s, ", ");
        }
        push_text(s, item);
        proof {
            if i == 0 {
                assert(items.take(0) =~= Seq::<Seq<char>>::empty());
                assert(s@ =~= base + join(items.take(1), ", "@));
            } else {
                assert(s@ =~= base + join(items.take(i + 1), ", "@));
            }
        }
        i = i + 1;
    }
    assert(items.take(n as int) =~= items);
}

/// The points of each section, and their total.
fn section_point_totals(quiz: &Quiz) -> (r: (Vec<u32>, u32))
    requires
        quiz_points(quiz) <= u32::MAX,
    ensures
        r.0@.len() == quiz.sections@.len(),
        forall|i: int| 0 <= i < r.0@.len() ==> #[trigger] r.0@[i] == section_points(quiz.sections@[i]),
        r.1 == quiz_points(quiz),
{
    let ghost ss = quiz.sections@;
    let mut points: Vec<u32> = Vec::new();
    let mut total: u32 = 0;
    let mut i: usize = 0;
    while i < quiz.sections.len()
        invariant
            ss == quiz.sections@,
            sections_points(ss) <= u32::MAX,
            0 <= i <= ss.len(),
            points@.len() == i,
            forall|k: int| 0 <= k < i ==> #[trigger] points@[k] == section_points(ss[k]),
            total == sections_points(ss.take(i as int)),
        decreases ss.len() - i,
    {
        let section = &quiz.sections[i];
        let ghost qs = section.questions@;
        proof {
            lemma_sections_points_prefix(ss, ss.len() as int);
            lemma_sections_points_prefix(ss, i + 1);
            assert(ss.take(i + 1).drop_last() =~= ss.take(i as int));
        }
        let mut p: u32 = 0;
        let mut j: usize = 0;
        while j < section.questions.len()
            invariant
                qs == section.questions@,
                question_points(qs) <= u32::MAX,
                0 <= j <= qs.len(),
                p == question_points(qs.take(j as int)),
            decreases qs.len() - j,
        {
            proof {
                lemma_question_points_prefix(qs, j + 1);
                assert(qs.take(j + 1).drop_last() =~= qs.take(j as int));
            }
            p = p + section.questions[j].points;
            j = j + 1;
        }
        assert(qs.take(qs.len() as int) =~= qs);
        points.push(p);
        total = total + p;
        i = i + 1;
    }
    assert(ss.take(ss.len() as int) =~= ss);
    (points, total)
}

/// The table of points per section, framed by the markers numbered from
/// `start_marker_id` (0 when not given).
pub fn make_points_summary(quiz: &Quiz, start_marker_id: Option<u32>) -> (markup: String)
    requires
        quiz_points(quiz) <= u32::MAX,
        quiz.sections@.len() < usize::MAX,
    ensures
        markup@ == points_summary(quiz, start_marker_id),
{
    let (points, total) = section_point_totals(quiz);
    let num_sections = quiz.sections.len();
    let mut table = String::from_str("#table(\n");
    push_text(&mut table, "\tcolumns: (");
    push_repeat_join(&mut table, "5em", num_sections + 1);
    push_text(&mut table, "),\n");
    push_text(&mut table, "\talign: center,\n");
    push_text(&mut table, "\tinset: 8pt,\n");
    push_text(&mut table, "\t");
    let ghost headers = header_cells(num_sections as nat);
    let ghost base = table@;
    let mut i: usize = 0;
    while i <= num_sections
        invariant
            num_sections == quiz.sections@.len(),
            num_sections < usize::MAX,
            0 <= i <= num_sections + 1,
            headers == header_cells(num_sections as nat),
            table@ == base + join(headers.take(i as int), ", "@),
        decreases num_sections + 1 - i,
    {
        proof {
            lemma_join_step(headers, ", "@, i as int);
        }
        if i > 0 {
            push_text(&mut table, ", ");
        }
        if i < num_sections {
            push_bold(&mut table, (i + 1) as u64);
        } else {
            push_text(&mut table, "$Sigma$");
        }
        proof {
            if i == 0 {
                assert(table@ =~= base + join(headers.take(1), ", "@));
            } else {
                assert(table@ =~= base + join(headers.take(i + 1), ", "@));
            }
        }
        i = i + 1;
    }
    assert(headers.take(num_sections + 1) =~= headers);
    push_text(&mut table, ",\n");
    push_text(&mut table, "\t");
    let ghost cells = points_cells(quiz);
    let ghost base = table@;
    let mut i: usize = 0;
    while i <= num_sections
        invariant
            num_sections == quiz.sections@.len(),
            num_sections < usize::MAX,
            points@.len() == num_sections,
            forall|k: int| 0 <= k < num_sections ==> #[trigger] points@[k] == section_points(quiz.sections@[k]),
            total == quiz_points(quiz),
            0 <= i <= num_sections + 1,
            cells == points_cells(quiz),
            table@ == base + join(cells.take(i as int), ", "@),
        decreases num_sections + 1 - i,
    {
        proof {
            lemma_join_step(cells, ", "@, i as int);
        }
        if i > 0 {
            push_text(&mut table, ", ");
        }
        if i < num_sections {
            push_bold(&mut table, points[i] as u64);
        } else {
            push_bold(&mut table, total as u64);
        }
        proof {
            if i == 0 {
                assert(table@ =~= base + join(cells.take(1), ", "@));
            } else {
                assert(table@ =~= base + join(cells.take(i + 1), ", "@));
            }
        }
        i = i + 1;
    }
    assert(cells.take(num_sections + 1) =~= cells);
    push_text(&mut table, ",\n");
    push_text(&mut table, "\t");
    push_repeat_join(&mut table, "v(1.5em)", num_sections + 1);
    push_text(&mut table, ",\n)\n");
    assert(table@ =~= points_table(quiz));
    let mut markup = String::from_str("#add_markers_around_table(start_id: ");
    let start: u32 = match start_marker_id {
        Some(id) => id,
        None => 0,
    };
    push_decimal(&mut markup, start as u64);
    push_text(&mut markup, ")[\n");
    push_text(&mut markup, table.as_str());
    push_text(&mut markup, "\n]\n");
    assert(markup@ =~= points_summary(quiz, start_marker_id));
    markup
}


/// The random number generator of the current thread.
#[verifier::external_type_specification]
#[verifier::external_body]
pub struct ExThreadRng(ThreadRng);

/// Calls `rand::rng`, the handle to the thread's random number generator.
/// Nothing is promised of it.
#[verifier::external_body]
fn new_rng() -> ThreadRng {
    rand::rng()
}

/// Calls `SliceRandom::shuffle` on the order. Trusted: the shuffle only swaps
/// elements, so the result holds the same elements, each as often; which
/// permutation comes out depends on chance and is not stated.
#[verifier::external_body]
fn shuffle_order(rng: &mut ThreadRng, order: &mut Vec<usize>)
    ensures
        final(order)@.to_multiset() == old(order)@.to_multiset(),
{
    order.shuffle(rng);
}

/// `p` is an order of the positions `0..n`: each position exactly once.
pub open spec fn shuffle_of(p: Seq<usize>, n: nat) -> bool {
    p.to_multiset() == indices(n).to_multiset()
}

/// An order of `0..n` lists each position below `n`, and has length `n`.
pub proof fn lemma_shuffle_bounds(p: Seq<usize>, n: nat)
    requires
        shuffle_of(p, n),
    ensures
        p.len() == n,
        forall|j: int| 0 <= j < p.len() ==> #[trigger] p[j] < n,
{
    broadcast use vstd::seq_lib::group_to_multiset_ensures;
    assert(p.len() == n) by {
        vstd::seq_lib::to_multiset_len(p);
        vstd::seq_lib::to_multiset_len(indices(n));
    }
    assert forall|j: int| 0 <= j < p.len() implies #[trigger] p[j] < n by {
        assert(p.contains(p[j]));
        vstd::seq_lib::to_multiset_contains(p, p[j]);
        vstd::seq_lib::to_multiset_contains(indices(n), p[j]);
        let k = choose|k: int| 0 <= k < indices(n).len() && indices(n)[k] == p[j];
    }
}

/// The options of a question (none when not given).
pub open spec fn options_of(q: Question) -> Seq<QuestOption> {
    match q.options {
        Some(v) => v@,
        None => Seq::empty(),
    }
}

/// The lines left for an open question's answer.
pub open spec fn lines_of(q: Question) -> nat {
    match q.lines {
        Some(l) => l as nat,
        None => 5,
    }
}

/// The question number `section.question`.
pub open spec fn qnum(section_num: nat, k: nat) -> Seq<char> {
    decimal(section_num) + "."@ + decimal(k + 1)
}

/// The markup of open question `k` of section `section_num`.
pub open spec fn open_question_markup(q: Question, section_num: nat, k: nat) -> Seq<char> {
    "#open_question(points: "@ + decimal(q.points as nat) + ", lines: "@ + decimal(lines_of(q)) + ", qnum: \""@
        + qnum(section_num, k) + "\")["@ + q.question@ + "]\n\n"@
}

/// The options of a question in the order `p`, each in brackets.
pub open spec fn option_items(opts: Seq<QuestOption>, p: Seq<usize>) -> Seq<Seq<char>> {
    Seq::new(p.len(), |j: int| "["@ + opts[p[j] as int].text@ + "]"@)
}

/// The markup of multiple-choice question `k` of section `section_num`, its options in the order `p`.
pub open spec fn choice_question_markup(q: Question, section_num: nat, k: nat, p: Seq<usize>) -> Seq<char> {
    "#multiple_choice_question(points: "@ + decimal(q.points as nat) + ", qnum: \""@ + qnum(section_num, k)
        + "\", options: ("@ + join(option_items(options_of(q), p), ", "@) + "))["@ + q.question@ + "]\n\n"@
}

/// The answer key of a multiple-choice question among its first `j` options in
/// the order `p`: the letter of each position that holds a correct option.
pub open spec fn question_answers(opts: Seq<QuestOption>, p: Seq<usize>, j: int) -> Seq<Seq<char>>
    decreases j,
{
    if j <= 0 {
        Seq::empty()
    } else if opts[p[j - 1] as int].is_correct {
        question_answers(opts, p, j - 1).push(seq![option_letter(j - 1)])
    } else {
        question_answers(opts, p, j - 1)
    }
}

/// The section holds open questions.
pub open spec fn is_open_section(section: &Section) -> bool {
    section.section_type@ == "open"@
}

/// The section holds multiple-choice questions.
pub open spec fn is_choice_section(section: &Section) -> bool {
    section.section_type@ == "multiple_choice"@
}

/// The markup of the first `k` questions of the section.
pub open spec fn questions_markup(section: &Section, section_num: nat, orders: Seq<Seq<usize>>, k: int) -> Seq<char>
    decreases k,
{
    if k <= 0 {
        Seq::empty()
    } else {
        let q = section.questions@[k - 1];
        let before = questions_markup(section, section_num, orders, k - 1);
        if is_open_section(section) {
            before + open_question_markup(q, section_num, (k - 1) as nat)
        } else if is_choice_section(section) {
            before + choice_question_markup(q, section_num, (k - 1) as nat, orders[k - 1])
        } else {
            before
        }
    }
}

/// The answer key of the first `k` questions of the section.
pub open spec fn questions_answers(section: &Section, orders: Seq<Seq<usize>>, k: int) -> Seq<Seq<char>>
    decreases k,
{
    if k <= 0 || !is_choice_section(section) {
        Seq::empty()
    } else {
        let q = section.questions@[k - 1];
        questions_answers(section, orders, k - 1) + question_answers(options_of(q), orders[k - 1], orders[k - 1].len() as int)
    }
}

/// The markup of the section: its title and its questions.
pub open spec fn section_markup(section: &Section, section_num: nat, orders: Seq<Seq<usize>>) -> Seq<char> {
    "= "@ + section.title@ + "\n\n"@ + questions_markup(section, section_num, orders, section.questions@.len() as int)
}

/// The answer key of the section: the letters of the correct options, question after question.
pub open spec fn section_answers(section: &Section, orders: Seq<Seq<usize>>) -> Seq<Seq<char>> {
    questions_answers(section, orders, section.questions@.len() as int)
}

/// The option orders fit the section: in a multiple-choice section, one order of
/// its options for each question.
pub open spec fn orders_fit(section: &Section, orders: Seq<Seq<usize>>) -> bool {
    is_choice_section(section) ==> {
        &&& orders.len() == section.questions@.len()
        &&& forall|k: int| 0 <= k < orders.len() ==> #[trigger] shuffle_of(orders[k], options_of(section.questions@[k]).len())
    }
}

/// Every letter that the answer key can need fits in a byte: in a
/// multiple-choice section, a question with a correct option has at most 191
/// options (other sections never read their options).
pub open spec fn letters_fit(section: &Section) -> bool {
    is_choice_section(section) ==> forall|k: int| 0 <= k < section.questions@.len() ==> {
        let opts = #[trigger] options_of(section.questions@[k]);
        opts.len() <= 191 || forall|j: int| 0 <= j < opts.len() ==> !opts[j].is_correct
    }
}

/// The views of a list of strings.
pub open spec fn strings_view(v: Seq<String>) -> Seq<Seq<char>> {
    v.map_values(|s: String| s@)
}

/// Appends the options in the order `p`, each in brackets and separated by
/// commas, and pushes the letters of the correct ones onto the answer key.
fn push_options(markup: &mut String, answers: &mut Vec<String>, opts: &Vec<QuestOption>, p: &Vec<usize>)
    requires
        shuffle_of(p@, opts@.len()),
        opts@.len() <= 191 || forall|j: int| 0 <= j < opts@.len() ==> !opts@[j].is_correct,
    ensures
        final(markup)@ == old(markup)@ + join(option_items(opts@, p@), ", "@),
        strings_view(final(answers)@) == strings_view(old(answers)@) + question_answers(opts@, p@, p@.len() as int),
{
    proof {
        lemma_shuffle_bounds(p@, opts@.len());
    }
    let ghost items = option_items(opts@, p@);
    let ghost base = markup@;
    let ghost base_answers = strings_view(answers@);
    let mut j: usize = 0;
    while j < p.len()
        invariant
            p@.len() == opts@.len(),
            forall|i: int| 0 <= i < p@.len() ==> #[trigger] p@[i] < opts@.len(),
            opts@.len() <= 191 || forall|i: int| 0 <= i < opts@.len() ==> !opts@[i].is_correct,
            items == option_items(opts@, p@),
            0 <= j <= p@.len(),
            markup@ == base + join(items.take(j as int), ", "@),
            strings_view(answers@) == base_answers + question_answers(opts@, p@, j as int),
        decreases p@.len() - j,
    {
        proof {
            lemma_join_step(items, ", "@, j as int);
        }
        let option = &opts[p[j]];
        if j > 0 {
            push_text(markup, ", ");
        }
        push_text(markup, "[");
        push_text(markup, option.text.as_str());
        push_text(markup, "]");
        proof {
            if j == 0 {
                assert(markup@ =~= base + join(items.take(1), ", "@));
            } else {
                assert(markup@ =~= base + join(items.take(j + 1), ", "@));
            }
        }
        if option.is_correct {
            assert(letter_fits(j as int));
            let mut label = String::new();
            push_char(&mut label, letter_for(j));
            let ghost before = answers@;
            answers.push(label);
            proof {
                assert(strings_view(answers@) =~= strings_view(before).push(seq![option_letter(j as int)]));
            }
        }
        j = j + 1;
    }
    assert(items.take(p@.len() as int) =~= items);
}

#[verifier::spinoff_prover]
#[verifier::rlimit(60)]
/// Appends the markup of a multiple-choice question, its options in the order `p`,
/// and pushes the letters of its correct options onto the answer key.
fn push_choice_question(
    markup: &mut String,
    answers: &mut Vec<String>,
    q: &Question,
    section_num: u32,
    k: usize,
    p: &Vec<usize>,
)
    requires
        k < usize::MAX,
        shuffle_of(p@, options_of(*q).len()),
        options_of(*q).len() <= 191 || forall|j: int| 0 <= j < options_of(*q).len() ==> !options_of(*q)[j].is_correct,
    ensures
        final(markup)@ == old(markup)@ + choice_question_markup(*q, section_num as nat, k as nat, p@),
        strings_view(final(answers)@) == strings_view(old(answers)@) + question_answers(options_of(*q), p@, p@.len() as int),
{
    let empty: Vec<QuestOption> = Vec::new();
    let opts: &Vec<QuestOption> = match &q.options {
        Some(v) => v,
        None => &empty,
    };
    assert(opts@ == options_of(*q));
    push_text(markup, "#multiple_choice_question(points: ");
    push_decimal(markup, q.points as u64);
    push_text(markup, ", qnum: \"");
    push_decimal(markup, section_num as u64);
    push_text(markup, ".");
    push_decimal(markup, (k + 1) as u64);
    push_text(markup, "\", options: (");
    push_options(markup, answers, opts, p);
    push_text(markup, "))[");
    push_text(markup, q.question.as_str());
    push_text(markup, "]\n\n");
    assert(final(markup)@ =~= old(markup)@ + choice_question_markup(*q, section_num as nat, k as nat, p@));
}

/// Appends the markup of an open question.
fn push_open_question(markup: &mut String, q: &Question, section_num: u32, k: usize)
    requires
        k < usize::MAX,
    ensures
        final(markup)@ == old(markup)@ + open_question_markup(*q, section_num as nat, k as nat),
{
    let lines: u32 = match q.lines {
        Some(l) => l,
        None => 5,
    };
    push_text(markup, "#open_question(points: ");
    push_decimal(markup, q.points as u64);
    push_text(markup, ", lines: ");
    push_decimal(markup, lines as u64);
    push_text(markup, ", qnum: \"");
    push_decimal(markup, section_num as u64);
    push_text(markup, ".");
    push_decimal(markup, (k + 1) as u64);
    push_text(markup, "\")[");
    push_text(markup, q.question.as_str());
    push_text(markup, "]\n\n");
    assert(final(markup)@ =~= old(markup)@ + open_question_markup(*q, section_num as nat, k as nat));
}

/// The markup and answer key of a section, with the options of question `k`
/// of a multiple-choice section listed in the order `orders[k]`.
pub fn make_section_with_orders(section: &Section, section_num: u32, orders: &Vec<Vec<usize>>) -> (r: (String, Vec<String>))
    requires
        orders_fit(section, orders@.map_values(|o: Vec<usize>| o@)),
        letters_fit(section),
    ensures
        r.0@ == section_markup(section, section_num as nat, orders@.map_values(|o: Vec<usize>| o@)),
        strings_view(r.1@) == section_answers(section, orders@.map_values(|o: Vec<usize>| o@)),
{
    let ghost ord = orders@.map_values(|o: Vec<usize>| o@);
    let mut markup = String::from_str("= ");
    push_text(&mut markup, section.title.as_str());
    push_text(&mut markup, "\n\n");
    let ghost base = markup@;
    let mut answers: Vec<String> = Vec::new();
    let is_open = section.section_type == String::from_str("open");
    let is_choice = section.section_type == String::from_str("multiple_choice");
    proof {
        reveal_strlit("open");
        reveal_strlit("multiple_choice");
        assert("open"@.len() == 4);
        assert("multiple_choice"@.len() == 15);
        assert(!(is_open && is_choice));
    }
    let n = section.questions.len();
    let mut k: usize = 0;
    while k < n
        invariant
            n == section.questions@.len(),
            ord == orders@.map_values(|o: Vec<usize>| o@),
            orders_fit(section, ord),
            letters_fit(section),
            is_open == is_open_section(section),
            is_choice == is_choice_section(section),
            !(is_open && is_choice),
            0 <= k <= n,
            markup@ == base + questions_markup(section, section_num as nat, ord, k as int),
            strings_view(answers@) == questions_answers(section, ord, k as int),
        decreases n - k,
    {
        let q = &section.questions[k];
        let ghost before = markup@;
        let ghost before_answers = strings_view(answers@);
        if is_open {
            push_open_question(&mut markup, q, section_num, k);
            assert(markup@ =~= base + questions_markup(section, section_num as nat, ord, k + 1));
            assert(!is_choice_section(section));
        } else if is_choice {
            assert(ord[k as int] == orders@[k as int]@);
            assert(shuffle_of(ord[k as int], options_of(section.questions@[k as int]).len()));
            assert(letters_fit(section));
            let ghost opts = options_of(section.questions@[k as int]);
            assert(opts.len() <= 191 || forall|j: int| 0 <= j < opts.len() ==> !opts[j].is_correct);
            push_choice_question(&mut markup, &mut answers, q, section_num, k, &orders[k]);
            assert(markup@ =~= base + questions_markup(section, section_num as nat, ord, k + 1));
            assert(strings_view(answers@) =~= questions_answers(section, ord, k + 1));
        }
        k = k + 1;
    }
    proof {
        assert(markup@ =~= section_markup(section, section_num as nat, ord));
    }
    (markup, answers)
}


/// The positions `0..n` in increasing order.
fn identity_order(n: usize) -> (order: Vec<usize>)
    ensures
        order@ == indices(n as nat),
{
    let mut order: Vec<usize> = Vec::new();
    let mut i: usize = 0;
    while i < n
        invariant
            0 <= i <= n,
            order@ == indices(i as nat),
        decreases n - i,
    {
        order.push(i);
        assert(order@ =~= indices((i + 1) as nat));
        i = i + 1;
    }
    order
}

/// The markup and answer key of a section. The options of each multiple-choice
/// question are shuffled at random; the letters in the answer key name the
/// positions of the correct options after shuffling.
pub fn make_section(section: &Section, section_num: u32) -> (r: (String, Vec<String>))
    requires
        letters_fit(section),
    ensures
        exists|ord: Seq<Seq<usize>>|
            orders_fit(section, ord) && r.0@ == #[trigger] section_markup(section, section_num as nat, ord)
                && strings_view(r.1@) == section_answers(section, ord),
{
    let mut rng = new_rng();
    let mut orders: Vec<Vec<usize>> = Vec::new();
    let is_choice = section.section_type == String::from_str("multiple_choice");
    if is_choice {
        let n = section.questions.len();
        let mut k: usize = 0;
        while k < n
            invariant
                n == section.questions@.len(),
                0 <= k <= n,
                orders@.len() == k,
                forall|i: int| 0 <= i < k ==> #[trigger] shuffle_of(orders@[i]@, options_of(section.questions@[i]).len()),
            decreases n - k,
        {
            let q = &section.questions[k];
            let count = match &q.options {
                Some(v) => v.len(),
                None => 0,
            };
            let mut order = identity_order(count);
            shuffle_order(&mut rng, &mut order);
            orders.push(order);
            k = k + 1;
        }
    }
    let ghost ord = orders@.map_values(|o: Vec<usize>| o@);
    assert(orders_fit(section, ord)) by {
        if is_choice_section(section) {
            assert forall|k: int| 0 <= k < ord.len() implies #[trigger] shuffle_of(ord[k], options_of(section.questions@[k]).len()) by {
                assert(ord[k] == orders@[k]@);
            }
        }
    }
    let r = make_section_with_orders(section, section_num, &orders);
    assert(orders_fit(section, ord) && r.0@ == section_markup(section, section_num as nat, ord)
        && strings_view(r.1@) == section_answers(section, ord));
    r
}

/// The group of the quiz, or nothing.
pub open spec fn group_of(quiz: &Quiz) -> Seq<char> {
    match quiz.group {
        Some(g) => g@,
        None => Seq::empty(),
    }
}

/// The heading block of the quiz for one student.
pub open spec fn assignment_header(quiz: &Quiz, student: &Student) -> Seq<char> {
    "#assignment_header(\""@ + quiz.title@ + "\", \""@ + group_of(quiz) + "\", \""@ + quiz.class@ + "\", \""@
        + quiz.date@ + "\", \""@ + student.name@ + "\", \""@ + student.username@ + "\")\n"@
}

/// The markup of the first `k` sections, numbered from 1, with the option orders of each.
pub open spec fn sections_markup(quiz: &Quiz, orders: Seq<Seq<Seq<usize>>>, k: int) -> Seq<char>
    decreases k,
{
    if k <= 0 {
        Seq::empty()
    } else {
        sections_markup(quiz, orders, k - 1) + section_markup(&quiz.sections@[k - 1], k as nat, orders[k - 1])
    }
}

/// The opening of the quiz for one student: the template, the page setup, the
/// heading and the points table.
pub open spec fn quiz_head(template: Seq<char>, quiz: &Quiz, student: &Student) -> Seq<char> {
    template + "#set heading(numbering: \"1.1.\")\n\n"@
        + "#show: doc => exam_setup(\""@ + student.name@ + "\", \""@ + student.username@ + "\", doc)\n\n"@
        + assignment_header(quiz, student) + points_summary(quiz, Some(0u32))
}

/// The closing block of the quiz for one student.
pub open spec fn quiz_tail(student: &Student) -> Seq<char> {
    "\n#finish_exam(\""@ + student.name@ + "\", \""@ + student.username@ + "\")\n"@
}

/// The whole quiz for one student: the opening, the sections and the closing block.
pub open spec fn quiz_markup(template: Seq<char>, quiz: &Quiz, student: &Student, orders: Seq<Seq<Seq<usize>>>) -> Seq<char> {
    quiz_head(template, quiz, student) + sections_markup(quiz, orders, quiz.sections@.len() as int) + quiz_tail(student)
}

/// One order of options for each question of each section, fitting the quiz.
pub open spec fn quiz_orders_fit(quiz: &Quiz, orders: Seq<Seq<Seq<usize>>>) -> bool {
    &&& orders.len() == quiz.sections@.len()
    &&& forall|i: int| 0 <= i < orders.len() ==> #[trigger] orders_fit(&quiz.sections@[i], orders[i])
}

/// The answer map holds, for each section index, the answer key of that section.
pub open spec fn answers_match(answers: Map<usize, Vec<String>>, quiz: &Quiz, orders: Seq<Seq<Seq<usize>>>) -> bool {
    &&& answers.dom() == Set::new(|i: usize| i < quiz.sections@.len())
    &&& forall|i: usize| #![trigger answers[i]] i < quiz.sections@.len() ==>
            strings_view(answers[i]@) == section_answers(&quiz.sections@[i as int], orders[i as int])
}

/// The quiz can be laid out: its points add up within `u32`, its sections can
/// be numbered in `u32`, and every answer letter fits in a byte.
pub open spec fn quiz_fits(quiz: &Quiz) -> bool {
    &&& quiz_points(quiz) <= u32::MAX
    &&& quiz.sections@.len() < u32::MAX
    &&& forall|i: int| 0 <= i < quiz.sections@.len() ==> letters_fit(#[trigger] &quiz.sections@[i])
}

/// Whether some option of the list is correct.
fn any_correct(opts: &Vec<QuestOption>) -> (r: bool)
    ensures
        r == exists|j: int| 0 <= j < opts@.len() && (#[trigger] opts@[j]).is_correct,
{
    let mut j: usize = 0;
    while j < opts.len()
        invariant
            0 <= j <= opts@.len(),
            forall|a: int| 0 <= a < j ==> !(#[trigger] opts@[a]).is_correct,
        decreases opts@.len() - j,
    {
        if opts[j].is_correct {
            return true;
        }
        j = j + 1;
    }
    false
}

/// Whether every answer letter of the section fits in a byte (see `letters_fit`).
fn section_letters_fit(section: &Section) -> (ok: bool)
    ensures
        ok == letters_fit(section),
{
    let is_choice = section.section_type == String::from_str("multiple_choice");
    if !is_choice {
        return true;
    }
    let mut k: usize = 0;
    while k < section.questions.len()
        invariant
            is_choice_section(section),
            0 <= k <= section.questions@.len(),
            forall|a: int| 0 <= a < k ==> {
                let opts = #[trigger] options_of(section.questions@[a]);
                opts.len() <= 191 || forall|j: int| 0 <= j < opts.len() ==> !opts[j].is_correct
            },
        decreases section.questions@.len() - k,
    {
        match &section.questions[k].options {
            Some(opts) => {
                if opts.len() > 191 && any_correct(opts) {
                    assert(options_of(section.questions@[k as int]) == opts@);
                    return false;
                }
            },
            None => {},
        }
        k = k + 1;
    }
    true
}

/// Whether the library can lay out the quiz (see `quiz_fits`): its points add
/// up within `u32`, its sections can be numbered in `u32`, and every answer
/// letter fits in a byte.
pub fn can_lay_out(quiz: &Quiz) -> (ok: bool)
    ensures
        ok == quiz_fits(quiz),
{
    let ss = &quiz.sections;
    if ss.len() >= u32::MAX as usize {
        return false;
    }
    let mut total: u64 = 0;
    let mut i: usize = 0;
    while i < ss.len()
        invariant
            ss@ == quiz.sections@,
            0 <= i <= ss@.len(),
            total == sections_points(ss@.take(i as int)),
            total <= u32::MAX,
            forall|a: int| 0 <= a < i ==> letters_fit(#[trigger] &ss@[a]),
        decreases ss@.len() - i,
    {
        let qs = &ss[i].questions;
        let mut sec: u64 = 0;
        let mut j: usize = 0;
        while j < qs.len()
            invariant
                ss@ == quiz.sections@,
                0 <= i < ss@.len(),
                total == sections_points(ss@.take(i as int)),
                qs@ == ss@[i as int].questions@,
                0 <= j <= qs@.len(),
                sec == question_points(qs@.take(j as int)),
                total + sec <= u32::MAX,
            decreases qs@.len() - j,
        {
            assert(qs@.take(j + 1).drop_last() =~= qs@.take(j as int));
            if total + sec + qs[j].points as u64 > u32::MAX as u64 {
                proof {
                    lemma_question_points_prefix(qs@, j + 1);
                    assert(ss@.take(i + 1).drop_last() =~= ss@.take(i as int));
                    lemma_sections_points_prefix(ss@, i + 1);
                }
                return false;
            }
            sec = sec + qs[j].points as u64;
            j = j + 1;
        }
        assert(qs@.take(j as int) =~= qs@);
        assert(ss@.take(i + 1).drop_last() =~= ss@.take(i as int));
        total = total + sec;
        if !section_letters_fit(&ss[i]) {
            return false;
        }
        i = i + 1;
    }
    assert(ss@.take(i as int) =~= ss@);
    true
}

/// The Typst markup of the quiz for one student, and the answer key of each
/// section (by section index). `template` is the Typst template that the
/// markup starts with.
pub fn make_quiz(template: &str, quiz: &Quiz, student: &Student) -> (r: (String, HashMap<usize, Vec<String>>))
    requires
        quiz_fits(quiz),
    ensures
        exists|orders: Seq<Seq<Seq<usize>>>|
            quiz_orders_fit(quiz, orders) && r.0@ == #[trigger] quiz_markup(template@, quiz, student, orders)
                && answers_match(r.1@, quiz, orders),
{
    let mut quiz_markup_text = make_quiz_head(template, quiz, student);
    let ghost head = quiz_markup_text@;
    let (answers, orders) = push_sections(&mut quiz_markup_text, quiz);
    push_text(&mut quiz_markup_text, "\n#finish_exam(\"");
    push_text(&mut quiz_markup_text, student.name.as_str());
    push_text(&mut quiz_markup_text, "\", \"");
    push_text(&mut quiz_markup_text, student.username.as_str());
    push_text(&mut quiz_markup_text, "\")\n");
    assert(quiz_markup_text@ =~= quiz_markup(template@, quiz, student, orders@));
    (quiz_markup_text, answers)
}

/// The opening of the quiz for one student.
fn make_quiz_head(template: &str, quiz: &Quiz, student: &Student) -> (head: String)
    requires
        quiz_fits(quiz),
    ensures
        head@ == quiz_head(template@, quiz, student),
{
    let mut text = String::from_str(template);
    push_text(&mut text, "#set heading(numbering: \"1.1.\")\n\n");
    push_text(&mut text, "#show: doc => exam_setup(\"");
    push_text(&mut text, student.name.as_str());
    push_text(&mut text, "\", \"");
    push_text(&mut text, student.username.as_str());
    push_text(&mut text, "\", doc)\n\n");
    let ghost before_header = text@;
    push_text(&mut text, "#assignment_header(\"");
    push_text(&mut text, quiz.title.as_str());
    push_text(&mut text, "\", \"");
    match &quiz.group {
        Some(g) => push_text(&mut text, g.as_str()),
        None => {},
    }
    push_text(&mut text, "\", \"");
    push_text(&mut text, quiz.class.as_str());
    push_text(&mut text, "\", \"");
    push_text(&mut text, quiz.date.as_str());
    push_text(&mut text, "\", \"");
    push_text(&mut text, student.name.as_str());
    push_text(&mut text, "\", \"");
    push_text(&mut text, student.username.as_str());
    push_text(&mut text, "\")\n");
    assert(text@ =~= before_header + assignment_header(quiz, student));
    let summary = make_points_summary(quiz, Some(0));
    push_text(&mut text, summary.as_str());
    assert(text@ =~= quiz_head(template@, quiz, student));
    text
}

/// Appends the markup of every section, numbered from 1, and collects the
/// answer key of each by section index, with the option orders that were drawn.
fn push_sections(markup: &mut String, quiz: &Quiz) -> (r: (HashMap<usize, Vec<String>>, Ghost<Seq<Seq<Seq<usize>>>>))
    requires
        quiz_fits(quiz),
    ensures
        quiz_orders_fit(quiz, r.1@),
        final(markup)@ == old(markup)@ + sections_markup(quiz, r.1@, quiz.sections@.len() as int),
        answers_match(r.0@, quiz, r.1@),
{
    broadcast use vstd::std_specs::hash::group_hash_axioms;
    let ghost head = markup@;
    let mut answers: HashMap<usize, Vec<String>> = HashMap::new();
    let ghost mut orders: Seq<Seq<Seq<usize>>> = Seq::empty();
    let n = quiz.sections.len();
    let mut i: usize = 0;
    while i < n
        invariant
            n == quiz.sections@.len(),
            quiz_fits(quiz),
            0 <= i <= n,
            orders.len() == i,
            forall|k: int| 0 <= k < i ==> #[trigger] orders_fit(&quiz.sections@[k], orders[k]),
            markup@ == head + sections_markup(quiz, orders, i as int),
            answers@.dom() == Set::new(|k: usize| k < i),
            forall|k: usize| #![trigger answers@[k]] k < i ==>
                strings_view(answers@[k]@) == section_answers(&quiz.sections@[k as int], orders[k as int]),
        decreases n - i,
    {
        let section = &quiz.sections[i];
        assert(letters_fit(&quiz.sections@[i as int]));
        let (section_text, section_answer_list) = make_section(section, i as u32 + 1);
        let ghost ord = choose|ord: Seq<Seq<usize>>|
            orders_fit(section, ord) && section_text@ == #[trigger] section_markup(section, (i + 1) as nat, ord)
                && strings_view(section_answer_list@) == section_answers(section, ord);
        let ghost old_orders = orders;
        proof {
            orders = orders.push(ord);
            lemma_sections_markup_prefix(quiz, orders, old_orders, i as int);
        }
        push_text(markup, section_text.as_str());
        answers.insert(i, section_answer_list);
        proof {
            assert(markup@ =~= head + sections_markup(quiz, orders, i + 1));
            assert(answers@.dom() =~= Set::new(|k: usize| k < i + 1));
        }
        i = i + 1;
    }
    (answers, Ghost(orders))
}

/// The markup of the first `k` sections depends only on the orders of those sections.
proof fn lemma_sections_markup_prefix(quiz: &Quiz, a: Seq<Seq<Seq<usize>>>, b: Seq<Seq<Seq<usize>>>, k: int)
    requires
        0 <= k <= b.len(),
        b.len() <= a.len(),
        forall|i: int| 0 <= i < b.len() ==> a[i] == b[i],
    ensures
        sections_markup(quiz, a, k) == sections_markup(quiz, b, k),
    decreases k,
{
    if k > 0 {
        lemma_sections_markup_prefix(quiz, a, b, k - 1);
    }
}


/// How many of the positions listed point at a correct option.
pub open spec fn count_correct(s: Seq<usize>, opts: Seq<QuestOption>) -> int
    decreases s.len(),
{
    if s.len() == 0 {
        0
    } else {
        count_correct(s.drop_last(), opts) + if opts[s.last() as int].is_correct { 1int } else { 0int }
    }
}

/// How many options of a question are correct.
pub open spec fn correct_options(opts: Seq<QuestOption>) -> int {
    count_correct(indices(opts.len()), opts)
}

proof fn lemma_answers_count(opts: Seq<QuestOption>, p: Seq<usize>, k: int)
    requires
        0 <= k <= p.len(),
    ensures
        question_answers(opts, p, k).len() == count_correct(p.take(k), opts),
    decreases k,
{
    if k > 0 {
        lemma_answers_count(opts, p, k - 1);
        assert(p.take(k).drop_last() =~= p.take(k - 1));
    } else {
        assert(p.take(0) =~= Seq::<usize>::empty());
    }
}

proof fn lemma_count_remove(s: Seq<usize>, i: int, opts: Seq<QuestOption>)
    requires
        0 <= i < s.len(),
    ensures
        count_correct(s, opts) == count_correct(s.remove(i), opts) + if opts[s[i] as int].is_correct { 1int } else { 0int },
    decreases s.len(),
{
    if i == s.len() - 1 {
        assert(s.remove(i) =~= s.drop_last());
    } else {
        lemma_count_remove(s.drop_last(), i, opts);
        assert(s.remove(i).drop_last() =~= s.drop_last().remove(i));
        assert(s.remove(i).last() == s.last());
    }
}

proof fn lemma_count_permutation(s: Seq<usize>, t: Seq<usize>, opts: Seq<QuestOption>)
    requires
        s.to_multiset() == t.to_multiset(),
    ensures
        count_correct(s, opts) == count_correct(t, opts),
    decreases s.len(),
{
    broadcast use vstd::seq_lib::group_to_multiset_ensures;
    vstd::seq_lib::to_multiset_len(s);
    vstd::seq_lib::to_multiset_len(t);
    if s.len() > 0 {
        let x = s.last();
        assert(s.to_multiset().contains(x)) by {
            assert(s.contains(x)) by {
                assert(s[s.len() - 1] == x);
            }
        }
        assert(t.contains(x));
        let i = choose|i: int| 0 <= i < t.len() && t[i] == x;
        assert(s.drop_last().to_multiset() =~= s.to_multiset().remove(x)) by {
            assert(s =~= s.drop_last().push(x));
        }
        assert(t.remove(i).to_multiset() == t.to_multiset().remove(x));
        lemma_count_permutation(s.drop_last(), t.remove(i), opts);
        lemma_count_remove(t, i, opts);
    }
}

/// Shuffling keeps the answer key whole: the answer key of a multiple-choice
/// question has one letter for each correct option, whatever order the options
/// were shuffled into.
pub proof fn lemma_answer_key_size(opts: Seq<QuestOption>, p: Seq<usize>)
    requires
        shuffle_of(p, opts.len()),
    ensures
        question_answers(opts, p, p.len() as int).len() == correct_options(opts),
{
    lemma_answers_count(opts, p, p.len() as int);
    assert(p.take(p.len() as int) =~= p);
    lemma_count_permutation(p, indices(opts.len()), opts);
}

/// The number of correct options among the first `k` questions.
pub open spec fn questions_correct(qs: Seq<Question>, k: int) -> int
    decreases k,
{
    if k <= 0 { 0 } else { questions_correct(qs, k - 1) + correct_options(options_of(qs[k - 1])) }
}

proof fn lemma_questions_answers_count(section: &Section, ord: Seq<Seq<usize>>, k: int)
    requires
        orders_fit(section, ord),
        0 <= k <= section.questions@.len(),
    ensures
        questions_answers(section, ord, k).len() == if is_choice_section(section) {
            questions_correct(section.questions@, k)
        } else {
            0
        },
    decreases k,
{
    if k > 0 {
        lemma_questions_answers_count(section, ord, k - 1);
        if is_choice_section(section) {
            assert(shuffle_of(ord[k - 1], options_of(section.questions@[k - 1]).len()));
            lemma_shuffle_bounds(ord[k - 1], options_of(section.questions@[k - 1]).len());
            lemma_answer_key_size(options_of(section.questions@[k - 1]), ord[k - 1]);
        }
    }
}

/// However the options were shuffled, the answer key of each section holds one
/// letter for each correct option of a multiple-choice section, and none for
/// any other section; so two quizzes made for the same quiz have answer keys of
/// the same sizes.
pub proof fn lemma_answer_counts(quiz: &Quiz, orders: Seq<Seq<Seq<usize>>>)
    requires
        quiz_orders_fit(quiz, orders),
    ensures
        forall|i: int| 0 <= i < quiz.sections@.len() ==> (#[trigger] section_answers(&quiz.sections@[i], orders[i])).len()
            == if is_choice_section(&quiz.sections@[i]) {
                questions_correct(quiz.sections@[i].questions@, quiz.sections@[i].questions@.len() as int)
            } else {
                0
            },
{
    assert forall|i: int| 0 <= i < quiz.sections@.len() implies (#[trigger] section_answers(&quiz.sections@[i], orders[i])).len()
        == if is_choice_section(&quiz.sections@[i]) {
            questions_correct(quiz.sections@[i].questions@, quiz.sections@[i].questions@.len() as int)
        } else {
            0
        } by {
        assert(orders_fit(&quiz.sections@[i], orders[i]));
        lemma_questions_answers_count(&quiz.sections@[i], orders[i], quiz.sections@[i].questions@.len() as int);
    }
}

proof fn lemma_questions_markup_free(section: &Section, n: nat, o1: Seq<Seq<usize>>, o2: Seq<Seq<usize>>, k: int)
    requires
        !is_choice_section(section),
    ensures
        questions_markup(section, n, o1, k) == questions_markup(section, n, o2, k),
    decreases k,
{
    if k > 0 {
        lemma_questions_markup_free(section, n, o1, o2, k - 1);
    }
}

proof fn lemma_sections_markup_free(quiz: &Quiz, o1: Seq<Seq<Seq<usize>>>, o2: Seq<Seq<Seq<usize>>>, k: int)
    requires
        k <= quiz.sections@.len(),
        forall|i: int| 0 <= i < quiz.sections@.len() ==> !is_choice_section(#[trigger] &quiz.sections@[i]),
    ensures
        sections_markup(quiz, o1, k) == sections_markup(quiz, o2, k),
    decreases k,
{
    if k > 0 {
        lemma_sections_markup_free(quiz, o1, o2, k - 1);
        let sec = &quiz.sections@[k - 1];
        assert(!is_choice_section(sec));
        lemma_questions_markup_free(sec, k as nat, o1[k - 1], o2[k - 1], sec.questions@.len() as int);
    }
}

/// Without multiple-choice sections nothing is shuffled: the quiz markup is
/// the same for any option orders, and every answer key is empty.
pub proof fn lemma_quiz_without_choices(
    template: Seq<char>,
    quiz: &Quiz,
    student: &Student,
    o1: Seq<Seq<Seq<usize>>>,
    o2: Seq<Seq<Seq<usize>>>,
)
    requires
        forall|i: int| 0 <= i < quiz.sections@.len() ==> !is_choice_section(#[trigger] &quiz.sections@[i]),
    ensures
        quiz_markup(template, quiz, student, o1) == quiz_markup(template, quiz, student, o2),
        forall|i: int| 0 <= i < quiz.sections@.len() ==> (#[trigger] section_answers(&quiz.sections@[i], o1[i])).len() == 0,
{
    lemma_sections_markup_free(quiz, o1, o2, quiz.sections@.len() as int);
    assert forall|i: int| 0 <= i < quiz.sections@.len() implies (#[trigger] section_answers(&quiz.sections@[i], o1[i])).len() == 0 by {
        assert(!is_choice_section(&quiz.sections@[i]));
    }
}

/// The points table shows, under the header of section `i + 1`, the points of
/// the questions of section `i`, and under the sum sign the points of all
/// sections: the summary is some text, the header row, that row at once
/// below it, and some text again.
pub proof fn lemma_points_row_by_section(quiz: &Quiz, start_marker_id: Option<u32>) -> (around: (Seq<char>, Seq<char>))
    ensures
        points_summary(quiz, start_marker_id) ==
            around.0 + "\t"@ + join(Seq::new(quiz.sections@.len(), |i: int| bold((i + 1) as nat)).push("$Sigma$"@), ", "@) + ",\n"@
                + "\t"@ + join(Seq::new(quiz.sections@.len(), |i: int| bold(question_points(quiz.sections@[i].questions@) as nat))
                    .push(bold(sections_points(quiz.sections@) as nat)), ", "@) + ",\n"@ + around.1,
{
    let n = quiz.sections@.len();
    let header = Seq::new(n, |i: int| bold((i + 1) as nat)).push("$Sigma$"@);
    let row = Seq::new(n, |i: int| bold(question_points(quiz.sections@[i].questions@) as nat))
        .push(bold(sections_points(quiz.sections@) as nat));
    assert(header_cells(n) =~= header);
    assert(points_cells(quiz) =~= row);
    let start = match start_marker_id { Some(id) => id as nat, None => 0nat };
    let pre = "#add_markers_around_table(start_id: "@ + decimal(start) + ")[\n"@ + "#table(\n"@ + "\tcolumns: ("@
        + repeat_join("5em"@, n + 1) + "),\n"@ + "\talign: center,\n"@ + "\tinset: 8pt,\n"@;
    let post = "\t"@ + repeat_join("v(1.5em)"@, n + 1) + ",\n)\n"@ + "\n]\n"@;
    assert(points_summary(quiz, start_marker_id) =~= pre + "\t"@ + join(header, ", "@) + ",\n"@ + "\t"@ + join(row, ", "@) + ",\n"@ + post);
    (pre, post)
}

} // verus!
