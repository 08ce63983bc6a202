use quizmark::text::{letter_for, push_decimal, push_text};

#[test]
fn option_letters_start_at_a() {
    assert_eq!(letter_for(0), 'A');
    assert_eq!(letter_for(2), 'C');
    assert_eq!(letter_for(25), 'Z');
}

#[test]
fn decimals_are_appended() {
    let mut s = String::from("n=");
    push_decimal(&mut s, 0);
    push_text(&mut s, ", ");
    push_decimal(&mut s, 12345);
    assert_eq!(s, "n=0, 12345");
    let mut t = String::new();
    push_decimal(&mut t, u64::MAX);
    assert_eq!(t, u64::MAX.to_string());
}
