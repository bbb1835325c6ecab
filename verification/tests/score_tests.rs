use rasterizer::score::a;

#[test]
fn test_a() {
    let input = "A Y
B X
C Z";
    assert_eq!(a(input), 15);
}

#[test]
fn test_score_all_nine_rounds() {
    assert_eq!(a("A X"), 4);
    assert_eq!(a("A Y"), 8);
    assert_eq!(a("A Z"), 3);
    assert_eq!(a("B X"), 1);
    assert_eq!(a("B Y"), 5);
    assert_eq!(a("B Z"), 9);
    assert_eq!(a("C X"), 7);
    assert_eq!(a("C Y"), 2);
    assert_eq!(a("C Z"), 6);
}

#[test]
fn test_score_empty_input() {
    assert_eq!(a(""), 0);
}

#[test]
fn test_score_trailing_newline_and_cr() {
    assert_eq!(a("A X\n"), 4);
    assert_eq!(a("A X\r\nB Y\r\n"), 9);
}
