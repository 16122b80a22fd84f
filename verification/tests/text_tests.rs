use callgraph::text::{chars_of, find_last_word, has_infix, push_decimal, take_until, trim};

#[test]
fn trim_removes_outer_blanks_only() {
    let s = chars_of("  \t a b \u{3000}");
    assert_eq!(trim(&s), vec!['a', ' ', 'b']);
    assert_eq!(trim(&chars_of("   ")), Vec::<char>::new());
}

#[test]
fn decimal_notation() {
    let mut out = Vec::new();
    push_decimal(0, &mut out);
    push_decimal(407, &mut out);
    assert_eq!(out, vec!['0', '4', '0', '7']);
}

#[test]
fn last_word_before_paren() {
    let s = chars_of("  return   compute (x);");
    let before = take_until(&s, '(');
    assert_eq!(before, chars_of("  return   compute "));
    assert_eq!(find_last_word(&before), Some(chars_of("compute")));
    assert_eq!(find_last_word(&chars_of("   ")), None);
}

#[test]
fn infix_search() {
    let s = chars_of("a fnA(b)");
    assert!(has_infix(&s, &chars_of(" fnA(")));
    assert!(!has_infix(&s, &chars_of("fnB(")));
    assert!(has_infix(&s, &[]));
}
