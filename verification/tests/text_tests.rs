use courtroom::text::same_text;

#[test]
fn same_text_of_equal_texts() {
    assert!(same_text("rev", "rev"));
    assert!(same_text("", ""));
    assert!(same_text("Attorney's Badge", "Attorney's Badge"));
    assert!(same_text("リボルバー", "リボルバー"));
}

#[test]
fn same_text_of_different_texts() {
    assert!(!same_text("rev", "Rev"));
    assert!(!same_text("rev", "rew"));
    assert!(!same_text("rev", "reva"));
    assert!(!same_text("rev", ""));
    assert!(!same_text("", "rev"));
    assert!(!same_text("größte", "grosste"));
    assert!(!same_text("リボルバー", "リボルバ"));
}
