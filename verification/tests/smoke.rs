use yaml2::error::Position;

#[test]
fn workspace_builds() {
    assert_eq!(2 + 2, 4);
    assert_eq!(Position::start().line, 1);
}
