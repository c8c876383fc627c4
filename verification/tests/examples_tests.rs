#[test]
fn placeholder() {}
