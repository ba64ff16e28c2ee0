//! The harness itself runs.

#[test]
fn dummy() {}
