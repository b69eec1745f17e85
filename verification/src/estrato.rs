//! The `.estrato` layout: layers kept under `.estrato/<name>`, with paths
//! that go down (`>a>b`), up (`<<`) or stay plain, and the queries `>?`/`<?`.
pub mod context;
pub mod down;
pub mod path;
pub mod query;
pub mod up;
