pub mod text;
pub mod pathstr;
pub mod scan;
pub mod path;
pub mod roundtrip;
pub mod order;
pub mod up;
pub mod context;
pub mod query;
pub mod estrato;
pub mod links;
pub mod layer;
pub mod navigation;
pub mod tree;
