pub mod corpus;
pub mod lemmas;
pub mod model;
