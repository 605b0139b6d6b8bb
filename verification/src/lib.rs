pub mod arena;
pub mod model;
pub mod order;
pub mod order_book;
pub mod order_error;
pub mod order_map;
pub mod order_match;
pub mod order_spec;
pub mod orders;
