pub mod adapters;
pub mod external_book;
pub mod market_maker;
pub mod normaliser;
pub mod unified_book;
