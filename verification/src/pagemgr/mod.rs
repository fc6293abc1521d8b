//! A store of fixed-size slots, organised in pages.

pub mod bitmap;
pub mod dump;
pub mod image;
pub mod laws;
pub mod layout;
pub mod manager;
pub mod store;
pub mod text;

pub use image::ByteOrder;
pub use manager::{
    AllocId, FlushError, OpenError, OptionsError, PageId, PageManager, SlotId, DEFAULT_PAGE_SIZE,
    NO_PAGE,
};
