pub mod audio;
pub mod paths;
pub mod text_order;
pub mod pack_list;
pub mod json;
