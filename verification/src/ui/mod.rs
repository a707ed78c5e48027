//! What the views show.

pub mod confirm_dialog;
pub mod controls;
pub mod delete_confirm;
pub mod dialogs;
pub mod format;
pub mod results_grid;
pub mod results_table_similar;
pub mod reverse_search_panel;
pub mod thumbnails;
