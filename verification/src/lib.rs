pub mod dates;
pub mod forms;
pub mod htmx;
pub mod pages;
pub mod db;
pub mod files;
pub mod markdown;
pub mod meta;
pub mod text;
