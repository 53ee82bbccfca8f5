//! Link scanning and download supervision for a yt-dlp front end.

pub mod address;
pub mod candidates;
pub mod classify;
pub mod decimal_text;
pub mod download;
pub mod harvest;
pub mod html;
pub mod json;
pub mod lists;
pub mod locate;
pub mod numbers;
pub mod probe;
pub mod progress;
pub mod queue;
pub mod scan;
pub mod text;
pub mod tools;
pub mod unicode;
