//! The class page: what a browser in the room sees, and everything it can send
//! back.

pub mod browser;
pub mod captive;
pub mod forms;
pub mod html;
pub mod landing;
pub mod links;
pub mod names;
pub mod notes;
pub mod upload;

pub use self::captive::is_foreign_host;
pub use self::html::{
    class_page, content_type, ext, files_frame, fresh_token, hex, html_escape, is_media, linkify,
    openable, paused_page, view_page, FileRow, PageParts,
};
pub use self::landing::{
    candidate_name, handed_in_dir, landing_base, landing_step, refused_dir, together,
    upload_outcome, waiting_dir, End, Landing, UploadOutcome,
};
pub use self::names::{
    ordinal, sanitize_display_name, sanitize_filename, truncate_chars, versioned,
};
pub use self::notes::{
    claim_name, claim_typed, form_decode, note_tag, notes, notice, raw_field, read_name,
    read_note, record_line, set_notice, take_note, token_already_used, NoteBook, NoteOutcome,
    Notice,
};
pub use self::upload::{header_value, plan_upload, read_plan, Plan, Upload, UPLOAD_CAP};
