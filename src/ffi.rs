//! Plain records that cross the language boundary to the UI: folders, note
//! summaries, search hits and resources, with times in epoch milliseconds.
use vstd::prelude::*;

verus! {

#[derive(Clone, Debug)]
pub struct FFIFolder {
    pub id: String,
    pub title: String,
    pub created_time: i64,
    pub updated_time: i64,
    pub user_created_time: i64,
    pub user_updated_time: i64,
    pub encryption_cipher_text: String,
    pub encryption_applied: bool,
    pub parent_id: Option<String>,
    pub is_shared: bool,
    pub share_id: String,
    pub master_key_id: String,
    pub icon: String,
}

/// A search hit; the highlight ranges hold pairs of offsets into the title
/// and the body.
#[derive(Clone, Debug)]
pub struct FFISearchNote {
    pub id: String,
    pub title: String,
    pub body: String,
    pub title_highlight_ranges: Vec<i32>,
    pub body_highlight_ranges: Vec<i32>,
}

/// A note without its body, for listings.
#[derive(Clone, Debug)]
pub struct FFIAbbrNote {
    pub id: String,
    pub parent_id: Option<String>,
    pub title: String,
    pub user_created_time: i64,
    pub user_updated_time: i64,
}

#[derive(Clone, Debug)]
pub struct FFIResource {
    pub id: String,
    pub title: String,
    pub mime: String,
    pub filename: String,
    pub created_time: i64,
    pub updated_time: i64,
    pub user_created_time: i64,
    pub user_updated_time: i64,
    pub file_extension: String,
    pub encryption_cipher_text: String,
    pub encryption_applied: bool,
    pub encryption_blob_encrypted: bool,
    pub size: i32,
    pub is_shared: bool,
    pub share_id: String,
    pub master_key_id: String,
}

} // verus!
