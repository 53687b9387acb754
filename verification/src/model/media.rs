//! Media attachment resources.

use crate::clock::Timestamp;
use crate::model::extensions::{JetpackMedia, JetpackVideoPress};
use crate::model::link::Links;
use crate::model::resource::DiscussionStatus;
use crate::model::{Json, ModificationDates, PublicationDates, Rendered};
use vstd::prelude::*;

verus! {

/// Publication state observed for media attachments.
#[derive(Clone, Copy, Debug, Eq, PartialEq)]
pub enum MediaStatus {
    Inherit,
}

/// Broad attachment category reported by the media endpoint.
#[derive(Clone, Copy, Debug, Eq, PartialEq)]
pub enum MediaType {
    File,
    Image,
}

/// Resource discriminator returned by the media endpoint.
#[derive(Clone, Copy, Debug, Eq, PartialEq)]
pub enum MediaKind {
    Attachment,
}

/// An attachment returned by the `/wp/v2/media` collection.
#[derive(Clone, Debug, Eq, PartialEq)]
pub struct Media {
    pub id: u64,
    pub publication: PublicationDates,
    pub modification: ModificationDates,
    pub slug: String,
    pub status: MediaStatus,
    pub kind: MediaKind,
    pub link: String,
    pub title: Rendered,
    pub guid: Rendered,
    pub author: u64,
    pub featured_media: Option<u64>,
    pub comment_status: DiscussionStatus,
    pub ping_status: DiscussionStatus,
    pub template: String,
    pub meta: Json,
    pub class_list: Option<Vec<String>>,
    pub acf: Option<Json>,
    pub description: Rendered,
    pub caption: Rendered,
    pub alt_text: String,
    pub media_type: MediaType,
    pub mime_type: String,
    pub media_details: Json,
    pub post: Option<u64>,
    pub source_url: String,
    pub filename: Option<String>,
    pub filesize: Option<u64>,
    pub links: Option<Links>,
    pub jetpack: Option<JetpackMedia>,
}

/// The Jetpack fields of an attachment as they are sent, each present or absent.
#[derive(Clone, Debug, Eq, PartialEq)]
pub struct JetpackFields {
    pub sharing_enabled: Option<bool>,
    pub shortlink: Option<String>,
    pub videopress: Option<JetpackVideoPress>,
    pub videopress_guid: Option<String>,
}

/// The reason given for an attachment with some of the Jetpack fields only.
pub const PARTIAL_JETPACK: &'static str = "Jetpack media fields must be all present or all absent";

impl JetpackFields {
    /// Whether every field is present.
    pub open spec fn are_present(self) -> bool {
        self.sharing_enabled is Some && self.shortlink is Some && self.videopress is Some
            && self.videopress_guid is Some
    }

    /// Whether every field is absent.
    pub open spec fn are_absent(self) -> bool {
        self.sharing_enabled is None && self.shortlink is None && self.videopress is None
            && self.videopress_guid is None
    }

    /// The extension that the fields make up, which are all present or all absent.
    ///
    /// # Errors
    ///
    /// Returns [`PARTIAL_JETPACK`] where some are present and some are not.
    pub fn combined(self) -> (jetpack: Result<Option<JetpackMedia>, &'static str>)
        ensures
            match jetpack {
                Ok(Some(jetpack)) => self.are_present() && jetpack == (JetpackMedia {
                    sharing_enabled: self.sharing_enabled->0,
                    shortlink: self.shortlink->0,
                    videopress: self.videopress->0,
                    videopress_guid: self.videopress_guid->0,
                }),
                Ok(None) => self.are_absent(),
                Err(reason) => !self.are_present() && !self.are_absent() && reason@
                    == PARTIAL_JETPACK@,
            },
    {
        match (self.sharing_enabled, self.shortlink, self.videopress, self.videopress_guid) {
            (None, None, None, None) => Ok(None),
            (Some(sharing_enabled), Some(shortlink), Some(videopress), Some(videopress_guid)) => Ok(
                Some(JetpackMedia { sharing_enabled, shortlink, videopress, videopress_guid }),
            ),
            _ => Err(PARTIAL_JETPACK),
        }
    }
}

impl Media {
    /// The publication time, from the API's UTC field.
    #[must_use]
    pub fn timestamp(&self) -> (timestamp: Option<Timestamp>)
        ensures
            timestamp == self.publication.date_gmt,
    {
        self.publication.timestamp()
    }
}

} // verus!
