//! Metadata added to core REST resources by common `WordPress` extensions.

use crate::model::{Json, Null};
use vstd::prelude::*;

verus! {

/// Author metadata added by Ultimate Addons for Gutenberg.
#[derive(Clone, Debug, Eq, PartialEq)]
pub struct UagbAuthorInfo {
    pub display_name: String,
    pub author_link: String,
}

/// The UAGB fields that are either all present on a resource or all absent.
#[derive(Clone, Debug, Eq, PartialEq)]
pub struct UagbMetadata {
    pub author_info: UagbAuthorInfo,
    pub comment_info: u64,
    pub excerpt: String,
    /// The image flags by their names, in the order of the names.
    pub featured_image_src: Vec<(String, bool)>,
}

/// `VideoPress` metadata attached to media resources by Jetpack.
#[derive(Clone, Debug, Eq, PartialEq)]
pub struct JetpackVideoPress {
    pub title: String,
    pub description: String,
    pub caption: String,
    pub guid: Null,
    pub rating: Null,
    pub allow_download: u64,
    pub display_embed: u64,
    pub privacy_setting: u64,
    pub needs_playback_token: bool,
    pub is_private: bool,
    pub private_enabled_for_site: bool,
}

/// Jetpack sharing fields that are either both present or both absent.
#[derive(Clone, Debug, Eq, PartialEq)]
pub struct JetpackSharing {
    pub sharing_enabled: bool,
    pub shortlink: String,
}

/// Jetpack related-post fields that are either both present or both absent.
#[derive(Clone, Debug, Eq, PartialEq)]
pub struct JetpackRelatedPosts {
    pub related_posts: Json,
    pub publicize_connections: Json,
}

/// The complete Jetpack extension observed on media resources.
#[derive(Clone, Debug, Eq, PartialEq)]
pub struct JetpackMedia {
    pub sharing_enabled: bool,
    pub shortlink: String,
    pub videopress: JetpackVideoPress,
    pub videopress_guid: String,
}

/// Yoast metadata whose values are present when the extension is advertised.
#[derive(Clone, Debug, Eq, PartialEq)]
pub struct YoastMetadata {
    pub head: String,
    pub head_json: Json,
}

/// Yoast metadata on resources that may redact both values as `null`.
#[derive(Clone, Debug, Eq, PartialEq)]
pub struct NullableYoastMetadata {
    pub head: Option<String>,
    pub head_json: Option<Json>,
}

/// AMP user settings that are either both present or both absent.
#[derive(Clone, Debug, Eq, PartialEq)]
pub struct AmpUserMetadata {
    pub dev_tools_enabled: bool,
    pub review_panel_dismissed_for_template_mode: String,
}

/// Elementor introduction state represented as an empty marker or named flags.
#[derive(Clone, Debug, Eq, PartialEq)]
pub enum ElementorIntroduction {
    Marker(String),
    /// The flags by their names, in the order of the names.
    Flags(Vec<(String, bool)>),
}

} // verus!
