//! Core `WordPress` content, taxonomy, user, and comment resources.

use crate::clock::Timestamp;
use crate::model::extensions::{
    AmpUserMetadata, ElementorIntroduction, JetpackRelatedPosts, JetpackSharing,
    NullableYoastMetadata, UagbMetadata, YoastMetadata,
};
use crate::model::link::Links;
use crate::model::{Json, ModificationDates, Null, PublicationDates, Rendered};
use vstd::prelude::*;

verus! {

/// Publication state observed for posts and pages.
#[derive(Clone, Copy, Debug, Eq, PartialEq)]
pub enum PostStatus {
    Publish,
}

/// Moderation state observed for public comments.
#[derive(Clone, Copy, Debug, Eq, PartialEq)]
pub enum CommentStatus {
    Approved,
}

/// Whether comments or pings are accepted for a resource.
#[derive(Clone, Copy, Debug, Eq, PartialEq)]
pub enum DiscussionStatus {
    Unavailable,
    Closed,
    Open,
}

/// Presentation format selected for a post.
#[derive(Clone, Copy, Debug, Eq, PartialEq)]
pub enum PostFormat {
    Aside,
    Audio,
    Standard,
    Video,
}

/// Resource discriminator returned by the page endpoint.
#[derive(Clone, Copy, Debug, Eq, PartialEq)]
pub enum PageKind {
    Page,
}

/// Resource discriminator returned by the comment endpoint.
#[derive(Clone, Copy, Debug, Eq, PartialEq)]
pub enum CommentKind {
    Comment,
}

/// Taxonomy discriminator returned by the category endpoint.
#[derive(Clone, Copy, Debug, Eq, PartialEq)]
pub enum CategoryTaxonomy {
    Category,
}

/// Taxonomy discriminator returned by the tag endpoint.
#[derive(Clone, Copy, Debug, Eq, PartialEq)]
pub enum TagTaxonomy {
    PostTag,
}

/// A post or custom-post-type resource.
#[derive(Clone, Debug, Eq, PartialEq)]
pub struct Post {
    pub id: u64,
    pub publication: PublicationDates,
    pub modification: ModificationDates,
    pub slug: String,
    pub status: PostStatus,
    pub kind: String,
    pub link: String,
    pub title: Rendered,
    pub content: Option<Rendered>,
    pub excerpt: Option<Rendered>,
    pub guid: Rendered,
    pub author: Option<u64>,
    pub featured_media: Option<u64>,
    pub comment_status: Option<DiscussionStatus>,
    pub ping_status: Option<DiscussionStatus>,
    pub sticky: Option<bool>,
    pub format: Option<PostFormat>,
    pub template: String,
    pub categories: Option<Vec<u64>>,
    pub tags: Option<Vec<u64>>,
    pub meta: Option<Json>,
    pub links: Links,
    pub acf: Option<Json>,
    pub class_list: Option<Vec<String>>,
    pub yoast_head: Option<String>,
    pub yoast_head_json: Option<Json>,
    pub audio_player: Option<Json>,
    pub download_link: Option<Json>,
    pub episode_data: Option<Json>,
    pub episode_featured_image: Option<Json>,
    pub episode_player_image: Option<Json>,
    pub player_link: Option<Json>,
    pub series: Option<Json>,
    pub jetpack_related: Option<JetpackRelatedPosts>,
    pub jetpack_featured_media_url: Option<String>,
    pub jetpack_sharing: Option<JetpackSharing>,
    pub advanced_ads_groups: Option<Json>,
    pub gallery_data: Option<Json>,
    pub uagb: Option<UagbMetadata>,
}

impl Post {
    /// The publication time, from the API's UTC field.
    #[must_use]
    pub fn timestamp(&self) -> (timestamp: Option<Timestamp>)
        ensures
            timestamp == self.publication.date_gmt,
    {
        self.publication.timestamp()
    }
}

/// A page resource.
#[derive(Clone, Debug, Eq, PartialEq)]
pub struct Page {
    pub id: u64,
    pub publication: PublicationDates,
    pub modification: ModificationDates,
    pub slug: String,
    pub status: PostStatus,
    pub kind: PageKind,
    pub link: String,
    pub title: Rendered,
    pub content: Rendered,
    pub excerpt: Rendered,
    pub guid: Rendered,
    pub author: u64,
    pub parent: u64,
    pub menu_order: i64,
    pub featured_media: u64,
    pub comment_status: DiscussionStatus,
    pub ping_status: DiscussionStatus,
    pub template: String,
    pub meta: Json,
    pub links: Links,
    pub acf: Option<Json>,
    pub class_list: Option<Vec<String>>,
    pub yoast: Option<YoastMetadata>,
    pub jetpack: Option<JetpackSharing>,
    pub uagb: Option<UagbMetadata>,
}

impl Page {
    /// The publication time, from the API's UTC field.
    #[must_use]
    pub fn timestamp(&self) -> (timestamp: Option<Timestamp>)
        ensures
            timestamp == self.publication.date_gmt,
    {
        self.publication.timestamp()
    }
}

/// A category resource.
#[derive(Clone, Debug, Eq, PartialEq)]
pub struct Category {
    pub id: u64,
    pub count: u64,
    pub description: String,
    pub link: String,
    pub name: String,
    pub slug: String,
    pub taxonomy: CategoryTaxonomy,
    pub parent: u64,
    pub meta: Json,
    pub links: Links,
    pub acf: Option<Json>,
    pub yoast: Option<YoastMetadata>,
}

/// A tag resource.
#[derive(Clone, Debug, Eq, PartialEq)]
pub struct Tag {
    pub id: u64,
    pub count: u64,
    pub description: String,
    pub link: String,
    pub name: String,
    pub slug: String,
    pub taxonomy: TagTaxonomy,
    pub meta: Json,
    pub links: Links,
    pub acf: Option<Json>,
    pub yoast: Option<YoastMetadata>,
}

/// A user resource.
#[derive(Clone, Debug, Eq, PartialEq)]
pub struct User {
    pub id: u64,
    pub name: String,
    pub url: String,
    pub description: String,
    pub link: String,
    pub slug: String,
    /// The avatars' URLs by their sizes, in the order of the sizes' texts.
    pub avatar_urls: Option<Vec<(String, String)>>,
    pub is_super_admin: Option<bool>,
    pub meta: Json,
    pub links: Links,
    pub acf: Option<Json>,
    pub mpp_avatar: Option<Json>,
    pub woocommerce_meta: Option<Json>,
    pub yoast: NullableYoastMetadata,
    pub amp: Option<AmpUserMetadata>,
    pub elementor_introduction: Option<ElementorIntroduction>,
    pub user_switching_url: Option<Null>,
}

/// A public comment resource.
#[derive(Clone, Debug, Eq, PartialEq)]
pub struct Comment {
    pub id: u64,
    pub post: u64,
    pub parent: u64,
    pub author: u64,
    pub author_name: String,
    pub author_url: String,
    pub publication: PublicationDates,
    pub content: Rendered,
    pub link: String,
    pub status: CommentStatus,
    pub kind: CommentKind,
    /// The avatars' URLs by their sizes, in the order of the sizes' texts.
    pub author_avatar_urls: Option<Vec<(String, String)>>,
    pub meta: Json,
    pub links: Links,
    pub acf: Option<Json>,
}

impl Comment {
    /// The publication time, from the API's UTC field.
    #[must_use]
    pub fn timestamp(&self) -> (timestamp: Option<Timestamp>)
        ensures
            timestamp == self.publication.date_gmt,
    {
        self.publication.timestamp()
    }
}

} // verus!
