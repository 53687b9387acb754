//! Link relations returned with REST API documents and resources.

use vstd::prelude::*;

verus! {

/// Link relations of `WordPress` REST API resources.
#[derive(Clone, Debug, Eq, PartialEq)]
pub struct Links {
    pub about: Option<Vec<Link>>,
    pub author: Option<Vec<Link>>,
    pub children: Option<Vec<Link>>,
    pub collection: Option<Vec<Link>>,
    pub curies: Option<Vec<Link>>,
    pub help: Option<Vec<Link>>,
    pub in_reply_to: Option<Vec<Link>>,
    pub predecessor_version: Option<Vec<Link>>,
    pub replies: Option<Vec<Link>>,
    pub self_links: Option<Vec<Link>>,
    pub up: Option<Vec<Link>>,
    pub version_history: Option<Vec<Link>>,
    pub wp_attached_to: Option<Vec<Link>>,
    pub wp_attachment: Option<Vec<Link>>,
    pub wp_featured_media: Option<Vec<Link>>,
    pub wp_items: Option<Vec<Link>>,
    pub wp_post_type: Option<Vec<Link>>,
    pub wp_term: Option<Vec<Link>>,
}

/// One entry in a `WordPress` REST API link relation.
#[derive(Clone, Debug, Eq, PartialEq)]
pub struct Link {
    pub href: String,
    pub embeddable: Option<bool>,
    pub templated: Option<bool>,
    pub name: Option<String>,
    pub id: Option<u64>,
    pub count: Option<u64>,
    pub post_type: Option<String>,
    pub taxonomy: Option<String>,
    pub kind: Option<String>,
    pub target_hints: Option<TargetHints>,
}

/// HTTP methods advertised for a link target.
#[derive(Clone, Debug, Eq, PartialEq)]
pub struct TargetHints {
    pub allow: Vec<String>,
}

} // verus!
