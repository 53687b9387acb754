//! REST API discovery documents, registries, and errors.

use crate::model::extensions::NullableYoastMetadata;
use crate::model::link::Links;
use crate::model::{GmtOffset, Json};
use vstd::prelude::*;

verus! {

/// `has_archive` is either a flag or the archive's slug.
#[derive(Clone, Debug, Eq, PartialEq)]
pub enum HasArchive {
    Enabled(bool),
    Slug(String),
}

/// A template lock represented as a flag or a named lock mode.
#[derive(Clone, Debug, Eq, PartialEq)]
pub enum TemplateLock {
    Enabled(bool),
    Mode(TemplateLockMode),
}

/// Named template-lock modes observed in post-type registries.
#[derive(Clone, Copy, Debug, Eq, PartialEq)]
pub enum TemplateLockMode {
    All,
}

/// Authentication metadata advertised by the REST API root.
#[derive(Clone, Debug, Eq, PartialEq)]
pub enum Authentication {
    Methods(AuthenticationMethods),
    /// The empty array of legacy roots.
    Empty,
}

/// Authentication methods advertised by newer REST API roots.
#[derive(Clone, Debug, Eq, PartialEq)]
pub struct AuthenticationMethods {
    pub application_passwords: Option<ApplicationPasswords>,
}

/// `WordPress` application-password authentication metadata.
#[derive(Clone, Debug, Eq, PartialEq)]
pub struct ApplicationPasswords {
    pub endpoints: ApplicationPasswordEndpoints,
}

/// Endpoints used to authorize `WordPress` application passwords.
#[derive(Clone, Debug, Eq, PartialEq)]
pub struct ApplicationPasswordEndpoints {
    pub authorization: String,
}

/// A post type advertised by the `/wp/v2/types` registry.
#[derive(Clone, Debug, Eq, PartialEq)]
pub struct Type {
    pub name: String,
    pub slug: String,
    pub description: String,
    pub hierarchical: bool,
    pub has_archive: Option<HasArchive>,
    pub taxonomies: Vec<String>,
    pub rest_base: String,
    pub rest_namespace: Option<String>,
    pub icon: Option<String>,
    pub template: Option<Json>,
    pub template_lock: Option<TemplateLock>,
    pub links: Links,
    pub yoast: NullableYoastMetadata,
}

/// The discovery document at the REST API root.
#[derive(Clone, Debug, Eq, PartialEq)]
pub struct ApiRoot {
    pub name: String,
    pub description: String,
    pub url: String,
    pub home: String,
    pub gmt_offset: GmtOffset,
    pub timezone_string: String,
    pub namespaces: Vec<String>,
    pub authentication: Authentication,
    /// The routes by their paths, in the order of the paths.
    pub routes: Vec<(String, Json)>,
    pub site_logo: u64,
    pub site_icon: u64,
    pub site_icon_url: String,
    pub page_for_posts: Option<u64>,
    pub page_on_front: Option<u64>,
    pub show_on_front: Option<String>,
    pub links: Links,
}

/// A REST API namespace discovery document.
#[derive(Clone, Debug, Eq, PartialEq)]
pub struct Namespace {
    pub namespace: String,
    /// The routes by their paths, in the order of the paths.
    pub routes: Vec<(String, Json)>,
    pub links: Links,
}

/// Machine-readable details attached to a REST API error.
#[derive(Clone, Debug, Eq, PartialEq)]
pub struct ErrorData {
    pub status: u16,
}

/// An error returned by the REST API.
#[derive(Clone, Debug, Eq, PartialEq)]
pub struct ErrorResponse {
    pub code: String,
    pub message: String,
    pub data: ErrorData,
}

/// A taxonomy advertised by the `/wp/v2/taxonomies` registry.
#[derive(Clone, Debug, Eq, PartialEq)]
pub struct Taxonomy {
    pub name: String,
    pub slug: String,
    pub description: String,
    pub hierarchical: bool,
    pub types: Vec<String>,
    pub rest_base: String,
    pub rest_namespace: String,
    pub links: Links,
}

} // verus!
