//! `WordPress` REST API v2 collection endpoints.

use crate::text;
use vstd::prelude::*;
use vstd::string::StringExecFns;

verus! {

/// API resources captured before collection endpoints are probed.
pub const ROOT_ENDPOINTS: [&'static str; 8] = [
    "wp-json",
    "wp-json/wp/v2",
    "wp-json/wp/v2/types",
    "wp-json/wp/v2/taxonomies",
    "wp-json/wp/v2/block-types",
    "wp-json/wp/v2/block-patterns/categories",
    "wp-json/wp/v2/block-patterns/patterns",
    "wp-json/wp/v2/menu-locations",
];

/// Collection `rest_base` values intended to be excluded from custom endpoint discovery.
///
/// These are the core editor and theme collections `WordPress` registers as post types or
/// taxonomies but only serves to authenticated users. Applying this list is temporarily disabled.
pub const ENDPOINT_EXCLUSIONS: [&'static str; 6] = [
    "template-parts",
    "templates",
    "menus",
    "menu-items",
    "global-styles",
    "font-families",
];

/// A root resource listing the post types or taxonomies a site registers.
#[derive(Clone, Copy, Debug, Eq, PartialEq, Structural)]
pub enum Registry {
    /// The `types` resource; its entries are checked for custom endpoints first.
    Types,
    /// The `taxonomies` resource.
    Taxonomies,
}

impl Registry {
    /// Both registries, in the order their entries are checked for custom endpoints.
    pub const ALL: [Registry; 2] = [Registry::Types, Registry::Taxonomies];

    /// The resource's path relative to the installation root, as listed in [`ROOT_ENDPOINTS`].
    pub open spec fn path_text(self) -> Seq<char> {
        match self {
            Registry::Types => "wp-json/wp/v2/types"@,
            Registry::Taxonomies => "wp-json/wp/v2/taxonomies"@,
        }
    }

    /// The resource's path relative to the installation root, as listed in [`ROOT_ENDPOINTS`].
    #[must_use]
    pub fn path(self) -> (path: &'static str)
        ensures
            path@ == self.path_text(),
    {
        match self {
            Registry::Types => "wp-json/wp/v2/types",
            Registry::Taxonomies => "wp-json/wp/v2/taxonomies",
        }
    }
}

/// Both registries are among the root resources.
pub proof fn registries_are_roots(registry: Registry)
    ensures
        exists|index: int|
            0 <= index < ROOT_ENDPOINTS@.len() && (#[trigger] ROOT_ENDPOINTS@[index])@
                == registry.path_text(),
{
    match registry {
        Registry::Types => {
            assert(ROOT_ENDPOINTS@[2]@ == registry.path_text());
        },
        Registry::Taxonomies => {
            assert(ROOT_ENDPOINTS@[3]@ == registry.path_text());
        },
    }
}

/// The two registries have different paths.
pub proof fn registry_paths_differ()
    ensures
        Registry::Types.path_text() != Registry::Taxonomies.path_text(),
{
    reveal_strlit("wp-json/wp/v2/types");
    reveal_strlit("wp-json/wp/v2/taxonomies");
    assert(Registry::Types.path_text().len() != Registry::Taxonomies.path_text().len());
}

/// A post type or taxonomy exposed by the `WordPress` REST API.
///
/// Values of this shape are returned under each property of the `/wp/v2/types` and
/// `/wp/v2/taxonomies` response objects. [`items_url`](Self::items_url) identifies the REST
/// collection advertised by the entry.
#[derive(Clone, Debug, Eq, PartialEq)]
pub struct EndpointType {
    /// The human-readable plural name.
    pub name: String,
    /// A description supplied by `WordPress` or the registering plugin.
    pub description: String,
    /// Whether entries can have parents of the same type.
    pub hierarchical: bool,
    /// The internal post type or taxonomy name.
    pub slug: String,
    /// The collection route relative to its REST namespace.
    pub rest_base: String,
    /// The REST namespace containing the collection. Older `wp/v2` registries omit this field.
    pub rest_namespace: Option<String>,
    /// Taxonomies registered for a post type. Absent from taxonomy responses.
    pub taxonomies: Option<Vec<String>>,
    /// Post types registered for a taxonomy. Absent from post-type responses.
    pub types: Option<Vec<String>>,
    /// The entry's links.
    pub links: EndpointTypeLinks,
}

/// The links of an [`EndpointType`] that name its collection.
#[derive(Clone, Debug, Eq, PartialEq)]
pub struct EndpointTypeLinks {
    /// The targets of the `wp:items` link relation.
    pub wp_items: Vec<EndpointTypeLink>,
}

/// One target of a link relation.
#[derive(Clone, Debug, Eq, PartialEq)]
pub struct EndpointTypeLink {
    /// The target's URL.
    pub href: String,
}

/// The parts of an [`EndpointType`].
#[verifier::ext_equal]
pub struct EndpointTypeView {
    /// The human-readable plural name.
    pub name: Seq<char>,
    /// A description supplied by `WordPress` or the registering plugin.
    pub description: Seq<char>,
    /// Whether entries can have parents of the same type.
    pub hierarchical: bool,
    /// The internal post type or taxonomy name.
    pub slug: Seq<char>,
    /// Taxonomies registered for a post type.
    pub taxonomies: Option<Seq<Seq<char>>>,
    /// Post types registered for a taxonomy.
    pub types: Option<Seq<Seq<char>>>,
    /// The collection route relative to its REST namespace.
    pub rest_base: Seq<char>,
    /// The REST namespace containing the collection.
    pub rest_namespace: Option<Seq<char>>,
    /// The collection URLs that the `wp:items` link relation advertises.
    pub items: Seq<Seq<char>>,
}

impl DeepView for EndpointTypeLink {
    type V = Seq<char>;

    open spec fn deep_view(&self) -> Seq<char> {
        self.href@
    }
}

impl DeepView for EndpointType {
    type V = EndpointTypeView;

    open spec fn deep_view(&self) -> EndpointTypeView {
        EndpointTypeView {
            name: self.name@,
            description: self.description@,
            hierarchical: self.hierarchical,
            slug: self.slug@,
            taxonomies: self.taxonomies.deep_view(),
            types: self.types.deep_view(),
            rest_base: self.rest_base@,
            rest_namespace: self.rest_namespace.deep_view(),
            items: self.links.wp_items.deep_view(),
        }
    }
}

impl EndpointTypeView {
    /// Whether the entry names a custom collection of the `wp/v2` namespace: one that is neither
    /// a supported endpoint nor a parameterized route pattern.
    pub open spec fn is_custom(self) -> bool {
        &&& match self.rest_namespace {
            Some(namespace) => namespace == "wp/v2"@,
            None => true,
        }
        &&& Endpoint::named(self.rest_base) is None
        &&& !text::occurs(self.rest_base, "(?P<"@)
    }
}

/// The `rest_base` values of the entries that name custom collections, in order.
pub open spec fn custom_names(entries: Seq<EndpointTypeView>) -> Seq<Seq<char>>
    decreases entries.len(),
{
    if entries.len() == 0 {
        Seq::empty()
    } else {
        let earlier = custom_names(entries.drop_last());
        if entries.last().is_custom() {
            earlier.push(entries.last().rest_base)
        } else {
            earlier
        }
    }
}

impl EndpointType {
    /// A copy of the entry.
    pub fn copied(&self) -> (copy: Self)
        ensures
            copy.deep_view() == self.deep_view(),
    {
        let mut wp_items: Vec<EndpointTypeLink> = Vec::new();
        let ghost all = self.deep_view().items;
        let mut index: usize = 0;
        while index < self.links.wp_items.len()
            invariant
                index <= self.links.wp_items@.len(),
                all == self.deep_view().items,
                wp_items.deep_view() == all.take(index as int),
            decreases self.links.wp_items@.len() - index,
        {
            let ghost known = wp_items.deep_view();
            wp_items.push(EndpointTypeLink { href: self.links.wp_items[index].href.clone() });
            assert(wp_items.deep_view() == known.push(all[index as int]));
            index += 1;
            assert(all.take(index as int) == known.push(all[index - 1]));
        }
        assert(all.take(index as int) == all);
        EndpointType {
            name: self.name.clone(),
            description: self.description.clone(),
            hierarchical: self.hierarchical,
            slug: self.slug.clone(),
            rest_base: self.rest_base.clone(),
            rest_namespace: text::copied(&self.rest_namespace),
            taxonomies: match &self.taxonomies {
                Some(taxonomies) => Some(text::copied_all(taxonomies)),
                None => None,
            },
            types: match &self.types {
                Some(types) => Some(text::copied_all(types)),
                None => None,
            },
            links: EndpointTypeLinks { wp_items },
        }
    }

    /// The first collection URL advertised by the `wp:items` link relation.
    #[must_use]
    pub fn items_url(&self) -> (url: Option<&str>)
        ensures
            url.deep_view() == (if self.deep_view().items.len() > 0 {
                Some(self.deep_view().items[0])
            } else {
                None
            }),
    {
        if self.links.wp_items.len() > 0 {
            Some(self.links.wp_items[0].href.as_str())
        } else {
            None
        }
    }

    /// Every collection URL advertised by the `wp:items` link relation.
    pub fn items_urls(&self) -> (urls: Vec<&str>)
        ensures
            urls.deep_view() == self.deep_view().items,
    {
        let mut urls: Vec<&str> = Vec::new();
        let mut index: usize = 0;
        while index < self.links.wp_items.len()
            invariant
                index <= self.links.wp_items@.len(),
                urls.deep_view() == self.deep_view().items.take(index as int),
            decreases self.links.wp_items@.len() - index,
        {
            let ghost known = urls.deep_view();
            let url = self.links.wp_items[index].href.as_str();
            urls.push(url);
            assert(urls.deep_view() == known.push(url@));
            index += 1;
            assert(self.deep_view().items.take(index as int) == known.push(url@));
        }
        assert(self.deep_view().items.take(index as int) == self.deep_view().items);
        urls
    }

    /// Whether the entry names a custom `wp/v2` collection.
    pub fn is_custom(&self) -> (custom: bool)
        ensures
            custom == self.deep_view().is_custom(),
    {
        let in_namespace = match &self.rest_namespace {
            Some(namespace) => text::same(namespace.as_str(), "wp/v2"),
            None => true,
        };
        in_namespace && Endpoint::find_named(self.rest_base.as_str()).is_none()
        // Temporarily probe the enumerated exclusions to determine which are public.
            && !text::contains(self.rest_base.as_str(), "(?P<")
    }

    /// The `rest_base` values of `entries` that name custom `wp/v2` collections, in order.
    ///
    /// Entries for supported [`Endpoint`]s, parameterized route patterns, and other namespaces
    /// (whose routes are not under `wp-json/wp/v2/`) are skipped. Repeated values are yielded each
    /// time they occur.
    pub fn custom_endpoints<'a>(entries: &'a Vec<EndpointType>) -> (names: Vec<&'a str>)
        ensures
            names.deep_view() == custom_names(entries.deep_view()),
    {
        let mut names: Vec<&'a str> = Vec::new();
        let mut index: usize = 0;
        while index < entries.len()
            invariant
                index <= entries@.len(),
                names.deep_view() == custom_names(entries.deep_view().take(index as int)),
            decreases entries@.len() - index,
        {
            let entry = &entries[index];
            let ghost known = names.deep_view();
            assert(entries.deep_view().take(index + 1).drop_last() == entries.deep_view().take(
                index as int,
            ));
            if entry.is_custom() {
                names.push(entry.rest_base.as_str());
                assert(names.deep_view() == known.push(entry.rest_base@));
            }
            index += 1;
        }
        assert(entries.deep_view().take(index as int) == entries.deep_view());
        names
    }
}

/// A supported REST API v2 collection endpoint. The variant order is the order endpoints are
/// archived in.
#[derive(Clone, Copy, Debug, Eq, Ord, PartialEq, PartialOrd, Structural)]
pub enum Endpoint {
    /// The `pages` collection.
    Pages,
    /// The `posts` collection.
    Posts,
    /// The `media` collection.
    Media,
    /// The `comments` collection.
    Comments,
    /// The `users` collection.
    Users,
    /// The `categories` collection.
    Categories,
    /// The `tags` collection.
    Tags,
    /// The `navigation` collection of block-theme navigation menus.
    Navigation,
}

impl Endpoint {
    /// Every supported endpoint, in the order they are probed and paged.
    pub const ALL: [Endpoint; 8] = [
        Endpoint::Pages,
        Endpoint::Posts,
        Endpoint::Media,
        Endpoint::Comments,
        Endpoint::Users,
        Endpoint::Categories,
        Endpoint::Tags,
        Endpoint::Navigation,
    ];

    /// The collection's name, which is the last segment of its endpoint path.
    pub open spec fn name_text(self) -> Seq<char> {
        match self {
            Endpoint::Pages => "pages"@,
            Endpoint::Posts => "posts"@,
            Endpoint::Media => "media"@,
            Endpoint::Comments => "comments"@,
            Endpoint::Users => "users"@,
            Endpoint::Categories => "categories"@,
            Endpoint::Tags => "tags"@,
            Endpoint::Navigation => "navigation"@,
        }
    }

    /// The supported endpoint whose name is exactly `name`.
    pub open spec fn named(name: Seq<char>) -> Option<Endpoint> {
        if exists|endpoint: Endpoint| endpoint.name_text() == name {
            Some(choose|endpoint: Endpoint| endpoint.name_text() == name)
        } else {
            None
        }
    }

    /// The collection's name, which is the last segment of its endpoint path.
    #[must_use]
    pub fn name(self) -> (name: &'static str)
        ensures
            name@ == self.name_text(),
    {
        match self {
            Endpoint::Pages => "pages",
            Endpoint::Posts => "posts",
            Endpoint::Media => "media",
            Endpoint::Comments => "comments",
            Endpoint::Users => "users",
            Endpoint::Categories => "categories",
            Endpoint::Tags => "tags",
            Endpoint::Navigation => "navigation",
        }
    }

    /// The collection's name.
    pub fn to_string(&self) -> (name: String)
        ensures
            name@ == self.name_text(),
    {
        (*self).name().to_owned()
    }

    /// The supported endpoint whose name is exactly `name`.
    pub fn find_named(name: &str) -> (endpoint: Option<Endpoint>)
        ensures
            endpoint == Endpoint::named(name@),
    {
        let mut index: usize = 0;
        while index < 8
            invariant
                index <= 8,
                forall|earlier: int|
                    0 <= earlier < index ==> (#[trigger] Endpoint::ALL@[earlier]).name_text()
                        != name@,
            decreases 8 - index,
        {
            let endpoint = Endpoint::ALL[index];
            if text::same(endpoint.name(), name) {
                proof {
                    endpoint_names_parse_exactly(name@, endpoint);
                }
                return Some(endpoint);
            }
            index += 1;
        }
        proof {
            assert forall|endpoint: Endpoint| endpoint.name_text() != name@ by {
                lemma_all_holds(endpoint);
            }
        }
        None
    }

    /// Parse an endpoint's exact lowercase name.
    ///
    /// # Errors
    ///
    /// Returns [`EndpointParseError`], which holds the name, for every other text.
    pub fn parse(name: &str) -> (endpoint: Result<Endpoint, EndpointParseError>)
        ensures
            match endpoint {
                Ok(endpoint) => Endpoint::named(name@) == Some(endpoint),
                Err(error) => Endpoint::named(name@) is None && error.deep_view() == name@,
            },
    {
        match Endpoint::find_named(name) {
            Some(endpoint) => Ok(endpoint),
            None => Err(EndpointParseError(name.to_owned())),
        }
    }
}

/// Every endpoint is among [`Endpoint::ALL`].
pub proof fn lemma_all_holds(endpoint: Endpoint)
    ensures
        exists|index: int| 0 <= index < 8 && #[trigger] Endpoint::ALL@[index] == endpoint,
{
    match endpoint {
        Endpoint::Pages => assert(Endpoint::ALL@[0] == endpoint),
        Endpoint::Posts => assert(Endpoint::ALL@[1] == endpoint),
        Endpoint::Media => assert(Endpoint::ALL@[2] == endpoint),
        Endpoint::Comments => assert(Endpoint::ALL@[3] == endpoint),
        Endpoint::Users => assert(Endpoint::ALL@[4] == endpoint),
        Endpoint::Categories => assert(Endpoint::ALL@[5] == endpoint),
        Endpoint::Tags => assert(Endpoint::ALL@[6] == endpoint),
        Endpoint::Navigation => assert(Endpoint::ALL@[7] == endpoint),
    }
}

/// Two endpoints with the same name are the same endpoint.
pub proof fn lemma_names_differ(first: Endpoint, second: Endpoint)
    requires
        first.name_text() == second.name_text(),
    ensures
        first == second,
{
    reveal_strlit("pages");
    reveal_strlit("posts");
    reveal_strlit("media");
    reveal_strlit("comments");
    reveal_strlit("users");
    reveal_strlit("categories");
    reveal_strlit("tags");
    reveal_strlit("navigation");
    assert("pages"@.len() == 5 && "pages"@[1] == 'a');
    assert("posts"@.len() == 5 && "posts"@[1] == 'o');
    assert("media"@.len() == 5 && "media"@[1] == 'e');
    assert("users"@.len() == 5 && "users"@[1] == 's');
    assert("tags"@.len() == 4);
    assert("comments"@.len() == 8);
    assert("categories"@.len() == 10 && "categories"@[0] == 'c');
    assert("navigation"@.len() == 10 && "navigation"@[0] == 'n');
}

/// A text parses to an endpoint exactly when it is that endpoint's name.
pub proof fn endpoint_names_parse_exactly(name: Seq<char>, endpoint: Endpoint)
    ensures
        Endpoint::named(name) == Some(endpoint) <==> name == endpoint.name_text(),
{
    if name == endpoint.name_text() {
        let named = choose|other: Endpoint| other.name_text() == name;
        lemma_names_differ(named, endpoint);
    }
}

impl std::str::FromStr for Endpoint {
    type Err = EndpointParseError;

    /// Parse an endpoint's exact lowercase name.
    fn from_str(name: &str) -> (endpoint: Result<Self, EndpointParseError>)
        ensures
            match endpoint {
                Ok(endpoint) => Endpoint::named(name@) == Some(endpoint),
                Err(error) => Endpoint::named(name@) is None && error.deep_view() == name@,
            },
    {
        Endpoint::parse(name)
    }
}

/// A name that is not the lowercase name of an [`Endpoint`].
#[derive(Debug)]
pub struct EndpointParseError(String);

impl DeepView for EndpointParseError {
    type V = Seq<char>;

    closed spec fn deep_view(&self) -> Seq<char> {
        self.0@
    }
}

impl EndpointParseError {
    /// The name and the names that are expected.
    pub fn to_string(&self) -> (message: String)
        ensures
            message@ == "unknown WordPress endpoint "@ + text::quoted(self.deep_view())
                + "; expected one of pages, posts, media, comments, users, categories, tags, navigation"@,
    {
        let mut message = "unknown WordPress endpoint ".to_owned();
        message.append(text::quote(self.0.as_str()).as_str());
        message.append(
            "; expected one of pages, posts, media, comments, users, categories, tags, navigation",
        );
        message
    }
}

/// A collection an archive probes and pages: a supported endpoint or one a registry advertised.
#[derive(Debug, Eq, PartialEq)]
pub enum Collection {
    /// A supported endpoint, probed for its own sake.
    Known(Endpoint),
    /// A custom endpoint, probed via the registry response that advertised it.
    Custom {
        /// The collection's `rest_base`, which is the last segment of its endpoint path.
        name: String,
        /// The registry whose response advertised the collection.
        registry: Registry,
    },
}

/// A [`Collection`], with its name as a sequence of characters.
#[verifier::ext_equal]
pub enum CollectionView {
    Known(Endpoint),
    Custom { name: Seq<char>, registry: Registry },
}

impl DeepView for Collection {
    type V = CollectionView;

    open spec fn deep_view(&self) -> CollectionView {
        match self {
            Collection::Known(endpoint) => CollectionView::Known(*endpoint),
            Collection::Custom { name, registry } => CollectionView::Custom {
                name: name@,
                registry: *registry,
            },
        }
    }
}

impl CollectionView {
    /// The collection's name, which is the last segment of its endpoint path.
    pub open spec fn name(self) -> Seq<char> {
        match self {
            CollectionView::Known(endpoint) => endpoint.name_text(),
            CollectionView::Custom { name, .. } => name,
        }
    }

    /// The registry a custom collection was advertised by; `None` for a supported endpoint.
    pub open spec fn registry(self) -> Option<Registry> {
        match self {
            CollectionView::Known(_) => None,
            CollectionView::Custom { registry, .. } => Some(registry),
        }
    }
}

/// The names of collections, in order.
pub open spec fn names_of(collections: Seq<CollectionView>) -> Seq<Seq<char>> {
    collections.map_values(|collection: CollectionView| collection.name())
}

/// The first of `collections` named `name`.
pub open spec fn first_named(collections: Seq<CollectionView>, name: Seq<char>) -> Option<
    CollectionView,
> {
    match text::position(names_of(collections), name) {
        Some(index) => Some(collections[index]),
        None => None,
    }
}

/// The supported endpoint named `name`, or otherwise the first of `custom` that has the name.
pub open spec fn found_collection(name: Seq<char>, custom: Seq<CollectionView>) -> Option<
    CollectionView,
> {
    match Endpoint::named(name) {
        Some(endpoint) => Some(CollectionView::Known(endpoint)),
        None => first_named(custom, name),
    }
}

/// A found collection has the name it was looked up by.
pub proof fn found_collection_has_the_name(name: Seq<char>, custom: Seq<CollectionView>)
    ensures
        found_collection(name, custom) matches Some(collection) ==> collection.name() == name,
{
    text::lemma_position(names_of(custom), name);
}

/// A collection is found under every name that a supported endpoint or a custom collection has,
/// and under no other.
pub proof fn a_collection_is_found_by_name(name: Seq<char>, custom: Seq<CollectionView>)
    ensures
        found_collection(name, custom) is Some <==> ((exists|endpoint: Endpoint|
            endpoint.name_text() == name) || names_of(custom).contains(name)),
{
    text::lemma_position(names_of(custom), name);
}

impl Clone for Collection {
    fn clone(&self) -> (copy: Self)
        ensures
            copy.deep_view() == self.deep_view(),
    {
        match self {
            Collection::Known(endpoint) => Collection::Known(*endpoint),
            Collection::Custom { name, registry } => Collection::Custom {
                name: name.clone(),
                registry: *registry,
            },
        }
    }
}

/// The index of the first of `collections` named `name`.
pub fn position_named(collections: &Vec<Collection>, name: &str) -> (index: Option<usize>)
    ensures
        match index {
            Some(index) => index < collections@.len() && text::position(
                names_of(collections.deep_view()),
                name@,
            ) == Some(index as int),
            None => text::position(names_of(collections.deep_view()), name@) is None,
        },
{
    let ghost names = names_of(collections.deep_view());
    let mut index: usize = 0;
    while index < collections.len()
        invariant
            index <= collections@.len(),
            names == names_of(collections.deep_view()),
            text::position(names.take(index as int), name@) is None,
        decreases collections@.len() - index,
    {
        assert(names.take(index + 1).drop_last() == names.take(index as int));
        if text::same(collections[index].name(), name) {
            proof {
                lemma_position_in_prefix(names, name@, index + 1);
            }
            return Some(index);
        }
        index += 1;
    }
    assert(names.take(index as int) == names);
    None
}

/// A first position among the beginning of some texts is the first position among them all.
pub proof fn lemma_position_in_prefix(names: Seq<Seq<char>>, name: Seq<char>, count: int)
    requires
        0 <= count <= names.len(),
        text::position(names.take(count), name) is Some,
    ensures
        text::position(names, name) == text::position(names.take(count), name),
    decreases names.len() - count,
{
    if count == names.len() {
        assert(names.take(count) == names);
    } else {
        assert(names.take(count + 1).drop_last() == names.take(count));
        lemma_position_in_prefix(names, name, count + 1);
    }
}

impl Collection {
    /// The collection's name, which is the last segment of its endpoint path.
    #[must_use]
    pub fn name(&self) -> (name: &str)
        ensures
            name@ == self.deep_view().name(),
    {
        match self {
            Collection::Known(endpoint) => (*endpoint).name(),
            Collection::Custom { name, .. } => name.as_str(),
        }
    }

    /// The registry a custom collection was advertised by; `None` for a supported endpoint.
    #[must_use]
    pub fn registry(&self) -> (registry: Option<Registry>)
        ensures
            registry == self.deep_view().registry(),
    {
        match self {
            Collection::Known(_) => None,
            Collection::Custom { registry, .. } => Some(*registry),
        }
    }

    /// The supported endpoint or custom collection among `custom` named `name`.
    pub fn find(name: &str, custom: &Vec<Collection>) -> (collection: Option<Collection>)
        ensures
            collection.deep_view() == found_collection(name@, custom.deep_view()),
    {
        match Endpoint::find_named(name) {
            Some(endpoint) => Some(Collection::Known(endpoint)),
            None => match position_named(custom, name) {
                Some(index) => Some(custom[index].clone()),
                None => None,
            },
        }
    }

    /// The collection's name.
    pub fn to_string(&self) -> (name: String)
        ensures
            name@ == self.deep_view().name(),
    {
        self.name().to_owned()
    }
}

impl From<Endpoint> for Collection {
    fn from(endpoint: Endpoint) -> (collection: Self) {
        Collection::Known(endpoint)
    }
}

impl vstd::std_specs::convert::FromSpecImpl<Endpoint> for Collection {
    open spec fn obeys_from_spec() -> bool {
        true
    }

    open spec fn from_spec(endpoint: Endpoint) -> Self {
        Collection::Known(endpoint)
    }
}

/// The custom names of a registry are the `rest_base` values of its entries in the `wp/v2`
/// namespace, or in none named, that are neither supported endpoints nor route patterns: each of
/// them, in order.
pub proof fn custom_names_are_those_of_custom_entries(entries: Seq<EndpointTypeView>)
    ensures
        custom_names(entries) == entries.filter(
            |entry: EndpointTypeView|
                {
                    &&& entry.rest_namespace is None || entry.rest_namespace == Some("wp/v2"@)
                    &&& forall|endpoint: Endpoint| #[trigger]
                        endpoint.name_text() != entry.rest_base
                    &&& !text::occurs(entry.rest_base, "(?P<"@)
                },
        ).map_values(|entry: EndpointTypeView| entry.rest_base),
    decreases entries.len(),
{
    reveal(Seq::filter);
    if entries.len() > 0 {
        custom_names_are_those_of_custom_entries(entries.drop_last());
    }
}

/// The supported endpoints are looked up by the names that they have, and a custom collection by
/// its own where no supported endpoint has it.
pub proof fn collections_are_looked_up_by_name(
    endpoint: Endpoint,
    custom: Seq<CollectionView>,
    index: int,
)
    requires
        0 <= index < custom.len(),
        forall|earlier: int|
            0 <= earlier < index ==> (#[trigger] custom[earlier]).name() != custom[index].name(),
    ensures
        found_collection(endpoint.name_text(), custom) == Some(CollectionView::Known(endpoint)),
        (forall|known: Endpoint| #[trigger] known.name_text() != custom[index].name())
            ==> found_collection(custom[index].name(), custom) == Some(custom[index]),
{
    endpoint_names_parse_exactly(endpoint.name_text(), endpoint);
    let names = names_of(custom);
    let name = custom[index].name();
    text::lemma_position(names, name);
    assert(names[index] == name);
    if let Some(at) = text::position(names, name) {
        if at < index {
            assert(custom[at].name() == names[at]);
        }
    }
}

} // verus!
