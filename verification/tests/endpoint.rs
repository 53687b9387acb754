use wordpress_archive::endpoint::{
    Collection, Endpoint, EndpointType, EndpointTypeLink, EndpointTypeLinks, Registry,
    ENDPOINT_EXCLUSIONS, ROOT_ENDPOINTS,
};

/// A registry entry with a `rest_base` and namespace, in the shape `WordPress` returns.
fn entry(rest_base: &str, rest_namespace: &str) -> EndpointType {
    EndpointType {
        rest_namespace: Some(rest_namespace.to_owned()),
        ..legacy_entry(rest_base)
    }
}

/// A registry entry in the legacy shape that implied the `wp/v2` namespace.
fn legacy_entry(rest_base: &str) -> EndpointType {
    EndpointType {
        name: String::new(),
        description: String::new(),
        hierarchical: false,
        slug: rest_base.to_owned(),
        rest_base: rest_base.to_owned(),
        rest_namespace: None,
        taxonomies: None,
        types: None,
        links: EndpointTypeLinks {
            wp_items: vec![EndpointTypeLink {
                href: "https://example.com/x".to_owned(),
            }],
        },
    }
}

#[test]
fn endpoint_names_parse_exactly() {
    for endpoint in Endpoint::ALL {
        assert_eq!(endpoint.name().parse::<Endpoint>().ok(), Some(endpoint));
    }
    assert!("Posts".parse::<Endpoint>().is_err());
    assert!("posts/".parse::<Endpoint>().is_err());
    assert_eq!(
        "navigation".parse::<Endpoint>().ok(),
        Some(Endpoint::Navigation)
    );
}

#[test]
fn registries_are_roots() {
    for registry in Registry::ALL {
        assert!(ROOT_ENDPOINTS.contains(&registry.path()));
    }
}

#[test]
fn registry_entries_name_their_collections() {
    let mut post = legacy_entry("posts");
    post.links.wp_items[0].href = "https://example.com/wp-json/wp/v2/posts".to_owned();
    assert_eq!(
        post.items_url(),
        Some("https://example.com/wp-json/wp/v2/posts")
    );
    let mut category = entry("categories", "wp/v2");
    category.links.wp_items[0].href = "https://example.com/wp-json/wp/v2/categories".to_owned();
    assert_eq!(
        category.items_urls(),
        ["https://example.com/wp-json/wp/v2/categories"]
    );
    category.links.wp_items.clear();
    assert_eq!(category.items_url(), None);
    assert!(category.items_urls().is_empty());
}

#[test]
fn custom_endpoints_keep_response_order_and_skip_known_and_route_pattern_entries() {
    let entries = vec![
        legacy_entry("videos"),
        entry("posts", "wp/v2"),
        entry(ENDPOINT_EXCLUSIONS[1], "wp/v2"),
        entry("product", "wp/v2"),
        entry("videos", "wp/v2"),
        entry("things", "plugin/v1"),
        entry(
            r"font-families/(?P<font_family_id>[\d]+)/font-faces",
            "wp/v2",
        ),
        entry("navigation", "wp/v2"),
    ];

    assert_eq!(
        EndpointType::custom_endpoints(&entries),
        ["videos", "templates", "product", "videos"]
    );
}

#[test]
fn a_collection_is_found_by_name_among_the_supported_and_custom_endpoints() {
    let custom = vec![Collection::Custom {
        name: "videos".to_owned(),
        registry: Registry::Taxonomies,
    }];

    assert_eq!(
        Collection::find("media", &custom),
        Some(Collection::from(Endpoint::Media))
    );
    assert_eq!(Collection::find("videos", &custom), Some(custom[0].clone()));
    assert_eq!(Collection::find("Videos", &custom), None);
    assert_eq!(Collection::find("videos", &Vec::new()), None);
    assert_eq!(custom[0].name(), "videos");
    assert_eq!(custom[0].to_string(), "videos");
    assert_eq!(custom[0].registry(), Some(Registry::Taxonomies));
    assert_eq!(Collection::from(Endpoint::Pages).registry(), None);
}

#[test]
fn an_unknown_endpoint_is_named_with_those_expected() {
    let error = "Posts\n".parse::<Endpoint>().expect_err("an unknown endpoint");
    assert_eq!(
        error.to_string(),
        "unknown WordPress endpoint \"Posts\\n\"; expected one of pages, posts, media, comments, \
         users, categories, tags, navigation"
    );
}

#[test]
fn copies_of_registry_entries_are_whole() {
    let entry = EndpointType {
        name: "Recipes".to_owned(),
        description: "What to cook".to_owned(),
        hierarchical: true,
        slug: "recipe".to_owned(),
        rest_base: "recipes".to_owned(),
        rest_namespace: Some("wp/v2".to_owned()),
        taxonomies: Some(vec!["courses".to_owned(), "category".to_owned()]),
        types: Some(vec!["post".to_owned()]),
        links: EndpointTypeLinks {
            wp_items: vec![EndpointTypeLink {
                href: "https://example.com/wp-json/wp/v2/recipes".to_owned(),
            }],
        },
    };

    assert_eq!(entry.copied(), entry);
}

#[test]
fn endpoints_parse_from_text() {
    assert!(matches!("posts".parse(), Ok(Endpoint::Posts)));
    assert!("Posts".parse::<Endpoint>().is_err());
    assert!("posts/".parse::<Endpoint>().is_err());
}
