use wordpress_archive::clock::parse_rfc3339;
use wordpress_archive::model::extensions::JetpackVideoPress;
use wordpress_archive::model::media::{
    JetpackFields, Media, MediaKind, MediaStatus, MediaType, PARTIAL_JETPACK,
};
use wordpress_archive::model::resource::DiscussionStatus;
use wordpress_archive::model::{Json, ModificationDates, Null, PublicationDates, Rendered};

fn complete() -> JetpackFields {
    JetpackFields {
        sharing_enabled: Some(true),
        shortlink: Some("https://wp.me/example".to_owned()),
        videopress: Some(JetpackVideoPress {
            title: "Example video".to_owned(),
            description: String::new(),
            caption: String::new(),
            guid: Null {},
            rating: Null {},
            allow_download: 0,
            display_embed: 0,
            privacy_setting: 2,
            needs_playback_token: false,
            is_private: false,
            private_enabled_for_site: false,
        }),
        videopress_guid: Some("video-guid".to_owned()),
    }
}

#[test]
fn partial_jetpack_media_metadata_is_rejected() {
    let jetpack = complete()
        .combined()
        .expect("Jetpack media")
        .expect("Jetpack metadata");
    assert_eq!(jetpack.videopress_guid, "video-guid");

    let mut partial = complete();
    partial.videopress_guid = None;
    assert_eq!(partial.combined(), Err(PARTIAL_JETPACK));

    let absent = JetpackFields {
        sharing_enabled: None,
        shortlink: None,
        videopress: None,
        videopress_guid: None,
    };
    assert_eq!(absent.combined(), Ok(None));
}

#[test]
fn media_attachments_parse() {
    let rendered = |text: &str| Rendered {
        rendered: text.to_owned(),
        protected: None,
    };
    let media = Media {
        id: 42,
        publication: PublicationDates {
            date: parse_rfc3339("2026-08-28T17:57:06Z"),
            date_gmt: parse_rfc3339("2026-08-28T21:57:06Z"),
        },
        modification: ModificationDates {
            modified: parse_rfc3339("2026-08-28T17:57:06Z"),
            modified_gmt: parse_rfc3339("2026-08-28T21:57:06Z"),
        },
        slug: "example-image".to_owned(),
        status: MediaStatus::Inherit,
        kind: MediaKind::Attachment,
        link: "https://example.com/example-image/".to_owned(),
        title: rendered("Example image"),
        guid: rendered("https://example.com/example.png"),
        author: 1,
        featured_media: None,
        comment_status: DiscussionStatus::Closed,
        ping_status: DiscussionStatus::Closed,
        template: String::new(),
        meta: Json {
            text: "{}".to_owned(),
        },
        class_list: None,
        acf: None,
        description: rendered(""),
        caption: rendered(""),
        alt_text: String::new(),
        media_type: MediaType::Image,
        mime_type: "image/png".to_owned(),
        media_details: Json {
            text: r#"{"height":523,"sizes":{},"width":1000}"#.to_owned(),
        },
        post: None,
        source_url: "https://example.com/example.png".to_owned(),
        filename: None,
        filesize: None,
        links: None,
        jetpack: None,
    };

    assert_eq!(
        media.timestamp().expect("a timestamp").rendered_in_full(),
        "2026-08-28T21:57:06+00:00"
    );
    assert_eq!(media.jetpack, None);
}
