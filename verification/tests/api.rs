use backlog_mdbook::api::{new, Attachment, Page};
use backlog_mdbook::wiki::Wiki;

fn api() -> backlog_mdbook::api::BacklogApi {
    new(&"example.backlog.com".to_string(), &"KEY123".to_string())
}

fn attachment(id: u32, name: &str) -> Attachment {
    Attachment { id, name: name.to_string(), size: 10 }
}

#[test]
fn project_url_names_space_key_and_apikey() {
    assert_eq!(
        api().project_url("DOCS"),
        "https://example.backlog.com/api/v2/projects/DOCS?apiKey=KEY123"
    );
}

#[test]
fn entries_url_names_the_project() {
    assert_eq!(
        api().entries_url(&"DOCS".to_string()),
        "https://example.backlog.com/api/v2/wikis?apiKey=KEY123&projectIdOrKey=DOCS"
    );
}

#[test]
fn page_url_writes_the_id_in_decimal() {
    assert_eq!(api().page_url(0), "https://example.backlog.com/api/v2/wikis/0?apiKey=KEY123");
    assert_eq!(api().page_url(907), "https://example.backlog.com/api/v2/wikis/907?apiKey=KEY123");
    assert_eq!(
        api().page_url(u32::MAX),
        "https://example.backlog.com/api/v2/wikis/4294967295?apiKey=KEY123"
    );
}

#[test]
fn attachments_url_of_a_page() {
    assert_eq!(
        api().attachments_url(15),
        "https://example.backlog.com/api/v2/wikis/15/attachments?apiKey=KEY123"
    );
}

#[test]
fn attachment_url_of_one_file() {
    assert_eq!(
        api().attachment_url(15, &attachment(1000, "pic.png")),
        "https://example.backlog.com/api/v2/wikis/15/attachments/1000?apiKey=KEY123"
    );
}

#[test]
fn downloads_follow_the_attachments() {
    let page = Page {
        id: 8,
        project_id: 77,
        name: "home".to_string(),
        content: String::new(),
        attachments: vec![attachment(3, "a.png"), attachment(4, "b.pdf")],
        shared_files: Vec::new(),
    };
    let downloads = api().download_all_attachments(&page, "book/src/8");
    assert_eq!(downloads.len(), 2);
    assert_eq!(
        downloads[0].url,
        "https://example.backlog.com/api/v2/wikis/8/attachments/3?apiKey=KEY123"
    );
    assert_eq!(downloads[0].dir, "book/src/8");
    assert_eq!(downloads[0].name, "a.png");
    assert_eq!(
        downloads[1].url,
        "https://example.backlog.com/api/v2/wikis/8/attachments/4?apiKey=KEY123"
    );
    assert_eq!(downloads[1].dir, "book/src/8");
    assert_eq!(downloads[1].name, "b.pdf");
}

#[test]
fn page_without_attachments_needs_no_download() {
    let page = Page {
        id: 8,
        project_id: 77,
        name: "home".to_string(),
        content: "text".to_string(),
        attachments: Vec::new(),
        shared_files: Vec::new(),
    };
    assert!(api().download_all_attachments(&page, "out").is_empty());
}

#[test]
fn wiki_urls() {
    let wiki = Wiki::new(&"team.backlog.jp".to_string(), &"abc".to_string());
    assert_eq!(
        wiki.entries_url(&"PRJ".to_string()),
        "https://team.backlog.jp/api/v2/wikis?apiKey=abc&projectIdOrKey=PRJ"
    );
    assert_eq!(wiki.page_url(12), "https://team.backlog.jp/api/v2/wikis/12?apiKey=abc");
    assert_eq!(
        wiki.page_url(u64::MAX),
        "https://team.backlog.jp/api/v2/wikis/18446744073709551615?apiKey=abc"
    );
}
