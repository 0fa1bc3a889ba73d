use backlog_mdbook::api::Attachment;
use backlog_mdbook::attachments::{
    has_extension, image_link_of, is_image_extension, is_image_file_name, marker_of, rewrite,
    AttachmentError,
};

fn attachment(id: u32, name: &str) -> Attachment {
    Attachment { id, name: name.to_string(), size: 0 }
}

#[test]
fn image_marker_becomes_a_local_link() {
    let body = "see ![image][pic.png] and ![image][notes.pdf]";
    let attachments = vec![attachment(1, "pic.png"), attachment(2, "notes.pdf")];
    let text = rewrite(body, &attachments, 42).unwrap();
    assert_eq!(text, "see ![pic.png](42/pic.png) and ![image][notes.pdf]");
}

#[test]
fn lone_marker_is_rewritten() {
    let text = rewrite("![image][pic.png]", &vec![attachment(1, "pic.png")], 42).unwrap();
    assert_eq!(text, "![pic.png](42/pic.png)");
}

#[test]
fn every_occurrence_is_rewritten() {
    let body = "![image][a.gif]![image][a.gif]\n![image][a.gif]";
    let text = rewrite(body, &vec![attachment(3, "a.gif")], 7).unwrap();
    assert_eq!(text, "![a.gif](7/a.gif)![a.gif](7/a.gif)\n![a.gif](7/a.gif)");
}

#[test]
fn body_without_markers_is_unchanged() {
    let body = "plain text [image] ![image] [x.png]";
    let text = rewrite(body, &vec![attachment(1, "x.png")], 1).unwrap();
    assert_eq!(text, body);
}

#[test]
fn no_attachments_leave_the_body() {
    let text = rewrite("![image][pic.png]", &Vec::new(), 42).unwrap();
    assert_eq!(text, "![image][pic.png]");
}

#[test]
fn missing_extension_fails() {
    let attachments = vec![attachment(1, "pic.png"), attachment(2, "README"), attachment(3, "LICENSE")];
    match rewrite("![image][pic.png]", &attachments, 42) {
        Err(AttachmentError::MissingExtension(name)) => assert_eq!(name, "README"),
        Ok(text) => panic!("rewrote to {}", text),
    }
}

#[test]
fn missing_extension_message_names_the_file() {
    let error = AttachmentError::MissingExtension("README".to_string());
    assert_eq!(error.message(), "attachment 'README' has no extension");
}

#[test]
fn extension_is_matched_literally() {
    assert!(is_image_file_name("a.png"));
    assert!(is_image_file_name("a.jpg"));
    assert!(is_image_file_name("a.jpeg"));
    assert!(is_image_file_name("a.gif"));
    assert!(is_image_file_name("a.svg"));
    assert!(!is_image_file_name("a.PNG"));
    assert!(!is_image_file_name("a.Jpg"));
    assert!(!is_image_file_name("a.pdf"));
    assert!(!is_image_file_name("png.txt"));
    assert!(is_image_file_name("archive.tar.png"));
}

#[test]
fn image_extensions() {
    assert!(is_image_extension("png"));
    assert!(is_image_extension("svg"));
    assert!(!is_image_extension(""));
    assert!(!is_image_extension("pn"));
    assert!(!is_image_extension("pngx"));
    assert!(!is_image_extension(".png"));
}

#[test]
fn names_with_and_without_extension() {
    assert!(has_extension("pic.png"));
    assert!(has_extension("a.b.c"));
    assert!(!has_extension("README"));
    assert!(!has_extension(""));
    assert!(!has_extension(".hidden"));
}

#[test]
fn upper_case_extension_is_not_rewritten() {
    let body = "![image][PIC.PNG]";
    let text = rewrite(body, &vec![attachment(1, "PIC.PNG")], 5).unwrap();
    assert_eq!(text, body);
}

#[test]
fn marker_and_link_texts() {
    assert_eq!(marker_of("pic.png"), "![image][pic.png]");
    assert_eq!(image_link_of("pic.png", 42), "![pic.png](42/pic.png)");
    assert_eq!(image_link_of("a b.svg", 0), "![a b.svg](0/a b.svg)");
}

#[test]
fn attachments_are_applied_in_order() {
    let body = "![image][a.png]";
    let attachments = vec![attachment(1, "a.png"), attachment(2, "a.png](9/a.png")];
    let text = rewrite(body, &attachments, 9).unwrap();
    assert_eq!(text, "![a.png](9/a.png)");
}
