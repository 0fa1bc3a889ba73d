//! Image references in a page body: which attachments are images, and the
//! links that replace their markers.

use std::path::Path;
use vstd::prelude::*;
use vstd::string::*;
use crate::api::Attachment;
use crate::text::{
    append_decimal, decimal, lemma_replaced_whole, replace_all, replaced, same_text,
};

verus! {

/// The extension of the file name `name`, as `Path::extension` of the
/// standard library reads it; `None` where it finds none.
pub uninterp spec fn path_extension(name: Seq<char>) -> Option<Seq<char>>;

/// Calls `Path::extension` of the standard library on `name` and hands
/// back what it finds as text. The contract only gives the result its
/// name, `path_extension(name)`: which part of a name the standard
/// library takes for the extension is not restated here.
#[verifier::external_body]
pub(crate) fn extension_of(name: &str) -> (ext: Option<String>)
    ensures
        match ext {
            Some(e) => path_extension(name@) == Some(e@),
            None => path_extension(name@) is None,
        },
{
    match Path::new(name).extension() {
        Some(ext) => Some(ext.to_string_lossy().into_owned()),
        None => None,
    }
}

/// Whether `ext` is one of the extensions of an image: `png`, `jpg`,
/// `jpeg`, `gif` or `svg`, in exactly this spelling.
pub open spec fn is_image_ext(ext: Seq<char>) -> bool {
    ext == "png"@ || ext == "jpg"@ || ext == "jpeg"@ || ext == "gif"@ || ext == "svg"@
}

/// Whether `ext` is the extension of an image.
pub fn is_image_extension(ext: &str) -> (image: bool)
    ensures
        image == is_image_ext(ext@),
{
    same_text(ext, "png") || same_text(ext, "jpg") || same_text(ext, "jpeg") || same_text(
        ext,
        "gif",
    ) || same_text(ext, "svg")
}

/// Whether a file name has an extension at all.
pub fn has_extension(file_name: &str) -> (found: bool)
    ensures
        found == path_extension(file_name@) is Some,
{
    extension_of(file_name).is_some()
}

/// Whether `file_name`, which has an extension, names an image.
pub fn is_image_file_name(file_name: &str) -> (image: bool)
    requires
        path_extension(file_name@) is Some,
    ensures
        image == is_image_ext(path_extension(file_name@).unwrap()),
{
    match extension_of(file_name) {
        Some(ext) => is_image_extension(ext.as_str()),
        None => false,
    }
}

/// How a body refers to the attachment `name` before it is rewritten.
pub open spec fn marker(name: Seq<char>) -> Seq<char> {
    "![image]["@ + name + "]"@
}

/// The image link to the local copy of the attachment `name` of the page
/// `page_id`: the copy lies in the directory named by the page's number.
pub open spec fn image_link(name: Seq<char>, page_id: u32) -> Seq<char> {
    "!["@ + name + "]("@ + decimal(page_id as nat) + "/"@ + name + ")"@
}

/// Whether the attachment `name` takes part in the rewriting.
pub open spec fn is_image_name(name: Seq<char>) -> bool {
    match path_extension(name) {
        Some(ext) => is_image_ext(ext),
        None => false,
    }
}

/// The body after the attachments were gone through in their order: for
/// each image among them, every marker of it became its link; the
/// markers of the others stay.
pub open spec fn rewritten(body: Seq<char>, attachments: Seq<Attachment>, page_id: u32) -> Seq<
    char,
>
    decreases attachments.len(),
{
    if attachments.len() == 0 {
        body
    } else {
        let before = rewritten(body, attachments.drop_last(), page_id);
        let name = attachments.last().name@;
        if is_image_name(name) {
            replaced(before, marker(name), image_link(name, page_id))
        } else {
            before
        }
    }
}

/// Attachments that are no images change nothing: where none of them is
/// an image, the body stays as it is, markers included.
pub proof fn lemma_only_images_are_rewritten(
    body: Seq<char>,
    attachments: Seq<Attachment>,
    page_id: u32,
)
    requires
        forall|i: int|
            0 <= i < attachments.len() ==> !is_image_name((#[trigger] attachments[i]).name@),
    ensures
        rewritten(body, attachments, page_id) == body,
    decreases attachments.len(),
{
    if attachments.len() > 0 {
        let earlier = attachments.drop_last();
        assert(attachments.last() == attachments[attachments.len() - 1]);
        assert forall|i: int| 0 <= i < earlier.len() implies !is_image_name(
            (#[trigger] earlier[i]).name@,
        ) by {
            assert(earlier[i] == attachments[i]);
        }
        lemma_only_images_are_rewritten(body, earlier, page_id);
    }
}

/// The marker of an image, alone in a body, becomes the link to the
/// local copy of the image.
pub proof fn lemma_marker_becomes_link(attachment: Attachment, page_id: u32)
    requires
        is_image_name(attachment.name@),
    ensures
        rewritten(marker(attachment.name@), seq![attachment], page_id) == image_link(
            attachment.name@,
            page_id,
        ),
{
    let name = attachment.name@;
    let attachments = seq![attachment];
    reveal_strlit("]");
    assert(marker(name).len() > 0);
    assert(attachments.drop_last() =~= Seq::<Attachment>::empty());
    assert(rewritten(marker(name), attachments.drop_last(), page_id) == marker(name));
    lemma_replaced_whole(marker(name), image_link(name, page_id));
}

/// Why the attachments of a page could not be gone through.
#[derive(Debug)]
pub enum AttachmentError {
    /// The file name has no extension, so it cannot be told whether it is
    /// an image.
    MissingExtension(String),
}

impl AttachmentError {
    /// The error in words.
    pub fn message(&self) -> (text: String)
        ensures
            match self {
                AttachmentError::MissingExtension(name) => text@
                    == "attachment '"@ + name@ + "' has no extension"@,
            },
    {
        match self {
            AttachmentError::MissingExtension(name) => {
                let mut text = String::from_str("attachment '");
                text.append(name.as_str());
                text.append("' has no extension");
                text
            },
        }
    }
}

/// The marker of the attachment `name`.
pub fn marker_of(name: &str) -> (text: String)
    ensures
        text@ == marker(name@),
{
    let mut text = String::from_str("![image][");
    text.append(name);
    text.append("]");
    text
}

/// The image link to the local copy of the attachment `name`.
pub fn image_link_of(name: &str, page_id: u32) -> (text: String)
    ensures
        text@ == image_link(name@, page_id),
{
    let mut text = String::from_str("![");
    text.append(name);
    text.append("](");
    append_decimal(&mut text, page_id as u64);
    text.append("/");
    text.append(name);
    text.append(")");
    text
}

/// Rewrites the image references of a page body.
///
/// Succeeds exactly when every attachment has an extension, with the body
/// in which the markers of the images became links. Otherwise the error
/// names the first attachment without one.
pub fn rewrite(body: &str, attachments: &Vec<Attachment>, page_id: u32) -> (result: Result<
    String,
    AttachmentError,
>)
    ensures
        match result {
            Ok(text) => {
                &&& forall|i: int|
                    0 <= i < attachments.len() ==> path_extension(
                        (#[trigger] attachments[i]).name@,
                    ) is Some
                &&& text@ == rewritten(body@, attachments@, page_id)
            },
            Err(AttachmentError::MissingExtension(name)) => exists|i: int|
                {
                    &&& 0 <= i < attachments.len()
                    &&& path_extension((#[trigger] attachments[i]).name@) is None
                    &&& forall|j: int|
                        0 <= j < i ==> path_extension((#[trigger] attachments[j]).name@) is Some
                    &&& name@ == attachments[i].name@
                },
        },
{
    let mut content = String::from_str(body);
    let mut i: usize = 0;
    while i < attachments.len()
        invariant
            i <= attachments.len(),
            forall|j: int|
                0 <= j < i ==> path_extension((#[trigger] attachments[j]).name@) is Some,
            content@ == rewritten(body@, attachments@.take(i as int), page_id),
        decreases attachments.len() - i,
    {
        let name = attachments[i].name.as_str();
        if !has_extension(name) {
            return Err(AttachmentError::MissingExtension(attachments[i].name.clone()));
        }
        proof {
            assert(attachments@.take(i + 1).drop_last() =~= attachments@.take(i as int));
        }
        if is_image_file_name(name) {
            let pattern = marker_of(name);
            let link = image_link_of(name, page_id);
            content = replace_all(content.as_str(), pattern.as_str(), link.as_str());
        }
        i += 1;
    }
    assert(attachments@.take(i as int) =~= attachments@);
    Ok(content)
}

} // verus!
