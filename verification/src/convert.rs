//! What the conversion of a project decides between its requests: whether
//! the project can be converted, which files are replaced, and where a
//! page and its attachments go.

use vstd::prelude::*;
use vstd::string::*;
use crate::api::Project;
use crate::attachments::{extension_of, path_extension};
use crate::text::{append_decimal, decimal, same_text};

verus! {

/// Whether the pages of `project` are written in markdown: only then can
/// the project be converted.
pub fn uses_markdown(project: &Project) -> (markdown: bool)
    ensures
        markdown == (project.text_formatting_rule@ == "markdown"@),
{
    same_text(project.text_formatting_rule.as_str(), "markdown")
}

/// What is reported for a project that is not written in markdown.
pub fn formatting_rule_message(project: &Project) -> (text: String)
    ensures
        text@ == "project "@ + project.project_key@ + "'s text format rule is not 'markdown' ("@
            + project.text_formatting_rule@ + ")."@,
{
    let mut text = String::from_str("project ");
    text.append(project.project_key.as_str());
    text.append("'s text format rule is not 'markdown' (");
    text.append(project.text_formatting_rule.as_str());
    text.append(").");
    text
}

/// What is reported for a host name that is no space of the service.
pub fn invalid_domain_message(domain: &str) -> (text: String)
    ensures
        text@ == "invalid Backlog domain: "@ + domain@,
{
    let mut text = String::from_str("invalid Backlog domain: ");
    text.append(domain);
    text
}

/// Whether `path` names a markdown file, that is, has the extension `md`.
/// Such files of an earlier run are removed before the pages are written.
pub fn is_markdown_file(path: &str) -> (markdown: bool)
    ensures
        markdown == (path_extension(path@) == Some("md"@)),
{
    match extension_of(path) {
        Some(ext) => same_text(ext.as_str(), "md"),
        None => false,
    }
}

/// The name of the file that the page `id` is written to. The table of
/// contents links to the page under this name.
pub open spec fn page_file(id: u32) -> Seq<char> {
    decimal(id as nat) + ".md"@
}

/// The name of the file that the page `id` is written to.
pub fn page_file_name(id: u32) -> (name: String)
    ensures
        name@ == page_file(id),
{
    let mut name = String::new();
    append_decimal(&mut name, id as u64);
    name.append(".md");
    name
}

/// The name of the directory, beside the pages, that holds the copies of
/// the attachments of the page `id`. The rewritten image links lead into
/// it.
pub fn asset_dir_name(id: u32) -> (name: String)
    ensures
        name@ == decimal(id as nat),
{
    let mut name = String::new();
    append_decimal(&mut name, id as u64);
    name
}

} // verus!
