//! The records of the remote service and the addresses they are fetched
//! from.

use vstd::prelude::*;
use vstd::string::*;
use crate::text::{append_decimal, decimal};

verus! {

/// A project of the service.
#[derive(Debug)]
pub struct Project {
    pub id: u32,
    pub project_key: String,
    pub name: String,
    pub text_formatting_rule: String,
}

/// A page as the list of a project's pages names it.
#[derive(Debug)]
pub struct PageInfo {
    pub id: u32,
    pub name: String,
}

/// A page with its body.
#[derive(Debug)]
pub struct Page {
    pub id: u32,
    pub project_id: u64,
    pub name: String,
    pub content: String,
    pub attachments: Vec<Attachment>,
    pub shared_files: Vec<SharedFile>,
}

/// A file attached to a page. The body refers to it by `name`, and the
/// local copy is stored under that name.
#[derive(Debug)]
pub struct Attachment {
    pub id: u32,
    pub name: String,
    pub size: usize,
}

/// A file of the project's shared storage that a page links to.
#[derive(Debug)]
pub struct SharedFile {
    pub id: u32,
    pub project_id: u32,
    pub file_type: String,
    pub dir: String,
    pub name: String,
    pub size: usize,
}

/// Where the record of the project `key` is fetched from.
pub open spec fn project_address(space: Seq<char>, key: Seq<char>, apikey: Seq<char>) -> Seq<
    char,
> {
    "https://"@ + space + "/api/v2/projects/"@ + key + "?apiKey="@ + apikey
}

/// Where the list of the pages of `project` is fetched from.
pub open spec fn entries_address(
    space: Seq<char>,
    apikey: Seq<char>,
    project: Seq<char>,
) -> Seq<char> {
    "https://"@ + space + "/api/v2/wikis?apiKey="@ + apikey + "&projectIdOrKey="@ + project
}

/// Where the page `id` is fetched from.
pub open spec fn page_address(space: Seq<char>, id: nat, apikey: Seq<char>) -> Seq<char> {
    "https://"@ + space + "/api/v2/wikis/"@ + decimal(id) + "?apiKey="@ + apikey
}

/// Where the list of the attachments of the page `id` is fetched from.
pub open spec fn attachments_address(space: Seq<char>, id: nat, apikey: Seq<char>) -> Seq<char> {
    "https://"@ + space + "/api/v2/wikis/"@ + decimal(id) + "/attachments?apiKey="@ + apikey
}

/// Where the attachment `attachment_id` of the page `page_id` is fetched
/// from.
pub open spec fn attachment_address(
    space: Seq<char>,
    page_id: nat,
    attachment_id: nat,
    apikey: Seq<char>,
) -> Seq<char> {
    "https://"@ + space + "/api/v2/wikis/"@ + decimal(page_id) + "/attachments/"@ + decimal(
        attachment_id,
    ) + "?apiKey="@ + apikey
}

/// Writes the address of the page `id`, up to its number, behind `out`.
pub fn append_page_prefix(out: &mut String, space: &str, id: u64)
    ensures
        final(out)@ == old(out)@ + "https://"@ + space@ + "/api/v2/wikis/"@ + decimal(id as nat),
{
    out.append("https://");
    out.append(space);
    out.append("/api/v2/wikis/");
    append_decimal(out, id);
}

/// The space of the service and the key that opens it.
pub struct BacklogApi {
    apikey: String,
    space: String,
}

/// An access to `space` with `apikey`.
pub fn new(space: &String, apikey: &String) -> (api: BacklogApi)
    ensures
        api.space() == space@,
        api.apikey() == apikey@,
{
    BacklogApi { space: space.clone(), apikey: apikey.clone() }
}

/// One file to fetch and where to store it: what `url` returns is to be
/// written to the file `name` in the directory `dir`.
#[derive(Debug)]
pub struct Download {
    pub url: String,
    pub dir: String,
    pub name: String,
}

impl BacklogApi {
    /// The host name of the space.
    pub closed spec fn space(&self) -> Seq<char> {
        self.space@
    }

    /// The key sent with every request.
    pub closed spec fn apikey(&self) -> Seq<char> {
        self.apikey@
    }

    /// The address of the record of the project `key`.
    pub fn project_url(&self, key: &str) -> (url: String)
        ensures
            url@ == project_address(self.space(), key@, self.apikey()),
    {
        let mut url = String::new();
        url.append("https://");
        url.append(self.space.as_str());
        url.append("/api/v2/projects/");
        url.append(key);
        url.append("?apiKey=");
        url.append(self.apikey.as_str());
        assert(url@ =~= project_address(self.space(), key@, self.apikey()));
        url
    }

    /// The address of the list of the pages of `project`.
    pub fn entries_url(&self, project: &String) -> (url: String)
        ensures
            url@ == entries_address(self.space(), self.apikey(), project@),
    {
        let mut url = String::new();
        url.append("https://");
        url.append(self.space.as_str());
        url.append("/api/v2/wikis?apiKey=");
        url.append(self.apikey.as_str());
        url.append("&projectIdOrKey=");
        url.append(project.as_str());
        assert(url@ =~= entries_address(self.space(), self.apikey(), project@));
        url
    }

    /// The address of the page `id`.
    pub fn page_url(&self, id: u32) -> (url: String)
        ensures
            url@ == page_address(self.space(), id as nat, self.apikey()),
    {
        let mut url = String::new();
        append_page_prefix(&mut url, self.space.as_str(), id as u64);
        url.append("?apiKey=");
        url.append(self.apikey.as_str());
        assert(url@ =~= page_address(self.space(), id as nat, self.apikey()));
        url
    }

    /// The address of the list of the attachments of the page `id`.
    pub fn attachments_url(&self, id: u32) -> (url: String)
        ensures
            url@ == attachments_address(self.space(), id as nat, self.apikey()),
    {
        let mut url = String::new();
        append_page_prefix(&mut url, self.space.as_str(), id as u64);
        url.append("/attachments?apiKey=");
        url.append(self.apikey.as_str());
        assert(url@ =~= attachments_address(self.space(), id as nat, self.apikey()));
        url
    }

    /// The address of one attachment of the page `page_id`.
    pub fn attachment_url(&self, page_id: u32, attachment: &Attachment) -> (url: String)
        ensures
            url@ == attachment_address(
                self.space(),
                page_id as nat,
                attachment.id as nat,
                self.apikey(),
            ),
    {
        let mut url = String::new();
        append_page_prefix(&mut url, self.space.as_str(), page_id as u64);
        url.append("/attachments/");
        append_decimal(&mut url, attachment.id as u64);
        url.append("?apiKey=");
        url.append(self.apikey.as_str());
        assert(url@ =~= attachment_address(
            self.space(),
            page_id as nat,
            attachment.id as nat,
            self.apikey(),
        ));
        url
    }

    /// What is to be fetched so that every attachment of `page` has a copy
    /// in `dir`: one download for each attachment, in the page's order,
    /// stored under the attachment's own name.
    pub fn download_all_attachments(&self, page: &Page, dir: &str) -> (downloads: Vec<Download>)
        ensures
            downloads.len() == page.attachments.len(),
            forall|i: int|
                0 <= i < downloads.len() ==> {
                    &&& (#[trigger] downloads[i]).url@ == attachment_address(
                        self.space(),
                        page.id as nat,
                        page.attachments[i].id as nat,
                        self.apikey(),
                    )
                    &&& downloads[i].dir@ == dir@
                    &&& downloads[i].name@ == page.attachments[i].name@
                },
    {
        let mut downloads: Vec<Download> = Vec::new();
        let mut i: usize = 0;
        while i < page.attachments.len()
            invariant
                i <= page.attachments.len(),
                downloads.len() == i,
                forall|k: int|
                    0 <= k < i ==> {
                        &&& (#[trigger] downloads[k]).url@ == attachment_address(
                            self.space(),
                            page.id as nat,
                            page.attachments[k].id as nat,
                            self.apikey(),
                        )
                        &&& downloads[k].dir@ == dir@
                        &&& downloads[k].name@ == page.attachments[k].name@
                    },
            decreases page.attachments.len() - i,
        {
            let attachment = &page.attachments[i];
            downloads.push(
                Download {
                    url: self.attachment_url(page.id, attachment),
                    dir: String::from_str(dir),
                    name: attachment.name.clone(),
                },
            );
            i += 1;
        }
        downloads
    }
}

} // verus!
