//! The wiki of a space on its own: the list of pages and one page.

use vstd::prelude::*;
use vstd::string::*;
use crate::api::{append_page_prefix, entries_address, page_address};

verus! {

/// The space of the service and the key that opens it.
pub struct Wiki {
    apikey: String,
    space: String,
}

/// A page as the list of a project's pages names it.
#[derive(Debug)]
pub struct PageInfo {
    pub id: u64,
    pub name: String,
}

/// A page with its body.
#[derive(Debug)]
pub struct Page {
    pub id: u64,
    pub project_id: u64,
    pub name: String,
    pub content: String,
}

impl Wiki {
    /// The host name of the space.
    pub closed spec fn space(&self) -> Seq<char> {
        self.space@
    }

    /// The key sent with every request.
    pub closed spec fn apikey(&self) -> Seq<char> {
        self.apikey@
    }

    /// An access to the wiki of `space` with `apikey`.
    pub fn new(space: &String, apikey: &String) -> (wiki: Wiki)
        ensures
            wiki.space() == space@,
            wiki.apikey() == apikey@,
    {
        Wiki { space: space.clone(), apikey: apikey.clone() }
    }

    /// The address of the list of the pages of `project`.
    pub fn entries_url(&self, project: &String) -> (url: String)
        ensures
            url@ == entries_address(self.space(), self.apikey(), project@),
    {
        let mut url = String::new();
        url.append("https://");
        url.append(self.space.as_str());
        url.append("/api/v2/wikis?apiKey=");
        url.append(self.apikey.as_str());
        url.append("&projectIdOrKey=");
        url.append(project.as_str());
        assert(url@ =~= entries_address(self.space(), self.apikey(), project@));
        url
    }

    /// The address of the page `id`.
    pub fn page_url(&self, id: u64) -> (url: String)
        ensures
            url@ == page_address(self.space(), id as nat, self.apikey()),
    {
        let mut url = String::new();
        append_page_prefix(&mut url, self.space.as_str(), id);
        url.append("?apiKey=");
        url.append(self.apikey.as_str());
        assert(url@ =~= page_address(self.space(), id as nat, self.apikey()));
        url
    }
}

} // verus!
