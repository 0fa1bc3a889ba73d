//! The book project that the pages are written into.

use vstd::prelude::*;
use vstd::string::*;

verus! {

/// Why a book could not be set up or built.
#[derive(Debug)]
pub enum BookError {
    /// The directory of the book is there already.
    DirectoryExists(String),
    /// The file system refused; `source` is what it said.
    Io { source: String },
    /// The book generator failed; `source` is what it said.
    MdBookError { source: String },
}

impl BookError {
    /// The error in words.
    pub fn message(&self) -> (text: String)
        ensures
            text@ == match self {
                BookError::DirectoryExists(dir) => " '"@ + dir@ + "' is already used"@,
                BookError::Io { source } => "io error "@ + source@,
                BookError::MdBookError { source } => "mdbook error "@ + source@,
            },
    {
        match self {
            BookError::DirectoryExists(dir) => {
                let mut text = String::from_str(" '");
                text.append(dir.as_str());
                text.append("' is already used");
                text
            },
            BookError::Io { source } => {
                let mut text = String::from_str("io error ");
                text.append(source.as_str());
                text
            },
            BookError::MdBookError { source } => {
                let mut text = String::from_str("mdbook error ");
                text.append(source.as_str());
                text
            },
        }
    }
}

/// What setting up a new book takes: the directory to create, the title
/// to put in its configuration, and which of the generator's extras to
/// lay out beside the sources.
#[derive(Debug)]
pub struct BookPlan {
    pub dir: String,
    pub title: String,
    pub create_gitignore: bool,
    pub copy_theme: bool,
}

/// Decides how the book `title` is set up in `dir`, given whether `dir`
/// is there already.
///
/// A directory that exists is never written into: the answer is then
/// `DirectoryExists` with the directory's name. Otherwise the book is
/// laid out in `dir` under `title`, with an ignore file and the theme.
pub fn create(dir: &str, title: &str, exists: bool) -> (result: Result<BookPlan, BookError>)
    ensures
        exists ==> (result matches Err(BookError::DirectoryExists(used)) && used@ == dir@),
        !exists ==> (result matches Ok(plan) && plan.dir@ == dir@ && plan.title@ == title@
            && plan.create_gitignore && plan.copy_theme),
{
    if exists {
        return Err(BookError::DirectoryExists(String::from_str(dir)));
    }
    Ok(
        BookPlan {
            dir: String::from_str(dir),
            title: String::from_str(title),
            create_gitignore: true,
            copy_theme: true,
        },
    )
}

} // verus!
