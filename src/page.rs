use vstd::prelude::*;

verus! {

/// One content item, a blog post or a static page.
#[derive(PartialEq, Eq, Debug)]
pub struct Page {
    pub title: String,
    pub description: String,
    /// The raw, unconverted markdown body.
    pub markdown: String,
    /// The display-formatted publish date.
    pub date: String,
    pub author: Option<String>,
    pub author_image: String,
    /// The cover image; without one no cover image is rendered.
    pub image: Option<String>,
    /// The page's unique slug, from which its permalink is derived.
    pub folder: String,
    /// The category hint; an empty hint puts the page in the default category.
    pub category: String,
}

/// The site-relative path of the page stored under `folder`.
pub open spec fn permalink_of(folder: Seq<char>) -> Seq<char> {
    seq!['/'] + folder
}

fn clone_opt(s: &Option<String>) -> (r: Option<String>)
    ensures
        r == *s,
{
    match s {
        Some(v) => Some(v.clone()),
        None => None,
    }
}

impl Clone for Page {
    fn clone(&self) -> (r: Self)
        ensures
            r == *self,
    {
        Page {
            title: self.title.clone(),
            description: self.description.clone(),
            markdown: self.markdown.clone(),
            date: self.date.clone(),
            author: clone_opt(&self.author),
            author_image: self.author_image.clone(),
            image: clone_opt(&self.image),
            folder: self.folder.clone(),
            category: self.category.clone(),
        }
    }
}

impl Page {
    /// The canonical path of this page: `/` followed by its folder.
    pub fn permalink(&self) -> (r: String)
        ensures
            r@ == permalink_of(self.folder@),
    {
        let mut r = String::from_str("/");
        proof {
            reveal_strlit("/");
        }
        r.append(self.folder.as_str());
        r
    }

    /// The cover image path, or the empty string when the page has none.
    pub fn cover_image(&self) -> (r: &str)
        ensures
            r@ == match self.image {
                Some(i) => i@,
                None => Seq::<char>::empty(),
            },
    {
        match &self.image {
            Some(i) => i.as_str(),
            None => {
                proof {
                    reveal_strlit("");
                }
                ""
            },
        }
    }
}

/// A permalink is never empty and always starts with `/`.
pub proof fn lemma_permalink_well_formed(folder: Seq<char>)
    ensures
        permalink_of(folder).len() >= 1,
        permalink_of(folder)[0] == '/',
{
}

/// A permalink depends on the folder alone, and two pages share one exactly
/// when they share a folder.
pub proof fn lemma_permalink_stable(a: Page, b: Page)
    ensures
        a.folder@ == b.folder@ ==> permalink_of(a.folder@) == permalink_of(b.folder@),
        permalink_of(a.folder@) == permalink_of(b.folder@) ==> a.folder@ == b.folder@,
{
    if permalink_of(a.folder@) == permalink_of(b.folder@) {
        assert(a.folder@ =~= permalink_of(a.folder@).subrange(1, permalink_of(a.folder@).len() as int));
        assert(b.folder@ =~= permalink_of(b.folder@).subrange(1, permalink_of(b.folder@).len() as int));
    }
}

} // verus!
