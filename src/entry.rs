//! One catalog entry and its HTML block.
use vstd::prelude::*;
use crate::text::{chars_of, push_chars, push_str, string_of, tag_list};

verus! {

/// One catalog item: a link with its title, description, comma-separated
/// tags and a score (higher ranks first).
pub struct Website {
    pub url: String,
    pub title: String,
    pub description: String,
    pub tags: String,
    pub score: u8,
}

/// The HTML block of an entry with these fields. Fields are inserted as
/// they are, without escaping: the feed is trusted input.
pub open spec fn entry_html(url: Seq<char>, title: Seq<char>, description: Seq<char>) -> Seq<char> {
    "\n<div class=\"website\">\n    <a href=\""@ + url + "\" target=\"_blank\">"@ + title
        + "</a>\n    <p>"@ + description + "</p>\n</div>\n"@
}

impl Website {
    pub fn new(url: String, title: String, description: String, tags: String, score: u8) -> (r: Website)
        ensures
            r.url@ == url@,
            r.title@ == title@,
            r.description@ == description@,
            r.tags@ == tags@,
            r.score == score,
    {
        Website { url, title, description, tags, score }
    }

    /// The HTML block of this entry.
    pub open spec fn html(&self) -> Seq<char> {
        entry_html(self.url@, self.title@, self.description@)
    }

    /// The tags this entry declares, split on commas and trimmed.
    pub open spec fn tag_seq(&self) -> Seq<Seq<char>> {
        tag_list(self.tags@)
    }

    /// A copy with the same fields.
    pub fn duplicate(&self) -> (r: Website)
        ensures
            r == *self,
    {
        Website {
            url: self.url.clone(),
            title: self.title.clone(),
            description: self.description.clone(),
            tags: self.tags.clone(),
            score: self.score,
        }
    }

    /// Appends the HTML block of this entry to `out`.
    pub fn push_html(&self, out: &mut Vec<char>)
        ensures
            final(out)@ == old(out)@ + self.html(),
    {
        let ghost start = out@;
        push_str(out, "\n<div class=\"website\">\n    <a href=\"");
        push_chars(out, &chars_of(self.url.as_str()));
        push_str(out, "\" target=\"_blank\">");
        push_chars(out, &chars_of(self.title.as_str()));
        push_str(out, "</a>\n    <p>");
        push_chars(out, &chars_of(self.description.as_str()));
        push_str(out, "</p>\n</div>\n");
        assert(out@ =~= start + self.html());
    }

    /// The HTML block of this entry: its link and title, then its description.
    pub fn to_html(&self) -> (r: String)
        ensures
            r@ == self.html(),
    {
        let mut out: Vec<char> = Vec::new();
        self.push_html(&mut out);
        assert(out@ =~= self.html());
        string_of(&out)
    }
}

} // verus!
