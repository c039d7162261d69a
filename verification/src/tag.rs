use vstd::prelude::*;

verus! {

/// The closed vocabulary of recognized tag names.
///
/// Any name outside the vocabulary resolves to `Unknown`, which keeps the
/// original name so that a tree can be re-emitted as markup.
#[derive(Debug, PartialEq, Eq)]
pub enum Tag {
    Html,
    Head,
    Title,
    Body,
    H1,
    P,
    Unknown(String),
}

/// The mathematical model of a [`Tag`]: the same variants with the unknown
/// name as a sequence of characters.
pub enum SpecTag {
    Html,
    Head,
    Title,
    Body,
    H1,
    P,
    Unknown(Seq<char>),
}

impl View for Tag {
    type V = SpecTag;

    open spec fn view(&self) -> SpecTag {
        match self {
            Tag::Html => SpecTag::Html,
            Tag::Head => SpecTag::Head,
            Tag::Title => SpecTag::Title,
            Tag::Body => SpecTag::Body,
            Tag::H1 => SpecTag::H1,
            Tag::P => SpecTag::P,
            Tag::Unknown(name) => SpecTag::Unknown(name@),
        }
    }
}

/// What [`Tag::from_str`] returns: an exact, case-sensitive match against the
/// vocabulary, with `Unknown` keeping the unmatched name.
pub open spec fn spec_resolve_tag(name: Seq<char>) -> SpecTag {
    if name == "html"@ {
        SpecTag::Html
    } else if name == "head"@ {
        SpecTag::Head
    } else if name == "title"@ {
        SpecTag::Title
    } else if name == "body"@ {
        SpecTag::Body
    } else if name == "h1"@ {
        SpecTag::H1
    } else if name == "p"@ {
        SpecTag::P
    } else {
        SpecTag::Unknown(name)
    }
}

/// The characters of a tag's name, as it appears in markup.
pub open spec fn spec_tag_chars(t: SpecTag) -> Seq<char> {
    match t {
        SpecTag::Html => "html"@,
        SpecTag::Head => "head"@,
        SpecTag::Title => "title"@,
        SpecTag::Body => "body"@,
        SpecTag::H1 => "h1"@,
        SpecTag::P => "p"@,
        SpecTag::Unknown(name) => name,
    }
}

impl Tag {
    /// Resolve a tag name against the vocabulary.
    ///
    /// This is a total function: every name maps to exactly one variant, and
    /// a name outside the vocabulary never fails, it resolves to `Unknown`.
    pub fn from_str(tag: &str) -> (t: Tag)
        ensures
            t@ == spec_resolve_tag(tag@),
    {
        if crate::util::str_eq(tag, "html") {
            Tag::Html
        } else if crate::util::str_eq(tag, "head") {
            Tag::Head
        } else if crate::util::str_eq(tag, "title") {
            Tag::Title
        } else if crate::util::str_eq(tag, "body") {
            Tag::Body
        } else if crate::util::str_eq(tag, "h1") {
            Tag::H1
        } else if crate::util::str_eq(tag, "p") {
            Tag::P
        } else {
            Tag::Unknown(tag.to_owned())
        }
    }

    /// The tag's name as it appears in markup.
    pub fn name(&self) -> (r: &str)
        ensures
            r@ == spec_tag_chars(self@),
    {
        match self {
            Tag::Html => "html",
            Tag::Head => "head",
            Tag::Title => "title",
            Tag::Body => "body",
            Tag::H1 => "h1",
            Tag::P => "p",
            Tag::Unknown(name) => name.as_str(),
        }
    }

    /// Whether two tags are the same, unknown names included.
    pub fn same_as(&self, other: &Tag) -> (r: bool)
        ensures
            r == (self@ == other@),
    {
        match (self, other) {
            (Tag::Html, Tag::Html) => true,
            (Tag::Head, Tag::Head) => true,
            (Tag::Title, Tag::Title) => true,
            (Tag::Body, Tag::Body) => true,
            (Tag::H1, Tag::H1) => true,
            (Tag::P, Tag::P) => true,
            (Tag::Unknown(a), Tag::Unknown(b)) => crate::util::str_eq(a.as_str(), b.as_str()),
            _ => false,
        }
    }
}

} // verus!
