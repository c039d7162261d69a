use vstd::prelude::*;

verus! {

/// The closed vocabulary of recognized attribute names.
///
/// A recognized variant carries the attribute's value; an unrecognized name
/// resolves to `Unknown`, which keeps both the name and the value so that a
/// tree can be re-emitted as markup.
#[derive(Debug, PartialEq, Eq)]
pub enum Attribute {
    Class(String),
    Id(String),
    Unknown(String, String),
}

/// The mathematical model of an [`Attribute`], over character sequences.
pub enum SpecAttribute {
    Class(Seq<char>),
    Id(Seq<char>),
    Unknown(Seq<char>, Seq<char>),
}

impl View for Attribute {
    type V = SpecAttribute;

    open spec fn view(&self) -> SpecAttribute {
        match self {
            Attribute::Class(value) => SpecAttribute::Class(value@),
            Attribute::Id(value) => SpecAttribute::Id(value@),
            Attribute::Unknown(name, value) => SpecAttribute::Unknown(name@, value@),
        }
    }
}

/// What [`Attribute::new`] returns: an exact, case-sensitive match of the
/// name against the vocabulary, with `Unknown` keeping name and value.
pub open spec fn spec_resolve_attribute(name: Seq<char>, value: Seq<char>) -> SpecAttribute {
    if name == "class"@ {
        SpecAttribute::Class(value)
    } else if name == "id"@ {
        SpecAttribute::Id(value)
    } else {
        SpecAttribute::Unknown(name, value)
    }
}

/// The characters of an attribute's name, as it appears in markup.
pub open spec fn spec_attr_name(a: SpecAttribute) -> Seq<char> {
    match a {
        SpecAttribute::Class(_) => "class"@,
        SpecAttribute::Id(_) => "id"@,
        SpecAttribute::Unknown(name, _) => name,
    }
}

/// The characters of an attribute's value.
pub open spec fn spec_attr_value(a: SpecAttribute) -> Seq<char> {
    match a {
        SpecAttribute::Class(value) => value,
        SpecAttribute::Id(value) => value,
        SpecAttribute::Unknown(_, value) => value,
    }
}

impl Attribute {
    /// Resolve an attribute name/value pair against the vocabulary.
    ///
    /// This is a total function: every pair maps to exactly one variant, and
    /// a name outside the vocabulary never fails, it resolves to `Unknown`.
    pub fn new(attribute: &str, value: &str) -> (a: Attribute)
        ensures
            a@ == spec_resolve_attribute(attribute@, value@),
    {
        if crate::util::str_eq(attribute, "class") {
            Attribute::Class(value.to_owned())
        } else if crate::util::str_eq(attribute, "id") {
            Attribute::Id(value.to_owned())
        } else {
            Attribute::Unknown(attribute.to_owned(), value.to_owned())
        }
    }

    /// The attribute's name as it appears in markup.
    pub fn name(&self) -> (r: &str)
        ensures
            r@ == spec_attr_name(self@),
    {
        match self {
            Attribute::Class(_) => "class",
            Attribute::Id(_) => "id",
            Attribute::Unknown(name, _) => name.as_str(),
        }
    }

    /// The attribute's value.
    pub fn value(&self) -> (r: &str)
        ensures
            r@ == spec_attr_value(self@),
    {
        match self {
            Attribute::Class(value) => value.as_str(),
            Attribute::Id(value) => value.as_str(),
            Attribute::Unknown(_, value) => value.as_str(),
        }
    }
}

} // verus!
