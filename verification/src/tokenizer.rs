use vstd::prelude::*;
use vstd::string::*;

use crate::attribute::{spec_resolve_attribute, Attribute, SpecAttribute};
use crate::error::{ParseError, SpecParseError};
use crate::tag::{spec_resolve_tag, SpecTag, Tag};

verus! {

/// A lexical unit of the markup: a start tag with its attributes, an end
/// tag, or a maximal run of text.
#[derive(Debug, PartialEq, Eq)]
pub enum Token {
    StartTag(Tag, Vec<Attribute>),
    EndTag(Tag),
    Text(String),
}

/// The mathematical model of a [`Token`].
pub enum SpecToken {
    StartTag(SpecTag, Seq<SpecAttribute>),
    EndTag(SpecTag),
    Text(Seq<char>),
}

/// The views of a sequence of attributes.
pub open spec fn attrs_view(s: Seq<Attribute>) -> Seq<SpecAttribute> {
    s.map_values(|a: Attribute| a@)
}

impl View for Token {
    type V = SpecToken;

    open spec fn view(&self) -> SpecToken {
        match self {
            Token::StartTag(tag, attributes) => SpecToken::StartTag(tag@, attrs_view(attributes@)),
            Token::EndTag(tag) => SpecToken::EndTag(tag@),
            Token::Text(text) => SpecToken::Text(text@),
        }
    }
}

/// Index of the first `<` at or after `i`, or the end of the text.
pub open spec fn scan_text_end(s: Seq<char>, i: int) -> int
    decreases s.len() - i,
{
    if i >= s.len() {
        s.len() as int
    } else if s[i] == '<' {
        i
    } else {
        scan_text_end(s, i + 1)
    }
}

/// Index of the first space or `>` at or after `i`, or the end of the text.
/// Tag names in start tags are delimited by exactly these two characters.
pub open spec fn scan_name_end(s: Seq<char>, i: int) -> int
    decreases s.len() - i,
{
    if i >= s.len() {
        s.len() as int
    } else if s[i] == ' ' || s[i] == '>' {
        i
    } else {
        scan_name_end(s, i + 1)
    }
}

/// Index of the first `>` at or after `i`, or the end of the text.
pub open spec fn scan_gt_end(s: Seq<char>, i: int) -> int
    decreases s.len() - i,
{
    if i >= s.len() {
        s.len() as int
    } else if s[i] == '>' {
        i
    } else {
        scan_gt_end(s, i + 1)
    }
}

/// Index of the first `=` at or after `i`, or the end of the text.
pub open spec fn scan_eq_end(s: Seq<char>, i: int) -> int
    decreases s.len() - i,
{
    if i >= s.len() {
        s.len() as int
    } else if s[i] == '=' {
        i
    } else {
        scan_eq_end(s, i + 1)
    }
}

/// Index of the first `"` at or after `i`, or the end of the text.
pub open spec fn scan_quote_end(s: Seq<char>, i: int) -> int
    decreases s.len() - i,
{
    if i >= s.len() {
        s.len() as int
    } else if s[i] == '"' {
        i
    } else {
        scan_quote_end(s, i + 1)
    }
}

pub proof fn lemma_scan_text_end_bounds(s: Seq<char>, i: int)
    requires
        0 <= i <= s.len(),
    ensures
        i <= scan_text_end(s, i) <= s.len(),
    decreases s.len() - i,
{
    if i < s.len() && s[i] != '<' {
        lemma_scan_text_end_bounds(s, i + 1);
    }
}

pub proof fn lemma_scan_name_end_bounds(s: Seq<char>, i: int)
    requires
        0 <= i <= s.len(),
    ensures
        i <= scan_name_end(s, i) <= s.len(),
    decreases s.len() - i,
{
    if i < s.len() && !(s[i] == ' ' || s[i] == '>') {
        lemma_scan_name_end_bounds(s, i + 1);
    }
}

pub proof fn lemma_scan_gt_end_bounds(s: Seq<char>, i: int)
    requires
        0 <= i <= s.len(),
    ensures
        i <= scan_gt_end(s, i) <= s.len(),
    decreases s.len() - i,
{
    if i < s.len() && s[i] != '>' {
        lemma_scan_gt_end_bounds(s, i + 1);
    }
}

pub proof fn lemma_scan_eq_end_bounds(s: Seq<char>, i: int)
    requires
        0 <= i <= s.len(),
    ensures
        i <= scan_eq_end(s, i) <= s.len(),
    decreases s.len() - i,
{
    if i < s.len() && s[i] != '=' {
        lemma_scan_eq_end_bounds(s, i + 1);
    }
}

pub proof fn lemma_scan_quote_end_bounds(s: Seq<char>, i: int)
    requires
        0 <= i <= s.len(),
    ensures
        i <= scan_quote_end(s, i) <= s.len(),
    decreases s.len() - i,
{
    if i < s.len() && s[i] != '"' {
        lemma_scan_quote_end_bounds(s, i + 1);
    }
}

/// An attribute value starting at `p`: the opening quote at `p` is consumed,
/// the value runs up to the closing quote, which is consumed as well.
/// Fails when the input ends before the value or before its closing quote.
pub open spec fn spec_scan_value(s: Seq<char>, p: int) -> Result<(Seq<char>, int), SpecParseError> {
    if p >= s.len() {
        Err(SpecParseError::UnterminatedAttributeValue)
    } else {
        let q = scan_quote_end(s, p + 1);
        if q >= s.len() {
            Err(SpecParseError::UnterminatedAttributeValue)
        } else {
            Ok((s.subrange(p + 1, q), q + 1))
        }
    }
}

/// One `name="value"` pair starting at `k`: the name runs up to the `=`,
/// which is consumed, then the quoted value follows.
pub open spec fn spec_scan_attribute(s: Seq<char>, k: int) -> Result<
    (SpecAttribute, int),
    SpecParseError,
> {
    let m = scan_eq_end(s, k);
    let p = if m < s.len() {
        m + 1
    } else {
        m
    };
    match spec_scan_value(s, p) {
        Err(e) => Err(e),
        Ok((value, k2)) => Ok((spec_resolve_attribute(s.subrange(k, m), value), k2)),
    }
}

/// The run of attributes inside a start tag, starting at `k`: spaces between
/// pairs are skipped; the scan stops at the closing `>` or at the end of the
/// input without consuming either.
pub open spec fn spec_scan_attributes(s: Seq<char>, k: int) -> Result<
    (Seq<SpecAttribute>, int),
    SpecParseError,
>
    decreases s.len() - k,
{
    if k >= s.len() {
        Ok((Seq::empty(), s.len() as int))
    } else if s[k] == '>' {
        Ok((Seq::empty(), k))
    } else if s[k] == ' ' {
        spec_scan_attributes(s, k + 1)
    } else {
        match spec_scan_attribute(s, k) {
            Err(e) => Err(e),
            Ok((a, k2)) => if k < k2 <= s.len() {
                match spec_scan_attributes(s, k2) {
                    Err(e) => Err(e),
                    Ok((rest, end)) => Ok((seq![a] + rest, end)),
                }
            } else {
                arbitrary()
            },
        }
    }
}

/// The token produced for the tag whose `<` stands at `i`, and the position
/// just past its `>`.
pub open spec fn spec_scan_tag(s: Seq<char>, i: int) -> Result<(SpecToken, int), SpecParseError> {
    if i + 1 < s.len() && s[i + 1] == '/' {
        let j = scan_gt_end(s, i + 2);
        if j >= s.len() {
            Err(SpecParseError::UnterminatedTag)
        } else {
            Ok((SpecToken::EndTag(spec_resolve_tag(s.subrange(i + 2, j))), j + 1))
        }
    } else {
        let j = scan_name_end(s, i + 1);
        if j >= s.len() {
            Err(SpecParseError::UnterminatedTag)
        } else if s[j] == '>' {
            Ok((SpecToken::StartTag(spec_resolve_tag(s.subrange(i + 1, j)), Seq::empty()), j + 1))
        } else {
            // s[j] is the space after the tag name
            match spec_scan_attributes(s, j + 1) {
                Err(e) => Err(e),
                Ok((attrs, k)) => if k >= s.len() {
                    Err(SpecParseError::UnterminatedTag)
                } else {
                    Ok((SpecToken::StartTag(spec_resolve_tag(s.subrange(i + 1, j)), attrs), k + 1))
                },
            }
        }
    }
}

/// The token starting at position `i` (which must be inside the text), and
/// the position just past it.
pub open spec fn spec_next_token(s: Seq<char>, i: int) -> Result<(SpecToken, int), SpecParseError> {
    if s[i] == '<' {
        spec_scan_tag(s, i)
    } else {
        Ok((SpecToken::Text(s.subrange(i, scan_text_end(s, i))), scan_text_end(s, i)))
    }
}

/// The whole token stream from position `i` to the end of the text.
pub open spec fn spec_tokenize_from(s: Seq<char>, i: int) -> Result<Seq<SpecToken>, SpecParseError>
    decreases s.len() - i,
{
    if i >= s.len() {
        Ok(Seq::empty())
    } else {
        match spec_next_token(s, i) {
            Err(e) => Err(e),
            Ok((t, j)) => if i < j <= s.len() {
                match spec_tokenize_from(s, j) {
                    Err(e) => Err(e),
                    Ok(ts) => Ok(seq![t] + ts),
                }
            } else {
                arbitrary()
            },
        }
    }
}

pub proof fn lemma_scan_attribute_bounds(s: Seq<char>, k: int)
    requires
        0 <= k <= s.len(),
    ensures
        match spec_scan_attribute(s, k) {
            Ok((a, k2)) => k < k2 <= s.len(),
            Err(e) => true,
        },
{
    lemma_scan_eq_end_bounds(s, k);
    let m = scan_eq_end(s, k);
    let p = if m < s.len() {
        m + 1
    } else {
        m
    };
    if p < s.len() {
        lemma_scan_quote_end_bounds(s, p + 1);
    }
}

pub proof fn lemma_scan_attributes_bounds(s: Seq<char>, k: int)
    requires
        0 <= k <= s.len(),
    ensures
        match spec_scan_attributes(s, k) {
            Ok((attrs, end)) => k <= end <= s.len() && (end == s.len() || s[end] == '>'),
            Err(e) => true,
        },
    decreases s.len() - k,
{
    if k >= s.len() {
    } else if s[k] == '>' {
    } else if s[k] == ' ' {
        lemma_scan_attributes_bounds(s, k + 1);
    } else {
        lemma_scan_attribute_bounds(s, k);
        match spec_scan_attribute(s, k) {
            Ok((a, k2)) => {
                lemma_scan_attributes_bounds(s, k2);
            },
            Err(_) => {},
        }
    }
}

/// A successful token scan always moves forward and stays inside the text.
pub proof fn lemma_next_token_advances(s: Seq<char>, i: int)
    requires
        0 <= i < s.len(),
    ensures
        match spec_next_token(s, i) {
            Ok((t, j)) => i < j <= s.len(),
            Err(e) => true,
        },
{
    if s[i] == '<' {
        if i + 1 < s.len() && s[i + 1] == '/' {
            lemma_scan_gt_end_bounds(s, i + 2);
        } else {
            lemma_scan_name_end_bounds(s, i + 1);
            let j = scan_name_end(s, i + 1);
            if j < s.len() && s[j] != '>' {
                lemma_scan_attributes_bounds(s, j + 1);
            }
        }
    } else {
        lemma_scan_text_end_bounds(s, i + 1);
    }
}

/// The pull-based scanner: a cursor over the characters of a borrowed text.
pub struct Tokenizer<'a> {
    input: &'a str,
    pos: usize,
    len: usize,
}

impl<'a> Tokenizer<'a> {
    /// The characters being scanned.
    pub closed spec fn text(&self) -> Seq<char> {
        self.input@
    }

    /// The cursor: how many characters have been consumed.
    pub closed spec fn position(&self) -> int {
        self.pos as int
    }

    /// The cached length matches the text and the cursor stays inside it.
    pub closed spec fn wf(&self) -> bool {
        self.len == self.input@.len() && self.pos <= self.len
    }

    /// A well-formed tokenizer's cursor stays inside its text.
    pub proof fn lemma_wf_position(&self)
        requires
            self.wf(),
        ensures
            0 <= self.position() <= self.text().len(),
    {
    }

    pub fn new(input: &'a str) -> (t: Tokenizer<'a>)
        ensures
            t.wf(),
            t.text() == input@,
            t.position() == 0,
    {
        let len: usize = input.unicode_len();
        Tokenizer { input, pos: 0, len }
    }

    /// Consume and return the character under the cursor, if any.
    pub fn next_char(&mut self) -> (c: Option<char>)
        requires
            old(self).wf(),
        ensures
            final(self).wf(),
            final(self).text() == old(self).text(),
            if old(self).position() < old(self).text().len() {
                c == Some(old(self).text()[old(self).position()]) && final(self).position()
                    == old(self).position() + 1
            } else {
                c is None && final(self).position() == old(self).position()
            },
    {
        if self.pos < self.len {
            let c = self.input.get_char(self.pos);
            self.pos = self.pos + 1;
            Some(c)
        } else {
            None
        }
    }

    /// Return the character under the cursor without consuming it.
    pub fn peek_char(&self) -> (c: Option<char>)
        requires
            self.wf(),
        ensures
            c == if self.position() < self.text().len() {
                Some(self.text()[self.position()])
            } else {
                None::<char>
            },
    {
        if self.pos < self.len {
            Some(self.input.get_char(self.pos))
        } else {
            None
        }
    }

    /// Consume the run of text up to (not including) the next `<` or the end
    /// of the input, and return it as a text token.
    pub fn parse_text(&mut self) -> (t: Token)
        requires
            old(self).wf(),
        ensures
            final(self).wf(),
            final(self).text() == old(self).text(),
            old(self).position() <= final(self).position(),
            final(self).position() == scan_text_end(old(self).text(), old(self).position()),
            t@ == SpecToken::Text(
                old(self).text().subrange(old(self).position(), final(self).position()),
            ),
    {
        let start: usize = self.pos;
        while self.pos < self.len && self.input.get_char(self.pos) != '<'
            invariant
                self.wf(),
                self.input@ == old(self).text(),
                start <= self.pos,
                scan_text_end(self.input@, start as int) == scan_text_end(
                    self.input@,
                    self.pos as int,
                ),
            decreases self.len - self.pos,
        {
            self.pos = self.pos + 1;
        }
        let text = self.input.substring_char(start, self.pos).to_owned();
        Token::Text(text)
    }

    /// Consume a tag name: the run up to the next space, `>`, or the end of
    /// the input, resolved against the tag vocabulary.
    pub fn parse_tag_name(&mut self) -> (t: Tag)
        requires
            old(self).wf(),
        ensures
            final(self).wf(),
            final(self).text() == old(self).text(),
            old(self).position() <= final(self).position(),
            final(self).position() == scan_name_end(old(self).text(), old(self).position()),
            t@ == spec_resolve_tag(
                old(self).text().subrange(old(self).position(), final(self).position()),
            ),
    {
        let start: usize = self.pos;
        while self.pos < self.len && self.input.get_char(self.pos) != ' ' && self.input.get_char(
            self.pos,
        ) != '>'
            invariant
                self.wf(),
                self.input@ == old(self).text(),
                start <= self.pos,
                scan_name_end(self.input@, start as int) == scan_name_end(
                    self.input@,
                    self.pos as int,
                ),
            decreases self.len - self.pos,
        {
            self.pos = self.pos + 1;
        }
        let name = self.input.substring_char(start, self.pos);
        Tag::from_str(name)
    }

    /// Consume an attribute name: the run up to (not including) the next `=`
    /// or the end of the input.
    pub fn parse_attribute_name(&mut self) -> (name: String)
        requires
            old(self).wf(),
        ensures
            final(self).wf(),
            final(self).text() == old(self).text(),
            old(self).position() <= final(self).position(),
            final(self).position() == scan_eq_end(old(self).text(), old(self).position()),
            name@ == old(self).text().subrange(old(self).position(), final(self).position()),
    {
        let start: usize = self.pos;
        while self.pos < self.len && self.input.get_char(self.pos) != '='
            invariant
                self.wf(),
                self.input@ == old(self).text(),
                start <= self.pos,
                scan_eq_end(self.input@, start as int) == scan_eq_end(
                    self.input@,
                    self.pos as int,
                ),
            decreases self.len - self.pos,
        {
            self.pos = self.pos + 1;
        }
        self.input.substring_char(start, self.pos).to_owned()
    }

    /// Consume a quoted attribute value: the opening quote, the value up to
    /// the closing quote, and the closing quote itself.
    pub fn parse_attribute_value(&mut self) -> (r: Result<String, ParseError>)
        requires
            old(self).wf(),
        ensures
            final(self).wf(),
            final(self).text() == old(self).text(),
            old(self).position() <= final(self).position(),
            match spec_scan_value(old(self).text(), old(self).position()) {
                Ok((value, k2)) => r matches Ok(v) && v@ == value && final(self).position() == k2
                    && old(self).position() < k2,
                Err(e) => r matches Err(x) && x@ == e,
            },
    {
        if self.pos >= self.len {
            return Err(ParseError::UnterminatedAttributeValue);
        }
        self.pos = self.pos + 1;  // the opening quote
        let start: usize = self.pos;
        while self.pos < self.len && self.input.get_char(self.pos) != '"'
            invariant
                self.wf(),
                self.input@ == old(self).text(),
                start <= self.pos,
                scan_quote_end(self.input@, start as int) == scan_quote_end(
                    self.input@,
                    self.pos as int,
                ),
            decreases self.len - self.pos,
        {
            self.pos = self.pos + 1;
        }
        if self.pos >= self.len {
            return Err(ParseError::UnterminatedAttributeValue);
        }
        let value = self.input.substring_char(start, self.pos).to_owned();
        self.pos = self.pos + 1;  // the closing quote
        Ok(value)
    }

    /// Consume one `name="value"` pair and resolve it against the attribute
    /// vocabulary.
    pub fn parse_attribute(&mut self) -> (r: Result<Attribute, ParseError>)
        requires
            old(self).wf(),
        ensures
            final(self).wf(),
            final(self).text() == old(self).text(),
            old(self).position() <= final(self).position(),
            match spec_scan_attribute(old(self).text(), old(self).position()) {
                Ok((a, k2)) => r matches Ok(x) && x@ == a && final(self).position() == k2 && old(self).position() < k2,
                Err(e) => r matches Err(x) && x@ == e,
            },
    {
        proof {
            lemma_scan_eq_end_bounds(old(self).text(), old(self).position());
        }
        let name = self.parse_attribute_name();
        self.next_char();  // the '='
        let value = match self.parse_attribute_value() {
            Ok(v) => v,
            Err(e) => return Err(e),
        };
        Ok(Attribute::new(name.as_str(), value.as_str()))
    }

    /// Consume the attribute pairs before a closing `>`, skipping spaces.
    /// The closing `>` itself is left unconsumed; reaching the end of the
    /// input without one simply ends the run.
    pub fn parse_attributes(&mut self) -> (r: Result<Vec<Attribute>, ParseError>)
        requires
            old(self).wf(),
        ensures
            final(self).wf(),
            final(self).text() == old(self).text(),
            old(self).position() <= final(self).position(),
            match spec_scan_attributes(old(self).text(), old(self).position()) {
                Ok((attrs, k)) => r matches Ok(v) && attrs_view(v@) == attrs && final(self).position() == k,
                Err(e) => r matches Err(x) && x@ == e,
            },
    {
        let mut attributes: Vec<Attribute> = Vec::new();
        proof {
            match spec_scan_attributes(self.input@, self.pos as int) {
                Ok((rest, end)) => {
                    assert(attrs_view(attributes@) + rest =~= rest);
                },
                Err(_) => {},
            }
        }
        loop
            invariant
                self.wf(),
                self.input@ == old(self).text(),
                old(self).position() <= self.pos,
                spec_scan_attributes(self.input@, old(self).position()) == match spec_scan_attributes(
                    self.input@,
                    self.pos as int,
                ) {
                    Ok((rest, end)) => Ok::<_, SpecParseError>(
                        (attrs_view(attributes@) + rest, end),
                    ),
                    Err(e) => Err(e),
                },
            decreases self.len - self.pos,
        {
            if self.pos >= self.len {
                break;
            }
            let c = self.input.get_char(self.pos);
            if c == '>' {
                break;
            }
            if c == ' ' {
                self.pos = self.pos + 1;
                continue;
            }
            let ghost prev = attrs_view(attributes@);
            let a = match self.parse_attribute() {
                Ok(a) => a,
                Err(e) => return Err(e),
            };
            let ghost aview = a@;
            attributes.push(a);
            proof {
                assert(attrs_view(attributes@) =~= prev.push(aview));
                match spec_scan_attributes(self.input@, self.pos as int) {
                    Ok((rest, end)) => {
                        assert(prev + (seq![aview] + rest) =~= prev.push(aview) + rest);
                    },
                    Err(_) => {},
                }
            }
        }
        proof {
            assert(attrs_view(attributes@) + Seq::<SpecAttribute>::empty() =~= attrs_view(
                attributes@,
            ));
        }
        Ok(attributes)
    }

    /// Consume one whole tag, start or end, beginning at the `<` under the
    /// cursor.
    pub fn parse_tag(&mut self) -> (r: Result<Token, ParseError>)
        requires
            old(self).wf(),
            old(self).position() < old(self).text().len(),
        ensures
            final(self).wf(),
            final(self).text() == old(self).text(),
            match spec_scan_tag(old(self).text(), old(self).position()) {
                Ok((t, j)) => r matches Ok(tok) && tok@ == t && final(self).position() == j && old(self).position() < j,
                Err(e) => r matches Err(x) && x@ == e,
            },
    {
        self.pos = self.pos + 1;  // the '<'
        if self.pos < self.len && self.input.get_char(self.pos) == '/' {
            self.pos = self.pos + 1;  // the '/'
            let start: usize = self.pos;
            while self.pos < self.len && self.input.get_char(self.pos) != '>'
                invariant
                    self.wf(),
                    self.input@ == old(self).text(),
                    start <= self.pos,
                    scan_gt_end(self.input@, start as int) == scan_gt_end(
                        self.input@,
                        self.pos as int,
                    ),
                decreases self.len - self.pos,
            {
                self.pos = self.pos + 1;
            }
            if self.pos >= self.len {
                return Err(ParseError::UnterminatedTag);
            }
            let name = self.input.substring_char(start, self.pos);
            let tag = Tag::from_str(name);
            self.pos = self.pos + 1;  // the '>'
            Ok(Token::EndTag(tag))
        } else {
            let tag = self.parse_tag_name();
            if self.pos >= self.len {
                return Err(ParseError::UnterminatedTag);
            }
            if self.input.get_char(self.pos) == '>' {
                self.pos = self.pos + 1;  // the '>'
                proof {
                    assert(attrs_view(Seq::<Attribute>::empty()) =~= Seq::<SpecAttribute>::empty());
                }
                return Ok(Token::StartTag(tag, Vec::new()));
            }
            self.pos = self.pos + 1;  // the space before the attributes
            let attributes = match self.parse_attributes() {
                Ok(a) => a,
                Err(e) => return Err(e),
            };
            if self.pos >= self.len {
                return Err(ParseError::UnterminatedTag);
            }
            self.pos = self.pos + 1;  // the '>'
            Ok(Token::StartTag(tag, attributes))
        }
    }

    /// Produce the next token, `Ok(None)` at the end of the input, or the
    /// error the scan ran into.
    pub fn next_token(&mut self) -> (r: Result<Option<Token>, ParseError>)
        requires
            old(self).wf(),
        ensures
            final(self).wf(),
            final(self).text() == old(self).text(),
            old(self).position() >= old(self).text().len() ==> (r matches Ok(t) && t is None
                && final(self).position() == old(self).position()),
            old(self).position() < old(self).text().len() ==> match spec_next_token(
                old(self).text(),
                old(self).position(),
            ) {
                Ok((t, j)) => r matches Ok(o) && o matches Some(tok) && tok@ == t && final(self).position() == j && old(self).position() < j,
                Err(e) => r matches Err(x) && x@ == e,
            },
    {
        if self.pos >= self.len {
            return Ok(None);
        }
        if self.input.get_char(self.pos) == '<' {
            match self.parse_tag() {
                Ok(t) => Ok(Some(t)),
                Err(e) => Err(e),
            }
        } else {
            proof {
                lemma_scan_text_end_bounds(self.input@, self.pos + 1);
            }
            let t = self.parse_text();
            Ok(Some(t))
        }
    }
}

} // verus!
