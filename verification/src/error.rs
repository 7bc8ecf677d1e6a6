use vstd::prelude::*;

pub use xmlparser::Error as XmlError;
pub use xmlparser::{StreamError, TextPos, TokenType};

verus! {

/// Error that can happen during hot-reload - stringified, since it is only used for printing.
pub type SyntaxError = String;

/// Error that can happen when compiling XML components to Rust code - a string, since it is
/// only used for printing.
pub type CompileError = String;

/// The error type of xmlparser, carried through unopened.
#[verifier::external_type_specification]
#[verifier::external_body]
pub struct ExXmlParserError(xmlparser::Error);

/// An error of parsing XML or of expanding or rendering its components.
#[derive(Debug)]
pub enum XmlParseError {
    /// No `<app></app>` root component present
    NoRootComponent,
    /// The DOM can only have one root component, not multiple.
    MultipleRootComponents,
    /// A `<component>` node does not have a `name` attribute.
    ComponentWithoutName,
    /// A node names no known component.
    UnknownComponent(String),
    /// The tokenizer rejected the text.
    ParseError(XmlError),
    /// Invalid hierarchy close tags, i.e `</p>` where `</app>` was expected: the tag that
    /// was found, then the tag that was expected.
    MalformedHierarchy(String, String),
    /// A component raised an error while rendering the DOM: the component's name and the error.
    RenderDomError(String, String),
}

/// Model of `XmlParseError`, without the tokenizer's error value.
pub enum SpecXmlParseError {
    NoRootComponent,
    MultipleRootComponents,
    ComponentWithoutName,
    UnknownComponent(Seq<char>),
    ParseError,
    MalformedHierarchy(Seq<char>, Seq<char>),
    RenderDomError(Seq<char>, Seq<char>),
}

impl View for XmlParseError {
    type V = SpecXmlParseError;

    open spec fn view(&self) -> SpecXmlParseError {
        match self {
            XmlParseError::NoRootComponent => SpecXmlParseError::NoRootComponent,
            XmlParseError::MultipleRootComponents => SpecXmlParseError::MultipleRootComponents,
            XmlParseError::ComponentWithoutName => SpecXmlParseError::ComponentWithoutName,
            XmlParseError::UnknownComponent(n) => SpecXmlParseError::UnknownComponent(n@),
            XmlParseError::ParseError(_) => SpecXmlParseError::ParseError,
            XmlParseError::MalformedHierarchy(got, expected) => SpecXmlParseError::MalformedHierarchy(
                got@,
                expected@,
            ),
            XmlParseError::RenderDomError(n, e) => SpecXmlParseError::RenderDomError(n@, e@),
        }
    }
}

/// The message that describes an error; for a tokenizer error, the part that precedes the
/// tokenizer's own message.
pub open spec fn error_message(e: SpecXmlParseError) -> Seq<char> {
    match e {
        SpecXmlParseError::NoRootComponent => "No <app></app> component present - empty DOM"@,
        SpecXmlParseError::MultipleRootComponents =>
            "Multiple <app/> components present, only one root node is allowed"@,
        SpecXmlParseError::ParseError => "XML parsing error: "@,
        SpecXmlParseError::MalformedHierarchy(got, expected) => "Invalid </"@ + got
            + "> tag: expected </"@ + expected + ">"@,
        SpecXmlParseError::ComponentWithoutName =>
            "Found <component/> tag with out a \"name\" attribute, component must have a name"@,
        SpecXmlParseError::UnknownComponent(name) => "Unknown component: \""@ + name + "\""@,
        SpecXmlParseError::RenderDomError(name, e) => "Component \""@ + name
            + "\" raised an error while rendering DOM: \""@ + e + "\""@,
    }
}

/// Calls the `Display` impl of xmlparser's `Error`. Nothing is stated of the text: the error
/// value is opaque here.
#[verifier::external_body]
fn tokenizer_error_text(e: &XmlError) -> String {
    format!("{}", e)
}

impl XmlParseError {
    /// The text that describes the error.
    pub fn to_message(&self) -> (r: String)
        ensures
            match self {
                XmlParseError::ParseError(_) => r@.len() >= error_message(self@).len()
                    && r@.subrange(0, error_message(self@).len() as int) == error_message(self@),
                _ => r@ == error_message(self@),
            },
    {
        match self {
            XmlParseError::NoRootComponent => String::from_str(
                "No <app></app> component present - empty DOM",
            ),
            XmlParseError::MultipleRootComponents => String::from_str(
                "Multiple <app/> components present, only one root node is allowed",
            ),
            XmlParseError::ParseError(e) => {
                let mut s = String::from_str("XML parsing error: ");
                let t = tokenizer_error_text(e);
                let ghost prefix = s@;
                s.append(t.as_str());
                assert(s@.subrange(0, prefix.len() as int) =~= prefix);
                s
            },
            XmlParseError::MalformedHierarchy(got, expected) => {
                let mut s = String::from_str("Invalid </");
                s.append(got.as_str());
                s.append("> tag: expected </");
                s.append(expected.as_str());
                s.append(">");
                s
            },
            XmlParseError::ComponentWithoutName => String::from_str(
                "Found <component/> tag with out a \"name\" attribute, component must have a name",
            ),
            XmlParseError::UnknownComponent(name) => {
                let mut s = String::from_str("Unknown component: \"");
                s.append(name.as_str());
                s.append("\"");
                s
            },
            XmlParseError::RenderDomError(name, e) => {
                let mut s = String::from_str("Component \"");
                s.append(name.as_str());
                s.append("\" raised an error while rendering DOM: \"");
                s.append(e.as_str());
                s.append("\"");
                s
            },
        }
    }
}

} // verus!
