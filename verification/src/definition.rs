//! The puzzle definition and its parts, with the mathematical view of each
//! and the ways reading one can fail.
use crate::text::is_word;
use vstd::prelude::*;

verus! {

/// One atomic move. The token is opaque: nothing but its being a single
/// word is ever looked at.
#[derive(Debug, PartialEq, Eq)]
pub struct Twist(pub String);

impl View for Twist {
    type V = Seq<char>;

    open spec fn view(&self) -> Seq<char> {
        self.0@
    }
}

/// The tokens of `twists`, in order.
pub open spec fn twists_view(twists: Seq<Twist>) -> Seq<Seq<char>> {
    Seq::new(twists.len(), |i: int| twists[i]@)
}

/// A run of twists that is applied as one unit: the smallest thing a random
/// draw can pick.
#[derive(Debug, PartialEq, Eq)]
pub struct Generator(pub Vec<Twist>);

impl View for Generator {
    type V = Seq<Seq<char>>;

    open spec fn view(&self) -> Seq<Seq<char>> {
        twists_view(self.0@)
    }
}

/// The twist runs of `generators`, in order.
pub open spec fn generators_view(generators: Seq<Generator>) -> Seq<Seq<Seq<char>>> {
    Seq::new(generators.len(), |i: int| generators[i]@)
}

/// Whether `token` can stand for a twist: it is not empty and holds no white
/// space.
pub open spec fn is_twist(token: Seq<char>) -> bool {
    is_word(token)
}

/// Whether every element of `twists` can stand for a twist.
pub open spec fn all_twists(twists: Seq<Seq<char>>) -> bool {
    forall|i: int| 0 <= i < twists.len() ==> is_twist(#[trigger] twists[i])
}

/// A parsed puzzle definition.
#[derive(Debug, PartialEq, Eq)]
pub struct Definition {
    /// Layer count.
    pub n: u8,
    /// Dimension.
    pub d: u8,
    /// Number of random draws that make up the middle of a scramble.
    pub depth: u32,
    /// Twists that open every scramble.
    pub prefix: Generator,
    /// Twists that close every scramble.
    pub postfix: Generator,
    /// The pool that the draws pick from, in the order of the definition text.
    pub generators: Vec<Generator>,
}

/// What a `Definition` holds, as plain mathematical values.
pub ghost struct DefinitionView {
    pub n: nat,
    pub d: nat,
    pub depth: nat,
    pub prefix: Seq<Seq<char>>,
    pub postfix: Seq<Seq<char>>,
    pub generators: Seq<Seq<Seq<char>>>,
}

impl DefinitionView {
    /// Whether the definition could have been read from a text: every token
    /// in it can stand for a twist, and no generator of the pool is empty.
    pub open spec fn well_formed(self) -> bool {
        &&& all_twists(self.prefix)
        &&& all_twists(self.postfix)
        &&& forall|i: int|
            0 <= i < self.generators.len() ==> (#[trigger] self.generators[i]).len() > 0
                && all_twists(self.generators[i])
    }
}

impl View for Definition {
    type V = DefinitionView;

    open spec fn view(&self) -> DefinitionView {
        DefinitionView {
            n: self.n as nat,
            d: self.d as nat,
            depth: self.depth as nat,
            prefix: self.prefix@,
            postfix: self.postfix@,
            generators: generators_view(self.generators@),
        }
    }
}

/// The lines that a definition text must hold, in the order in which it must
/// hold them.
#[derive(Debug, Clone, Copy, PartialEq, Eq, Structural)]
pub enum Field {
    N,
    D,
    Depth,
    Prefix,
    Postfix,
    Generators,
}

impl Field {
    /// The key that opens the field's line.
    pub open spec fn key(self) -> Seq<char> {
        match self {
            Field::N => "n:"@,
            Field::D => "d:"@,
            Field::Depth => "depth:"@,
            Field::Prefix => "prefix:"@,
            Field::Postfix => "postfix:"@,
            Field::Generators => "generators:"@,
        }
    }

    /// The key that opens the field's line.
    pub fn key_text(self) -> (text: &'static str)
        ensures
            text@ == self.key(),
    {
        match self {
            Field::N => "n:",
            Field::D => "d:",
            Field::Depth => "depth:",
            Field::Prefix => "prefix:",
            Field::Postfix => "postfix:",
            Field::Generators => "generators:",
        }
    }
}

/// Why a text is not a definition.
#[derive(Debug, Clone, Copy, PartialEq, Eq, Structural)]
pub enum ParseError {
    /// The text ended before the line of this field.
    UnexpectedEof(Field),
    /// The line of this field does not give an unsigned number that fits.
    InvalidNumber(Field),
    /// The line at this field's place does not open with the field's key.
    MissingKey(Field),
    /// The line that should open the pool is not `generators:` and nothing
    /// else.
    InvalidGeneratorsHeader,
}

impl ParseError {
    /// The error in words, naming the line at fault.
    pub open spec fn describe(self) -> Seq<char> {
        match self {
            ParseError::UnexpectedEof(field) => "the definition ends before its line "@
                + field.key(),
            ParseError::InvalidNumber(field) => "not an unsigned number in range after "@
                + field.key(),
            ParseError::MissingKey(field) => "expected a line that starts with "@ + field.key(),
            ParseError::InvalidGeneratorsHeader => {
                "expected the line generators: and nothing after it"@
            },
        }
    }

    /// The error in words, naming the line at fault.
    pub fn message(&self) -> (text: String)
        ensures
            text@ == self.describe(),
    {
        match self {
            ParseError::UnexpectedEof(field) => {
                "the definition ends before its line ".to_owned().concat(field.key_text())
            },
            ParseError::InvalidNumber(field) => {
                "not an unsigned number in range after ".to_owned().concat(field.key_text())
            },
            ParseError::MissingKey(field) => {
                "expected a line that starts with ".to_owned().concat(field.key_text())
            },
            ParseError::InvalidGeneratorsHeader => {
                "expected the line generators: and nothing after it".to_owned()
            },
        }
    }
}

} // verus!
