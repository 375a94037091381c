//! Why decoding or a typed access failed.

use vstd::prelude::*;
use vstd::string::StringExecFns;
use crate::decimal::{append_decimal, decimal_text};
use crate::encoding::display::render;
use crate::encoding::model::Fault;
use crate::encoding::text::push_char;
use crate::encoding::types::BTypes;

verus! {

/// A failure of the codec or of a typed accessor.
#[derive(Debug, PartialEq, Eq)]
pub enum BencodingError {
    /// A delimiter was not found before the end of the input.
    CharacterNotFound(char),
    /// A digit span is no integer, or not in canonical form.
    ParseIntFailure,
    MalformedString(String),
    IncorrectStartingCharacter(char),
    Nested(String),
    /// The lead byte opens none of the four forms.
    InvalidType(char),
    /// A dictionary key that is not text.
    InvalidBType(BTypes),
    /// The input ends before the value does.
    OutOfBounds,
    /// There is no input to take a type indicator from.
    MissingInputType(Vec<u8>),
    /// A length or digit span is not UTF-8.
    CouldNotParseUTF8,
    KeyNotFound(String),
    NotDict,
    NotList,
    NotInt,
    NotByteStr,
    NotTextStr,
}

impl View for BencodingError {
    type V = Fault;

    open spec fn view(&self) -> Fault {
        match self {
            BencodingError::CharacterNotFound(c) => Fault::CharacterNotFound(*c),
            BencodingError::ParseIntFailure => Fault::ParseIntFailure,
            BencodingError::MalformedString(s) => Fault::MalformedString(s@),
            BencodingError::IncorrectStartingCharacter(c) => Fault::IncorrectStartingCharacter(*c),
            BencodingError::Nested(s) => Fault::Nested(s@),
            BencodingError::InvalidType(c) => Fault::InvalidType(*c),
            BencodingError::InvalidBType(b) => Fault::InvalidBType(b@),
            BencodingError::OutOfBounds => Fault::OutOfBounds,
            BencodingError::MissingInputType(v) => Fault::MissingInputType(v@),
            BencodingError::CouldNotParseUTF8 => Fault::CouldNotParseUTF8,
            BencodingError::KeyNotFound(k) => Fault::KeyNotFound(k@),
            BencodingError::NotDict => Fault::NotDict,
            BencodingError::NotList => Fault::NotList,
            BencodingError::NotInt => Fault::NotInt,
            BencodingError::NotByteStr => Fault::NotByteStr,
            BencodingError::NotTextStr => Fault::NotTextStr,
        }
    }
}

impl Clone for BencodingError {
    fn clone(&self) -> (copy: Self)
        ensures
            copy@ == self@,
    {
        match self {
            BencodingError::CharacterNotFound(c) => BencodingError::CharacterNotFound(*c),
            BencodingError::ParseIntFailure => BencodingError::ParseIntFailure,
            BencodingError::MalformedString(s) => BencodingError::MalformedString(s.clone()),
            BencodingError::IncorrectStartingCharacter(c) =>
                BencodingError::IncorrectStartingCharacter(*c),
            BencodingError::Nested(s) => BencodingError::Nested(s.clone()),
            BencodingError::InvalidType(c) => BencodingError::InvalidType(*c),
            BencodingError::InvalidBType(b) => BencodingError::InvalidBType(b.clone()),
            BencodingError::OutOfBounds => BencodingError::OutOfBounds,
            BencodingError::MissingInputType(v) => BencodingError::MissingInputType(v.clone()),
            BencodingError::CouldNotParseUTF8 => BencodingError::CouldNotParseUTF8,
            BencodingError::KeyNotFound(k) => BencodingError::KeyNotFound(k.clone()),
            BencodingError::NotDict => BencodingError::NotDict,
            BencodingError::NotList => BencodingError::NotList,
            BencodingError::NotInt => BencodingError::NotInt,
            BencodingError::NotByteStr => BencodingError::NotByteStr,
            BencodingError::NotTextStr => BencodingError::NotTextStr,
        }
    }
}

/// The numbers of the bytes, with `, ` between each two.
pub open spec fn byte_list_text(bytes: Seq<u8>) -> Seq<char>
    decreases bytes.len(),
{
    if bytes.len() == 0 {
        Seq::empty()
    } else if bytes.len() == 1 {
        decimal_text(bytes[0] as nat)
    } else {
        byte_list_text(bytes.drop_last()) + ", "@ + decimal_text(bytes.last() as nat)
    }
}

/// The message for a failure.
pub open spec fn fault_text(fault: Fault) -> Seq<char> {
    match fault {
        Fault::CharacterNotFound(c) => "BencodingError::CharacterNotFound "@.push(c),
        Fault::ParseIntFailure => "BencodingError::ParseIntFailure"@,
        Fault::MalformedString(s) => "BencodingError::MalformedString "@ + s,
        Fault::IncorrectStartingCharacter(c) => "BencodingError::IncorrectStartingChar "@.push(c),
        Fault::Nested(s) => "BencodingError::Nested "@ + s,
        Fault::InvalidType(c) => "BencodingError::InvalidType "@.push(c),
        Fault::InvalidBType(v) => "BencodingError::InvalidBType "@ + render(v, 0),
        Fault::OutOfBounds => "BencodingError::OutOfBounds"@,
        Fault::MissingInputType(bytes) => "Decoding input had no type character ["@
            + byte_list_text(bytes) + "]"@,
        Fault::CouldNotParseUTF8 => "Could not parse UTF8 from input"@,
        Fault::KeyNotFound(k) => "Key "@ + k + " not found in dict"@,
        Fault::NotDict => "Input or Expected value not dictionary"@,
        Fault::NotList => "Expected value not list"@,
        Fault::NotInt => "Expected value not int"@,
        Fault::NotByteStr => "Expected value not byte string"@,
        Fault::NotTextStr => "Expected value not text string"@,
    }
}

fn append_byte_list(text: &mut String, bytes: &Vec<u8>)
    ensures
        final(text)@ == old(text)@ + byte_list_text(bytes@),
{
    let ghost head = text@;
    let mut i: usize = 0;
    assert(text@ =~= head + byte_list_text(bytes@.subrange(0, 0)));
    while i < bytes.len()
        invariant
            i <= bytes@.len(),
            text@ == head + byte_list_text(bytes@.subrange(0, i as int)),
        decreases bytes@.len() - i,
    {
        assert(bytes@.subrange(0, i + 1).drop_last() =~= bytes@.subrange(0, i as int));
        if i > 0 {
            text.append(", ");
        }
        append_decimal(text, bytes[i] as usize);
        i += 1;
        assert(text@ =~= head + byte_list_text(bytes@.subrange(0, i as int)));
    }
    assert(bytes@.subrange(0, i as int) =~= bytes@);
}

impl BencodingError {
    /// The message for this failure.
    pub fn to_string(&self) -> (text: String)
        ensures
            text@ == fault_text(self@),
    {
        let mut text = String::new();
        match self {
            BencodingError::CharacterNotFound(c) => {
                text.append("BencodingError::CharacterNotFound ");
                push_char(&mut text, *c);
            },
            BencodingError::ParseIntFailure => {
                text.append("BencodingError::ParseIntFailure");
            },
            BencodingError::MalformedString(s) => {
                text.append("BencodingError::MalformedString ");
                text.append(s.as_str());
            },
            BencodingError::IncorrectStartingCharacter(c) => {
                text.append("BencodingError::IncorrectStartingChar ");
                push_char(&mut text, *c);
            },
            BencodingError::Nested(s) => {
                text.append("BencodingError::Nested ");
                text.append(s.as_str());
            },
            BencodingError::InvalidType(c) => {
                text.append("BencodingError::InvalidType ");
                push_char(&mut text, *c);
            },
            BencodingError::InvalidBType(b) => {
                text.append("BencodingError::InvalidBType ");
                b.render_into(0, &mut text);
            },
            BencodingError::OutOfBounds => {
                text.append("BencodingError::OutOfBounds");
            },
            BencodingError::MissingInputType(v) => {
                text.append("Decoding input had no type character [");
                append_byte_list(&mut text, v);
                text.append("]");
            },
            BencodingError::CouldNotParseUTF8 => {
                text.append("Could not parse UTF8 from input");
            },
            BencodingError::KeyNotFound(k) => {
                text.append("Key ");
                text.append(k.as_str());
                text.append(" not found in dict");
            },
            BencodingError::NotDict => {
                text.append("Input or Expected value not dictionary");
            },
            BencodingError::NotList => {
                text.append("Expected value not list");
            },
            BencodingError::NotInt => {
                text.append("Expected value not int");
            },
            BencodingError::NotByteStr => {
                text.append("Expected value not byte string");
            },
            BencodingError::NotTextStr => {
                text.append("Expected value not text string");
            },
        }
        assert(text@ =~= fault_text(self@));
        text
    }
}

} // verus!
