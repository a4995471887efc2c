//! Identifiers of streams, topics and consumer groups.
//!
//! A resource is addressed either by its numeric id, which is positive, or
//! by its name, which has between 1 and 255 bytes. In text form a string of
//! decimal digits whose value fits 32 bits is a numeric id; any other
//! string is a name.

use crate::error::IggyError;
use vstd::prelude::*;
use vstd::slice::slice_to_vec;
use vstd::string::StringSliceAdditionalSpecFns;

verus! {

/// Longest name, in bytes.
pub const MAX_NAME_LENGTH: usize = 255;

/// What an identifier holds.
pub enum IdentifierValue {
    Numeric(u32),
    Named(Seq<u8>),
}

/// Whether a byte is an ASCII decimal digit.
pub open spec fn is_digit(byte: u8) -> bool {
    48 <= byte <= 57
}

/// Whether a string is one or more decimal digits and nothing else.
pub open spec fn is_decimal(text: Seq<u8>) -> bool {
    text.len() > 0 && forall|i: int| 0 <= i < text.len() ==> is_digit(#[trigger] text[i])
}

/// The number that a string of decimal digits denotes.
pub open spec fn decimal_value(text: Seq<u8>) -> nat
    decreases text.len(),
{
    if text.len() == 0 {
        0
    } else {
        (decimal_value(text.drop_last()) * 10 + (text.last() - 48)) as nat
    }
}

/// What a text denotes: a numeric id, a name, or nothing valid.
pub open spec fn parse_identifier(text: Seq<u8>) -> Result<IdentifierValue, IggyError> {
    if is_decimal(text) && decimal_value(text) <= u32::MAX {
        if decimal_value(text) == 0 {
            Err(IggyError::InvalidIdentifier)
        } else {
            Ok(IdentifierValue::Numeric(decimal_value(text) as u32))
        }
    } else if 1 <= text.len() <= 255 {
        Ok(IdentifierValue::Named(text))
    } else {
        Err(IggyError::InvalidIdentifier)
    }
}

/// A longer string of digits denotes no smaller a number than any of its
/// beginnings.
proof fn lemma_decimal_value_grows(text: Seq<u8>, length: int)
    requires
        0 <= length <= text.len(),
        forall|i: int| 0 <= i < text.len() ==> is_digit(#[trigger] text[i]),
    ensures
        decimal_value(text.take(length)) <= decimal_value(text),
    decreases text.len() - length,
{
    if length == text.len() {
        assert(text.take(length) =~= text);
    } else {
        lemma_decimal_value_grows(text, length + 1);
        let longer = text.take(length + 1);
        assert(longer.drop_last() =~= text.take(length));
        assert(is_digit(text[length]));
        assert(longer.last() == text[length]);
    }
}

/// A numeric id or a name.
#[derive(Debug)]
pub struct Identifier {
    id: u32,
    name: Vec<u8>,
}

impl View for Identifier {
    type V = IdentifierValue;

    closed spec fn view(&self) -> IdentifierValue {
        if self.id != 0 {
            IdentifierValue::Numeric(self.id)
        } else {
            IdentifierValue::Named(self.name@)
        }
    }
}

impl IdentifierValue {
    /// Ids are positive; names have between 1 and 255 bytes.
    pub open spec fn is_valid(self) -> bool {
        match self {
            IdentifierValue::Numeric(id) => id > 0,
            IdentifierValue::Named(name) => 1 <= name.len() <= 255,
        }
    }
}

impl Identifier {
    #[verifier::type_invariant]
    spec fn well_formed(self) -> bool {
        if self.id != 0 {
            self.name@.len() == 0
        } else {
            1 <= self.name@.len() <= 255
        }
    }

    /// The identifier of the resource with numeric id `id`, which must be
    /// positive.
    pub fn numeric(id: u32) -> (result: Result<Identifier, IggyError>)
        ensures
            id > 0 ==> result is Ok && result.unwrap()@ == IdentifierValue::Numeric(id),
            id == 0 ==> result == Err::<Identifier, IggyError>(IggyError::InvalidIdentifier),
    {
        if id == 0 {
            Err(IggyError::InvalidIdentifier)
        } else {
            Ok(Identifier { id, name: Vec::new() })
        }
    }

    /// The identifier of the resource named `name`, which must have between
    /// 1 and 255 bytes.
    pub fn named(name: &str) -> (result: Result<Identifier, IggyError>)
        ensures
            1 <= name.spec_bytes().len() <= 255 ==> result is Ok && result.unwrap()@
                == IdentifierValue::Named(name.spec_bytes()),
            !(1 <= name.spec_bytes().len() <= 255) ==> result == Err::<Identifier, IggyError>(
                IggyError::InvalidIdentifier,
            ),
    {
        let bytes = name.as_bytes();
        if bytes.len() < 1 || bytes.len() > MAX_NAME_LENGTH {
            Err(IggyError::InvalidIdentifier)
        } else {
            Ok(Identifier { id: 0, name: slice_to_vec(bytes) })
        }
    }

    /// The identifier of the resource whose name is the given bytes, of
    /// which there must be between 1 and 255.
    pub fn from_name(name: Vec<u8>) -> (result: Result<Identifier, IggyError>)
        ensures
            1 <= name@.len() <= 255 ==> result is Ok && result.unwrap()@
                == IdentifierValue::Named(name@),
            !(1 <= name@.len() <= 255) ==> result == Err::<Identifier, IggyError>(
                IggyError::InvalidIdentifier,
            ),
    {
        if name.len() < 1 || name.len() > MAX_NAME_LENGTH {
            Err(IggyError::InvalidIdentifier)
        } else {
            Ok(Identifier { id: 0, name })
        }
    }

    /// Reads an identifier from its text form.
    pub fn from_str_value(value: &str) -> (result: Result<Identifier, IggyError>)
        ensures
            match result {
                Ok(identifier) => parse_identifier(value.spec_bytes()) == Ok::<
                    IdentifierValue,
                    IggyError,
                >(identifier@),
                Err(error) => parse_identifier(value.spec_bytes()) == Err::<
                    IdentifierValue,
                    IggyError,
                >(error),
            },
    {
        let bytes = value.as_bytes();
        let mut number: u64 = 0;
        let mut index: usize = 0;
        let mut digits = bytes.len() > 0;
        while digits && index < bytes.len()
            invariant
                index <= bytes.len(),
                digits ==> forall|i: int| 0 <= i < index ==> is_digit(#[trigger] bytes@[i]),
                digits ==> number == decimal_value(bytes@.take(index as int)),
                digits ==> number <= u32::MAX,
                digits ==> bytes@.len() > 0,
                !digits ==> !(is_decimal(bytes@) && decimal_value(bytes@) <= u32::MAX),
            decreases bytes.len() - index + if digits { 1nat } else { 0nat },
        {
            let byte = bytes[index];
            if byte < 48 || byte > 57 {
                digits = false;
            } else {
                let next: u64 = number * 10 + (byte - 48) as u64;
                proof {
                    let longer = bytes@.take(index + 1);
                    assert(longer.drop_last() =~= bytes@.take(index as int));
                    assert(longer.last() == byte);
                    assert(next == decimal_value(longer));
                    if next > u32::MAX && is_decimal(bytes@) {
                        lemma_decimal_value_grows(bytes@, index + 1);
                    }
                }
                if next > u32::MAX as u64 {
                    digits = false;
                } else {
                    number = next;
                    index = index + 1;
                }
            }
        }
        if digits {
            proof {
                assert(bytes@.take(index as int) =~= bytes@);
            }
            Identifier::numeric(number as u32)
        } else {
            Identifier::named(value)
        }
    }

    /// The numeric id, when the identifier is one.
    pub fn get_u32_value(&self) -> (id: Option<u32>)
        ensures
            id == match self@ {
                IdentifierValue::Numeric(id) => Some(id),
                IdentifierValue::Named(_) => None::<u32>,
            },
            self@.is_valid(),
    {
        proof {
            use_type_invariant(self);
        }
        if self.id != 0 {
            Some(self.id)
        } else {
            None
        }
    }

    /// The name, when the identifier is one.
    pub fn get_name(&self) -> (name: Option<&Vec<u8>>)
        ensures
            match self@ {
                IdentifierValue::Numeric(_) => name is None,
                IdentifierValue::Named(bytes) => name is Some && name.unwrap()@ == bytes,
            },
            self@.is_valid(),
    {
        proof {
            use_type_invariant(self);
        }
        if self.id != 0 {
            None
        } else {
            Some(&self.name)
        }
    }
}

} // verus!
