//! Message headers and their byte format.
//!
//! Headers are a list of named, typed values. On the wire each entry is
//!
//! ```text
//! name_length u8 | name | kind u8 | value_length u32 (little-endian) | value
//! ```
//!
//! and the entries follow one another with nothing in between. A name has
//! between 1 and 255 bytes; where a name occurs more than once, the last
//! entry is the one that counts.

use crate::error::IggyError;
use vstd::bytes::{
    lemma_auto_spec_u32_to_from_le_bytes, spec_u32_from_le_bytes, spec_u32_to_le_bytes,
    u32_from_le_bytes, u32_to_le_bytes,
};
use vstd::prelude::*;
use vstd::slice::{slice_subrange, slice_to_vec};

verus! {

/// Longest header name, in bytes.
pub const MAX_NAME_LENGTH: usize = 255;

/// The type that a header value is to be read as.
#[derive(Clone, Copy, Debug, PartialEq, Eq, Structural)]
pub enum HeaderKind {
    Raw,
    String,
    Bool,
    Int8,
    Int16,
    Int32,
    Int64,
    Uint8,
    Uint16,
    Uint32,
    Uint64,
    Float32,
    Float64,
}

/// Whether `code` is the wire code of some kind.
pub open spec fn is_kind_code(code: u8) -> bool {
    1 <= code <= 13
}

/// The kind that a wire code stands for; `Raw` for any other byte.
pub open spec fn kind_of_code(code: u8) -> HeaderKind {
    if code == 2 {
        HeaderKind::String
    } else if code == 3 {
        HeaderKind::Bool
    } else if code == 4 {
        HeaderKind::Int8
    } else if code == 5 {
        HeaderKind::Int16
    } else if code == 6 {
        HeaderKind::Int32
    } else if code == 7 {
        HeaderKind::Int64
    } else if code == 8 {
        HeaderKind::Uint8
    } else if code == 9 {
        HeaderKind::Uint16
    } else if code == 10 {
        HeaderKind::Uint32
    } else if code == 11 {
        HeaderKind::Uint64
    } else if code == 12 {
        HeaderKind::Float32
    } else if code == 13 {
        HeaderKind::Float64
    } else {
        HeaderKind::Raw
    }
}

impl HeaderKind {
    /// The byte that stands for this kind on the wire.
    pub open spec fn code(self) -> u8 {
        match self {
            HeaderKind::Raw => 1,
            HeaderKind::String => 2,
            HeaderKind::Bool => 3,
            HeaderKind::Int8 => 4,
            HeaderKind::Int16 => 5,
            HeaderKind::Int32 => 6,
            HeaderKind::Int64 => 7,
            HeaderKind::Uint8 => 8,
            HeaderKind::Uint16 => 9,
            HeaderKind::Uint32 => 10,
            HeaderKind::Uint64 => 11,
            HeaderKind::Float32 => 12,
            HeaderKind::Float64 => 13,
        }
    }

    /// Returns the wire code of the kind.
    pub fn as_code(&self) -> (code: u8)
        ensures
            code == self.code(),
    {
        match self {
            HeaderKind::Raw => 1,
            HeaderKind::String => 2,
            HeaderKind::Bool => 3,
            HeaderKind::Int8 => 4,
            HeaderKind::Int16 => 5,
            HeaderKind::Int32 => 6,
            HeaderKind::Int64 => 7,
            HeaderKind::Uint8 => 8,
            HeaderKind::Uint16 => 9,
            HeaderKind::Uint32 => 10,
            HeaderKind::Uint64 => 11,
            HeaderKind::Float32 => 12,
            HeaderKind::Float64 => 13,
        }
    }

    /// Reads a kind from its wire code.
    pub fn from_code(code: u8) -> (result: Result<HeaderKind, IggyError>)
        ensures
            is_kind_code(code) ==> result == Ok::<HeaderKind, IggyError>(kind_of_code(code)),
            !is_kind_code(code) ==> result == Err::<HeaderKind, IggyError>(
                IggyError::InvalidNumberEncoding,
            ),
    {
        if code == 1 {
            Ok(HeaderKind::Raw)
        } else if code == 2 {
            Ok(HeaderKind::String)
        } else if code == 3 {
            Ok(HeaderKind::Bool)
        } else if code == 4 {
            Ok(HeaderKind::Int8)
        } else if code == 5 {
            Ok(HeaderKind::Int16)
        } else if code == 6 {
            Ok(HeaderKind::Int32)
        } else if code == 7 {
            Ok(HeaderKind::Int64)
        } else if code == 8 {
            Ok(HeaderKind::Uint8)
        } else if code == 9 {
            Ok(HeaderKind::Uint16)
        } else if code == 10 {
            Ok(HeaderKind::Uint32)
        } else if code == 11 {
            Ok(HeaderKind::Uint64)
        } else if code == 12 {
            Ok(HeaderKind::Float32)
        } else if code == 13 {
            Ok(HeaderKind::Float64)
        } else {
            Err(IggyError::InvalidNumberEncoding)
        }
    }
}

/// One header as plain values.
pub ghost struct HeaderEntry {
    pub name: Seq<u8>,
    pub kind: HeaderKind,
    pub value: Seq<u8>,
}

impl HeaderEntry {
    /// An entry that the format can hold.
    pub open spec fn is_valid(self) -> bool {
        1 <= self.name.len() <= 255 && self.value.len() <= u32::MAX
    }

    /// Number of bytes of the entry on the wire.
    pub open spec fn encoded_len(self) -> nat {
        6 + self.name.len() + self.value.len()
    }

    /// The entry on the wire.
    pub open spec fn encoding(self) -> Seq<u8> {
        seq![self.name.len() as u8] + self.name + seq![self.kind.code()] + spec_u32_to_le_bytes(
            self.value.len() as u32,
        ) + self.value
    }
}

/// Whether every entry of a list is valid.
pub open spec fn all_valid(entries: Seq<HeaderEntry>) -> bool {
    forall|i: int| 0 <= i < entries.len() ==> (#[trigger] entries[i]).is_valid()
}

/// A list of entries on the wire: each entry's bytes, in order.
pub open spec fn encode_entries(entries: Seq<HeaderEntry>) -> Seq<u8>
    decreases entries.len(),
{
    if entries.len() == 0 {
        Seq::empty()
    } else {
        entries[0].encoding() + encode_entries(entries.skip(1))
    }
}

/// Number of bytes of a list of entries on the wire.
pub open spec fn encoded_len(entries: Seq<HeaderEntry>) -> nat
    decreases entries.len(),
{
    if entries.len() == 0 {
        0
    } else {
        entries[0].encoded_len() + encoded_len(entries.skip(1))
    }
}

/// The entry at the front of `bytes`, if a well-formed one stands there.
pub open spec fn decode_entry(bytes: Seq<u8>) -> Option<HeaderEntry> {
    if bytes.len() < 1 {
        None
    } else {
        let name_length = bytes[0] as int;
        if name_length == 0 || bytes.len() < name_length + 6 {
            None
        } else if !is_kind_code(bytes[name_length + 1]) {
            None
        } else {
            let value_length = spec_u32_from_le_bytes(
                bytes.subrange(name_length + 2, name_length + 6),
            ) as int;
            if bytes.len() < name_length + 6 + value_length {
                None
            } else {
                Some(
                    HeaderEntry {
                        name: bytes.subrange(1, name_length + 1),
                        kind: kind_of_code(bytes[name_length + 1]),
                        value: bytes.subrange(
                            name_length + 6,
                            name_length + 6 + value_length,
                        ),
                    },
                )
            }
        }
    }
}

/// The entries that `bytes` hold, if they are well-formed entries from the
/// first byte to the last.
pub open spec fn decode_entries(bytes: Seq<u8>) -> Option<Seq<HeaderEntry>>
    decreases bytes.len(),
{
    if bytes.len() == 0 {
        Some(Seq::empty())
    } else {
        match decode_entry(bytes) {
            None => None,
            Some(entry) => match decode_entries(bytes.skip(entry.encoded_len() as int)) {
                None => None,
                Some(rest) => Some(seq![entry] + rest),
            },
        }
    }
}

} // verus!

verus! {

/// One header: a name, the kind of its value, and the value's bytes.
#[derive(Debug)]
pub struct Header {
    name: Vec<u8>,
    kind: HeaderKind,
    value: Vec<u8>,
}

impl View for Header {
    type V = HeaderEntry;

    closed spec fn view(&self) -> HeaderEntry {
        HeaderEntry { name: self.name@, kind: self.kind, value: self.value@ }
    }
}

/// The entries that a list of headers stands for.
pub open spec fn entries_of(headers: Seq<Header>) -> Seq<HeaderEntry> {
    headers.map_values(|header: Header| header@)
}

impl Header {
    #[verifier::type_invariant]
    spec fn well_formed(self) -> bool {
        self@.is_valid()
    }

    /// Makes a header. The name must have between 1 and 255 bytes, and the
    /// value's length must fit the 32-bit length field.
    pub fn new(name: Vec<u8>, kind: HeaderKind, value: Vec<u8>) -> (result: Result<
        Header,
        IggyError,
    >)
        ensures
            match result {
                Ok(header) => header@ == (HeaderEntry { name: name@, kind, value: value@ })
                    && header@.is_valid(),
                Err(error) => {
                    &&& !(HeaderEntry { name: name@, kind, value: value@ }).is_valid()
                    &&& error == if 1 <= name@.len() <= 255 {
                        IggyError::InvalidHeaderValue
                    } else {
                        IggyError::InvalidHeaderKey
                    }
                },
            },
    {
        if name.len() < 1 || name.len() > MAX_NAME_LENGTH {
            return Err(IggyError::InvalidHeaderKey);
        }
        if value.len() as u64 > u32::MAX as u64 {
            return Err(IggyError::InvalidHeaderValue);
        }
        Ok(Header { name, kind, value })
    }

    /// The header's name.
    pub fn name(&self) -> (name: &Vec<u8>)
        ensures
            name@ == self@.name,
            self@.is_valid(),
    {
        proof {
            use_type_invariant(self);
        }
        &self.name
    }

    /// The kind of the header's value.
    pub fn kind(&self) -> (kind: HeaderKind)
        ensures
            kind == self@.kind,
    {
        self.kind
    }

    /// The bytes of the header's value.
    pub fn value(&self) -> (value: &Vec<u8>)
        ensures
            value@ == self@.value,
    {
        &self.value
    }
}

} // verus!

verus! {

/// The bytes of a list grow entry by entry: a list with one more entry at
/// its end is the old list's bytes followed by that entry's.
pub proof fn lemma_encode_push(entries: Seq<HeaderEntry>, entry: HeaderEntry)
    ensures
        encode_entries(entries.push(entry)) == encode_entries(entries) + entry.encoding(),
        encoded_len(entries.push(entry)) == encoded_len(entries) + entry.encoded_len(),
    decreases entries.len(),
{
    let longer = entries.push(entry);
    if entries.len() == 0 {
        assert(longer.skip(1) =~= entries);
        assert(longer[0] == entry);
        assert(encode_entries(entries) =~= Seq::<u8>::empty());
        assert(encode_entries(longer) == entry.encoding() + encode_entries(longer.skip(1)));
        assert(encode_entries(longer) =~= entry.encoding());
    } else {
        lemma_encode_push(entries.skip(1), entry);
        assert(longer.skip(1) =~= entries.skip(1).push(entry));
        assert(longer[0] == entries[0]);
        assert(encode_entries(longer) =~= encode_entries(entries) + entry.encoding());
    }
}

/// The encoding of a list is as long as `encoded_len` says.
pub proof fn lemma_encoded_len(entries: Seq<HeaderEntry>)
    ensures
        encode_entries(entries).len() == encoded_len(entries),
    decreases entries.len(),
{
    lemma_auto_spec_u32_to_from_le_bytes();
    if entries.len() > 0 {
        lemma_encoded_len(entries.skip(1));
    }
}

/// A valid entry is read back from the front of any bytes that begin with
/// its encoding.
proof fn lemma_decode_encoded_entry(entry: HeaderEntry, after: Seq<u8>)
    requires
        entry.is_valid(),
    ensures
        entry.encoding().len() == entry.encoded_len(),
        decode_entry(entry.encoding() + after) == Some(entry),
        (entry.encoding() + after).skip(entry.encoded_len() as int) == after,
{
    lemma_auto_spec_u32_to_from_le_bytes();
    let bytes = entry.encoding() + after;
    let n = entry.name.len() as int;
    assert(bytes[0] == n as u8);
    assert(bytes[n + 1] == entry.kind.code());
    assert(bytes.subrange(n + 2, n + 6) =~= spec_u32_to_le_bytes(entry.value.len() as u32));
    assert(bytes.subrange(1, n + 1) =~= entry.name);
    assert(bytes.subrange(n + 6, n + 6 + entry.value.len()) =~= entry.value);
    assert(bytes.skip(entry.encoded_len() as int) =~= after);
}

/// Decoding undoes encoding: the bytes of a list of valid entries read back
/// as that list.
pub proof fn lemma_decode_encoded_entries(entries: Seq<HeaderEntry>)
    requires
        all_valid(entries),
    ensures
        decode_entries(encode_entries(entries)) == Some(entries),
    decreases entries.len(),
{
    if entries.len() > 0 {
        let first = entries[0];
        let rest = entries.skip(1);
        assert(first.is_valid());
        assert forall|i: int| 0 <= i < rest.len() implies (#[trigger] rest[i]).is_valid() by {
            assert(rest[i] == entries[i + 1]);
        }
        lemma_decode_encoded_entries(rest);
        lemma_decode_encoded_entry(first, encode_entries(rest));
        assert(seq![first] + rest =~= entries);
    }
}

/// Encoding undoes decoding: bytes that decode are the encoding of what
/// they decode to, and every entry read from them is valid.
pub proof fn lemma_encode_decoded_entries(bytes: Seq<u8>)
    requires
        decode_entries(bytes) is Some,
    ensures
        all_valid(decode_entries(bytes).unwrap()),
        encode_entries(decode_entries(bytes).unwrap()) == bytes,
    decreases bytes.len(),
{
    lemma_auto_spec_u32_to_from_le_bytes();
    if bytes.len() > 0 {
        let entry = decode_entry(bytes).unwrap();
        let tail = bytes.skip(entry.encoded_len() as int);
        lemma_encode_decoded_entries(tail);
        let rest = decode_entries(tail).unwrap();
        let entries = seq![entry] + rest;
        assert(entries.skip(1) =~= rest);
        let n = bytes[0] as int;
        assert(spec_u32_to_le_bytes(entry.value.len() as u32) == bytes.subrange(n + 2, n + 6));
        assert(entry.encoding() =~= bytes.subrange(0, entry.encoded_len() as int));
        assert(encode_entries(entries) =~= bytes);
        assert forall|i: int| 0 <= i < entries.len() implies (#[trigger] entries[i]).is_valid() by {
            if i > 0 {
                assert(entries[i] == rest[i - 1]);
            }
        }
    }
}

} // verus!

verus! {

fn append_slice(output: &mut Vec<u8>, source: &[u8])
    ensures
        final(output)@ == old(output)@ + source@,
{
    let mut copy = slice_to_vec(source);
    output.append(&mut copy);
}

/// Writes a list of headers in wire format.
pub fn encode_headers(headers: &Vec<Header>) -> (bytes: Vec<u8>)
    ensures
        bytes@ == encode_entries(entries_of(headers@)),
        all_valid(entries_of(headers@)),
{
    let mut bytes: Vec<u8> = Vec::new();
    let mut index: usize = 0;
    while index < headers.len()
        invariant
            index <= headers.len(),
            bytes@ == encode_entries(entries_of(headers@.take(index as int))),
            all_valid(entries_of(headers@.take(index as int))),
        decreases headers.len() - index,
    {
        let header = &headers[index];
        proof {
            use_type_invariant(header);
            let before = entries_of(headers@.take(index as int));
            let now = entries_of(headers@.take(index + 1));
            assert(now =~= before.push(header@));
            lemma_encode_push(before, header@);
        }
        bytes.push(header.name.len() as u8);
        append_slice(&mut bytes, header.name.as_slice());
        bytes.push(header.kind.as_code());
        let length = u32_to_le_bytes(header.value.len() as u32);
        append_slice(&mut bytes, length.as_slice());
        append_slice(&mut bytes, header.value.as_slice());
        index = index + 1;
    }
    proof {
        assert(headers@.take(index as int) == headers@);
    }
    bytes
}

/// What decoding `bytes` gives when `done` has been read from the front
/// and `rest` is still to be read.
spec fn joined(done: Seq<HeaderEntry>, rest: Seq<u8>) -> Option<Seq<HeaderEntry>> {
    match decode_entries(rest) {
        Some(entries) => Some(done + entries),
        None => None,
    }
}

/// Reading one more entry from the front does not change what the whole
/// decodes to.
proof fn lemma_joined_step(done: Seq<HeaderEntry>, rest: Seq<u8>)
    requires
        rest.len() > 0,
    ensures
        decode_entry(rest) is None ==> joined(done, rest) is None,
        decode_entry(rest) is Some ==> {
            let entry = decode_entry(rest).unwrap();
            &&& entry.encoded_len() <= rest.len()
            &&& joined(done, rest) == joined(done.push(entry), rest.skip(entry.encoded_len() as int))
        },
{
    if decode_entry(rest) is Some {
        let entry = decode_entry(rest).unwrap();
        let tail = rest.skip(entry.encoded_len() as int);
        if decode_entries(tail) is Some {
            let entries = decode_entries(tail).unwrap();
            assert(done + (seq![entry] + entries) =~= done.push(entry) + entries);
        }
    }
}

/// Reads a list of headers from wire format. The bytes must be well-formed
/// entries from the first byte to the last: a name of at least one byte, a
/// known kind, and a value that ends inside the input.
pub fn decode_headers(raw: &[u8]) -> (result: Result<Vec<Header>, IggyError>)
    ensures
        match result {
            Ok(headers) => decode_entries(raw@) == Some(entries_of(headers@)),
            Err(error) => decode_entries(raw@) is None && error
                == IggyError::InvalidNumberEncoding,
        },
{
    let total = raw.len();
    let mut headers: Vec<Header> = Vec::new();
    let mut position: usize = 0;
    proof {
        assert(raw@.skip(0) =~= raw@);
        assert(Seq::<HeaderEntry>::empty() + decode_entries(raw@).unwrap()
            =~= decode_entries(raw@).unwrap());
        assert(entries_of(headers@) =~= Seq::<HeaderEntry>::empty());
    }
    while position < total
        invariant
            total == raw@.len(),
            position <= total,
            decode_entries(raw@) == joined(entries_of(headers@), raw@.skip(position as int)),
        decreases total - position,
    {
        let ghost rest = raw@.skip(position as int);
        proof {
            lemma_joined_step(entries_of(headers@), rest);
        }
        let name_length = raw[position] as usize;
        assert(raw@[position as int] == rest[0]);
        if name_length == 0 || total - position < name_length + 6 {
            return Err(IggyError::InvalidNumberEncoding);
        }
        let kind = match HeaderKind::from_code(raw[position + name_length + 1]) {
            Ok(kind) => kind,
            Err(error) => {
                assert(raw@[position + name_length + 1] == rest[name_length as int + 1]);
                return Err(error);
            },
        };
        assert(raw@[position + name_length + 1] == rest[name_length as int + 1]);
        let value_length = u32_from_le_bytes(
            slice_subrange(raw, position + name_length + 2, position + name_length + 6),
        );
        assert(raw@.subrange(position + name_length + 2, position + name_length + 6)
            =~= rest.subrange(name_length as int + 2, name_length as int + 6));
        let available: u64 = (total - position - name_length - 6) as u64;
        if available < value_length as u64 {
            return Err(IggyError::InvalidNumberEncoding);
        }
        let value_start: usize = position + name_length + 6;
        let value_end: usize = value_start + value_length as usize;
        let name = slice_to_vec(slice_subrange(raw, position + 1, position + name_length + 1));
        let value = slice_to_vec(slice_subrange(raw, value_start, value_end));
        proof {
            assert(name@ =~= rest.subrange(1, name_length as int + 1));
            assert(value@ =~= rest.subrange(
                name_length as int + 6,
                name_length as int + 6 + value_length as int,
            ));
            assert(rest.skip(decode_entry(rest).unwrap().encoded_len() as int) =~= raw@.skip(
                value_end as int,
            ));
        }
        let header = Header { name, kind, value };
        proof {
            assert(header@ == decode_entry(rest).unwrap());
            assert(entries_of(headers@.push(header)) =~= entries_of(headers@).push(header@));
        }
        headers.push(header);
        position = value_end;
    }
    proof {
        assert(raw@.skip(position as int) =~= Seq::<u8>::empty());
        assert(entries_of(headers@) + Seq::<HeaderEntry>::empty() =~= entries_of(headers@));
    }
    Ok(headers)
}

} // verus!

verus! {

/// Each entry takes at most 6 + 255 + 2^32 - 1 bytes on the wire.
proof fn lemma_encoded_len_bound(entries: Seq<HeaderEntry>)
    requires
        all_valid(entries),
    ensures
        encoded_len(entries) <= entries.len() * 0x1_0000_0104,
    decreases entries.len(),
{
    if entries.len() > 0 {
        let rest = entries.skip(1);
        assert forall|i: int| 0 <= i < rest.len() implies (#[trigger] rest[i]).is_valid() by {
            assert(rest[i] == entries[i + 1]);
        }
        lemma_encoded_len_bound(rest);
        assert(entries[0].is_valid());
        assert(entries.len() * 0x1_0000_0104 == rest.len() * 0x1_0000_0104 + 0x1_0000_0104)
            by (nonlinear_arith)
            requires
                entries.len() == rest.len() + 1,
        ;
    }
}

/// Returns the number of bytes that a list of headers takes on the wire.
pub fn headers_size(headers: &Vec<Header>) -> (size: u128)
    ensures
        size == encoded_len(entries_of(headers@)),
{
    let mut size: u128 = 0;
    let mut index: usize = 0;
    while index < headers.len()
        invariant
            index <= headers.len(),
            size == encoded_len(entries_of(headers@.take(index as int))),
            all_valid(entries_of(headers@.take(index as int))),
        decreases headers.len() - index,
    {
        let header = &headers[index];
        proof {
            use_type_invariant(header);
            let before = entries_of(headers@.take(index as int));
            let now = entries_of(headers@.take(index + 1));
            assert(now =~= before.push(header@));
            lemma_encode_push(before, header@);
            lemma_encoded_len_bound(before);
            assert(before.len() * 0x1_0000_0104 <= 0xFFFF_FFFF_FFFF_FFFF * 0x1_0000_0104)
                by (nonlinear_arith)
                requires
                    before.len() <= 0xFFFF_FFFF_FFFF_FFFF,
            ;
        }
        size = size + 6 + header.name.len() as u128 + header.value.len() as u128;
        index = index + 1;
    }
    proof {
        assert(headers@.take(index as int) == headers@);
    }
    size
}

} // verus!

verus! {

/// The index of the entry that counts for `name`: the last one that
/// carries the name.
pub open spec fn position_of(entries: Seq<HeaderEntry>, name: Seq<u8>) -> Option<int>
    decreases entries.len(),
{
    if entries.len() == 0 {
        None
    } else if entries.last().name == name {
        Some(entries.len() - 1)
    } else {
        position_of(entries.drop_last(), name)
    }
}

/// Finds the header named `name`. Where several headers carry the name,
/// the last of them is found.
pub fn find_header<'a>(headers: &'a Vec<Header>, name: &[u8]) -> (found: Option<&'a Header>)
    ensures
        match found {
            Some(header) => position_of(entries_of(headers@), name@) is Some && *header
                == headers@[position_of(entries_of(headers@), name@).unwrap()],
            None => position_of(entries_of(headers@), name@) is None,
        },
{
    let ghost entries = entries_of(headers@);
    let mut index: usize = headers.len();
    proof {
        assert(entries.take(index as int) =~= entries);
    }
    while index > 0
        invariant
            index <= headers@.len(),
            entries == entries_of(headers@),
            position_of(entries, name@) == position_of(entries.take(index as int), name@),
        decreases index,
    {
        let header = &headers[index - 1];
        proof {
            let part = entries.take(index as int);
            assert(part.last() == header@);
            assert(part.drop_last() =~= entries.take(index - 1));
        }
        if same_name(header.name.as_slice(), name) {
            return Some(header);
        }
        index = index - 1;
    }
    None
}

/// Compares two names byte by byte.
fn same_name(left: &[u8], right: &[u8]) -> (same: bool)
    ensures
        same == (left@ == right@),
{
    if left.len() != right.len() {
        return false;
    }
    let mut index: usize = 0;
    while index < left.len()
        invariant
            index <= left.len(),
            left@.len() == right@.len(),
            forall|i: int| 0 <= i < index ==> left@[i] == right@[i],
        decreases left.len() - index,
    {
        if left[index] != right[index] {
            return false;
        }
        index = index + 1;
    }
    assert(left@ =~= right@);
    true
}

} // verus!
