//! Keys and values of the settings records kept in the append-log store, in
//! postcard's encoding.
use vstd::prelude::*;

verus! {

#[verifier::external_type_specification]
#[verifier::external_body]
pub struct ExPostcardError(postcard::Error);

/// postcard's variable-length encoding of an unsigned integer: seven bits
/// per byte, least significant group first, the high bit set on every byte
/// but the last.
pub open spec fn varint(n: nat) -> Seq<u8>
    decreases n,
{
    if n < 128 {
        seq![n as u8]
    } else {
        seq![((n % 128) + 128) as u8] + varint(n / 128)
    }
}

/// postcard's encoding of a byte sequence: its length, then its bytes.
pub open spec fn encoded_bytes(data: Seq<u8>) -> Seq<u8> {
    varint(data.len()) + data
}

/// Relies on postcard::to_slice on a `u8`: it is encoded as that one byte,
/// and the call fails, writing nothing, only when the buffer is empty.
#[verifier::external_body]
fn encode_u8(v: u8, buffer: &mut [u8]) -> (r: Result<usize, postcard::Error>)
    ensures
        final(buffer)@.len() == old(buffer)@.len(),
        r is Ok <==> old(buffer)@.len() >= 1,
        r is Ok ==> r->Ok_0 == 1 && final(buffer)@ == old(buffer)@.update(0, v),
        r is Err ==> final(buffer)@ == old(buffer)@,
{
    postcard::to_slice(&v, buffer).map(|written| written.len())
}

/// Relies on postcard::take_from_bytes on a `u8`: it takes the first byte
/// and hands back how many bytes remain; it fails only on an empty buffer.
#[verifier::external_body]
fn decode_u8(buffer: &[u8]) -> (r: Result<(u8, usize), postcard::Error>)
    ensures
        r is Ok <==> buffer@.len() >= 1,
        r is Ok ==> r->Ok_0 == (buffer@[0], (buffer@.len() - 1) as usize),
{
    postcard::take_from_bytes::<u8>(buffer).map(|(v, rest)| (v, rest.len()))
}

/// Relies on postcard::to_slice on a byte slice: the encoding is the length
/// as a varint, then the bytes; it fits when the buffer is at least that
/// long, and then nothing past it is written.
#[verifier::external_body]
fn encode_bytes(data: &[u8], buffer: &mut [u8]) -> (r: Result<usize, postcard::Error>)
    ensures
        final(buffer)@.len() == old(buffer)@.len(),
        r is Ok <==> encoded_bytes(data@).len() <= old(buffer)@.len(),
        r is Ok ==> r->Ok_0 == encoded_bytes(data@).len() && final(buffer)@ == encoded_bytes(
            data@,
        ) + old(buffer)@.subrange(encoded_bytes(data@).len() as int, old(buffer)@.len() as int),
{
    postcard::to_slice(data, buffer).map(|written| written.len())
}

/// Relies on postcard::from_bytes on a borrowed byte slice: it reads a
/// varint length and borrows that many of the following bytes. A buffer that
/// starts with an encoding made by `encode_bytes` decodes to those bytes.
#[verifier::external_body]
fn decode_bytes<'a>(buffer: &'a [u8]) -> (r: Result<&'a [u8], postcard::Error>)
    ensures
        buffer@.len() == 0 ==> r is Err,
        forall|d: Seq<u8>|
            #[trigger] encoded_bytes(d).len() <= buffer@.len() && buffer@.subrange(
                0,
                encoded_bytes(d).len() as int,
            ) == encoded_bytes(d) ==> r is Ok && r->Ok_0@ == d,
        r is Ok ==> exists|m: int|
            1 <= m && m + r->Ok_0@.len() <= buffer@.len() && r->Ok_0@ == #[trigger] buffer@.subrange(
                m,
                m + r->Ok_0@.len(),
            ),
{
    postcard::from_bytes::<&'a [u8]>(buffer)
}

/// A key or value did not fit, or could not be read back.
#[derive(Debug, PartialEq, Eq, Structural)]
pub enum SerializationError {
    BufferTooSmall,
}

/// Key of a settings record: one byte, the packed path of a settings leaf.
#[derive(Debug, Clone, Copy, PartialEq, Eq, Structural)]
pub struct SettingsKey(pub u8);

impl SettingsKey {
    /// Writes the key's encoding, one byte, at the start of `buffer` and
    /// returns its length.
    pub fn serialize_into(&self, buffer: &mut [u8]) -> (r: Result<usize, SerializationError>)
        ensures
            r is Ok <==> old(buffer)@.len() >= 1,
            r is Ok ==> r->Ok_0 == 1 && final(buffer)@ == old(buffer)@.update(0, self.0),
            r is Err ==> final(buffer)@ == old(buffer)@,
    {
        match encode_u8(self.0, buffer) {
            Ok(n) => Ok(n),
            Err(_) => Err(SerializationError::BufferTooSmall),
        }
    }

    /// Reads a key from the start of `buffer`, with the number of bytes it
    /// took.
    pub fn deserialize_from(buffer: &[u8]) -> (r: Result<(SettingsKey, usize), SerializationError>)
        ensures
            r is Ok <==> buffer@.len() >= 1,
            r is Ok ==> r->Ok_0 == (SettingsKey(buffer@[0]), 1usize),
    {
        let total_length = buffer.len();
        match decode_u8(buffer) {
            Ok((v, remaining)) => Ok((SettingsKey(v), total_length - remaining)),
            Err(_) => Err(SerializationError::BufferTooSmall),
        }
    }
}

/// Value of a settings record: the serialized bytes of one settings leaf.
#[derive(Debug, Clone, Copy, PartialEq, Eq)]
pub struct SettingsItem<'b>(pub &'b [u8]);

impl<'b> SettingsItem<'b> {
    /// Writes the value's encoding (its length, then its bytes) at the start
    /// of `buffer` and returns its length; bytes past it are left as they
    /// were.
    pub fn serialize_into(&self, buffer: &mut [u8]) -> (r: Result<usize, SerializationError>)
        ensures
            final(buffer)@.len() == old(buffer)@.len(),
            r is Ok <==> encoded_bytes(self.0@).len() <= old(buffer)@.len(),
            r is Ok ==> r->Ok_0 == encoded_bytes(self.0@).len() && final(buffer)@ == encoded_bytes(
                self.0@,
            ) + old(buffer)@.subrange(
                encoded_bytes(self.0@).len() as int,
                old(buffer)@.len() as int,
            ),
    {
        match encode_bytes(self.0, buffer) {
            Ok(n) => Ok(n),
            Err(_) => Err(SerializationError::BufferTooSmall),
        }
    }

    /// Reads a value from the start of `buffer`, borrowing its bytes.
    pub fn deserialize_from(buffer: &'b [u8]) -> (r: Result<SettingsItem<'b>, SerializationError>)
        ensures
            buffer@.len() == 0 ==> r is Err,
            forall|d: Seq<u8>|
                #[trigger] encoded_bytes(d).len() <= buffer@.len() && buffer@.subrange(
                    0,
                    encoded_bytes(d).len() as int,
                ) == encoded_bytes(d) ==> r is Ok && (r->Ok_0).0@ == d,
            r is Ok ==> exists|m: int|
                1 <= m && m + (r->Ok_0).0@.len() <= buffer@.len() && (r->Ok_0).0@ == #[trigger] buffer@.subrange(
                    m,
                    m + (r->Ok_0).0@.len(),
                ),
    {
        match decode_bytes(buffer) {
            Ok(data) => {
                let item = SettingsItem(data);
                proof {
                    let m = choose|m: int|
                        1 <= m && m + data@.len() <= buffer@.len() && data@
                            == #[trigger] buffer@.subrange(m, m + data@.len());
                    assert(item.0@ == buffer@.subrange(m, m + item.0@.len()));
                }
                let r: Result<SettingsItem<'b>, SerializationError> = Ok(item);
                assert(r->Ok_0 == item);
                r
            },
            Err(_) => Err(SerializationError::BufferTooSmall),
        }
    }
}

} // verus!
