//! The fixed-width row record and its byte codec.
//!
//! A row serializes into `ROW_SIZE` bytes: a little-endian 8-byte id, the
//! username padded with zero bytes to `USER_NAME_SIZE`, and the email padded
//! with zero bytes to `EMAIL_SIZE`. Decoding reads each string window up to
//! its first zero byte and UTF-8-decodes the prefix.

use vstd::prelude::*;
use vstd::bytes::spec_u64_from_le_bytes;
use vstd::utf8::{decode_utf8, encode_utf8, valid_utf8};

use crate::bytes_util::{
    find_first_zero, first_zero, pad_zeros, push_bytes, push_u64_le, zero_pad,
};
use crate::constant::{EMAIL_OFFSET, EMAIL_SIZE, ID_SIZE, ROW_SIZE, USER_NAME_OFFSET,
    USER_NAME_SIZE};
use crate::errors::DbError;

verus! {

#[derive(Debug)]
pub struct Row {
    pub id: u32,
    pub email: String,
    pub user_name: String,
}

/// Both strings fit their fixed-width windows once UTF-8-encoded.
pub open spec fn row_fits(user_name: Seq<char>, email: Seq<char>) -> bool {
    &&& encode_utf8(user_name).len() <= USER_NAME_SIZE
    &&& encode_utf8(email).len() <= EMAIL_SIZE
}

/// The byte image of a row: id word, then the two padded string windows.
pub open spec fn spec_row_bytes(id: u32, user_name: Seq<char>, email: Seq<char>) -> Seq<u8> {
    vstd::bytes::spec_u64_to_le_bytes(id as u64) + zero_pad(
        encode_utf8(user_name),
        USER_NAME_SIZE as nat,
    ) + zero_pad(encode_utf8(email), EMAIL_SIZE as nat)
}

/// The username window of a row image.
pub open spec fn un_window(b: Seq<u8>) -> Seq<u8> {
    b.subrange(USER_NAME_OFFSET as int, EMAIL_OFFSET as int)
}

/// The email window of a row image.
pub open spec fn em_window(b: Seq<u8>) -> Seq<u8> {
    b.subrange(EMAIL_OFFSET as int, ROW_SIZE as int)
}

/// The prefix of a string window up to its first zero byte.
pub open spec fn str_prefix(w: Seq<u8>) -> Seq<u8> {
    w.take(first_zero(w))
}

/// The id word of a row image.
pub open spec fn spec_row_id(b: Seq<u8>) -> u64 {
    spec_u64_from_le_bytes(b.subrange(0, ID_SIZE as int))
}

/// The images that `Row::deserialize` accepts.
pub open spec fn row_decodes(b: Seq<u8>) -> bool {
    &&& b.len() == ROW_SIZE
    &&& spec_row_id(b) <= u32::MAX
    &&& valid_utf8(str_prefix(un_window(b)))
    &&& valid_utf8(str_prefix(em_window(b)))
}

/// Relies on `String::from_utf8`: it returns `Ok` exactly when the bytes
/// are valid UTF-8, and the returned string's UTF-8 bytes are the input.
#[verifier::external_body]
fn string_from_utf8(bytes: Vec<u8>) -> (r: Option<String>)
    ensures
        match r {
            Some(s) => valid_utf8(bytes@) && encode_utf8(s@) == bytes@,
            None => !valid_utf8(bytes@),
        },
{
    match String::from_utf8(bytes) {
        Ok(s) => Some(s),
        Err(_) => None,
    }
}

/// Decodes the zero-terminated string stored in
/// `bytes[off .. off + width]`.
fn decode_window(bytes: &[u8], off: usize, width: usize) -> (r: Option<String>)
    requires
        off + width <= bytes@.len(),
    ensures
        ({
            let w = bytes@.subrange(off as int, off + width);
            match r {
                Some(s) => valid_utf8(str_prefix(w)) && encode_utf8(s@) == str_prefix(w) && s@
                    == decode_utf8(str_prefix(w)),
                None => !valid_utf8(str_prefix(w)),
            }
        }),
{
    let _n: usize = bytes.len();
    let w = vstd::slice::slice_subrange(bytes, off, off + width);
    let fz = find_first_zero(w);
    proof {
        crate::bytes_util::lemma_first_zero(w@);
    }
    let prefix = vstd::slice::slice_to_vec(vstd::slice::slice_subrange(w, 0, fz));
    match string_from_utf8(prefix) {
        Some(s) => {
            proof {
                vstd::utf8::encode_utf8_decode_utf8(s@);
            }
            Some(s)
        },
        None => None,
    }
}

impl Row {
    pub fn new(id: u32, user_name: String, email: String) -> (r: Self)
        ensures
            r.id == id,
            r.user_name == user_name,
            r.email == email,
    {
        Self { id, email, user_name }
    }

    pub fn get_id(&self) -> (r: u32)
        ensures
            r == self.id,
    {
        self.id
    }

    pub fn get_email(&self) -> (r: &str)
        ensures
            r@ == self.email@,
    {
        self.email.as_str()
    }

    pub fn get_user_name(&self) -> (r: &str)
        ensures
            r@ == self.user_name@,
    {
        self.user_name.as_str()
    }

    /// Encodes the row into its `ROW_SIZE`-byte image; reports
    /// `RowTooLarge` exactly when a string overflows its window.
    pub fn serialize(&self) -> (r: Result<Vec<u8>, DbError>)
        ensures
            match r {
                Ok(b) => row_fits(self.user_name@, self.email@) && b@ == spec_row_bytes(
                    self.id,
                    self.user_name@,
                    self.email@,
                ) && b@.len() == ROW_SIZE,
                Err(e) => e == DbError::RowTooLarge && !row_fits(self.user_name@, self.email@),
            },
    {
        let un_bytes = self.user_name.as_str().as_bytes();
        let em_bytes = self.email.as_str().as_bytes();
        if un_bytes.len() > USER_NAME_SIZE || em_bytes.len() > EMAIL_SIZE {
            return Err(DbError::RowTooLarge);
        }
        proof {
            vstd::bytes::lemma_auto_spec_u64_to_from_le_bytes();
        }
        let mut out: Vec<u8> = Vec::new();
        push_u64_le(&mut out, self.id as u64);
        push_bytes(&mut out, un_bytes);
        pad_zeros(&mut out, ID_SIZE + USER_NAME_SIZE);
        push_bytes(&mut out, em_bytes);
        pad_zeros(&mut out, ROW_SIZE);
        proof {
            assert(out@ =~= spec_row_bytes(self.id, self.user_name@, self.email@));
        }
        Ok(out)
    }

    /// Decodes a `ROW_SIZE`-byte image; reports `DecodeError` exactly on
    /// a wrong length, an id wider than `u32`, or invalid UTF-8 in a
    /// string window.
    pub fn deserialize(bytes: &[u8]) -> (r: Result<Row, DbError>)
        ensures
            match r {
                Ok(row) => row_decodes(bytes@) && row.id as u64 == spec_row_id(bytes@)
                    && row.user_name@ == decode_utf8(str_prefix(un_window(bytes@))) && row.email@
                    == decode_utf8(str_prefix(em_window(bytes@))),
                Err(e) => e == DbError::DecodeError && !row_decodes(bytes@),
            },
    {
        if bytes.len() != ROW_SIZE {
            return Err(DbError::DecodeError);
        }
        let id64 = crate::bytes_util::read_u64_at(bytes, 0);
        if id64 > u32::MAX as u64 {
            return Err(DbError::DecodeError);
        }
        let user_name = match decode_window(bytes, USER_NAME_OFFSET, USER_NAME_SIZE) {
            Some(s) => s,
            None => {
                return Err(DbError::DecodeError);
            },
        };
        let email = match decode_window(bytes, EMAIL_OFFSET, EMAIL_SIZE) {
            Some(s) => s,
            None => {
                return Err(DbError::DecodeError);
            },
        };
        Ok(Row { id: id64 as u32, user_name, email })
    }
}

/// Law: decoding an encoded row yields the row's fields back, for every
/// row whose strings fit their windows and encode without a zero byte.
pub proof fn lemma_row_round_trip(id: u32, user_name: Seq<char>, email: Seq<char>)
    requires
        row_fits(user_name, email),
        !encode_utf8(user_name).contains(0),
        !encode_utf8(email).contains(0),
    ensures
        row_decodes(spec_row_bytes(id, user_name, email)),
        spec_row_id(spec_row_bytes(id, user_name, email)) == id as u64,
        decode_utf8(str_prefix(un_window(spec_row_bytes(id, user_name, email)))) == user_name,
        decode_utf8(str_prefix(em_window(spec_row_bytes(id, user_name, email)))) == email,
{
    let b = spec_row_bytes(id, user_name, email);
    let eu = encode_utf8(user_name);
    let ee = encode_utf8(email);
    vstd::bytes::lemma_auto_spec_u64_to_from_le_bytes();
    assert(b.subrange(0, ID_SIZE as int) =~= vstd::bytes::spec_u64_to_le_bytes(id as u64));
    assert(un_window(b) =~= zero_pad(eu, USER_NAME_SIZE as nat));
    assert(em_window(b) =~= zero_pad(ee, EMAIL_SIZE as nat));
    crate::bytes_util::lemma_first_zero_of_padded(eu, USER_NAME_SIZE as nat);
    crate::bytes_util::lemma_first_zero_of_padded(ee, EMAIL_SIZE as nat);
    vstd::utf8::encode_utf8_valid_utf8(user_name);
    vstd::utf8::encode_utf8_valid_utf8(email);
    vstd::utf8::encode_utf8_decode_utf8(user_name);
    vstd::utf8::encode_utf8_decode_utf8(email);
}

} // verus!
