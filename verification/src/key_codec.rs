//! Serialization of search keys.
//!
//! A component is a 1-byte variant tag followed by the variant's natural
//! serialization: fixed-width little-endian for the numeric variants, a
//! single byte for booleans, the code point as 4 bytes for characters, and
//! an 8-byte length prefix followed by the bytes for strings (UTF-8) and
//! byte sequences. A component sequence is serialized as an 8-byte count
//! followed by the components.

use vstd::prelude::*;

verus! {

use vstd::bytes::spec_u16_to_le_bytes;
use vstd::bytes::spec_u16_from_le_bytes;
use vstd::bytes::spec_u32_to_le_bytes;
use vstd::bytes::spec_u32_from_le_bytes;
use vstd::bytes::spec_u64_to_le_bytes;
use vstd::bytes::spec_u64_from_le_bytes;
use vstd::bytes::spec_u128_to_le_bytes;
use vstd::bytes::spec_u128_from_le_bytes;
use vstd::bytes::lemma_auto_spec_u16_to_from_le_bytes;
use vstd::bytes::lemma_auto_spec_u32_to_from_le_bytes;
use vstd::bytes::lemma_auto_spec_u64_to_from_le_bytes;
use vstd::bytes::lemma_auto_spec_u128_to_from_le_bytes;
use vstd::bytes::u16_to_le_bytes;
use vstd::bytes::u16_from_le_bytes;
use vstd::bytes::u32_to_le_bytes;
use vstd::bytes::u32_from_le_bytes;
use vstd::bytes::u64_to_le_bytes;
use vstd::bytes::u64_from_le_bytes;
use vstd::bytes::u128_to_le_bytes;
use vstd::bytes::u128_from_le_bytes;
use vstd::slice::slice_subrange;
use vstd::slice::slice_to_vec;
use vstd::utf8::encode_utf8;
use vstd::utf8::decode_utf8;
use vstd::utf8::valid_utf8;
use vstd::utf8::is_scalar;
use vstd::utf8::char_is_scalar;
use vstd::utf8::char_u32_cast;
use vstd::utf8::encode_utf8_valid_utf8;
use vstd::utf8::encode_utf8_decode_utf8;
use crate::keys::Key;
use crate::keys::KeyModel;
use crate::keys::SearchKey;
use crate::keys::keys_view;

/// The natural serialization of one component, tag byte first.
pub open spec fn spec_encode_key(k: KeyModel) -> Seq<u8> {
    match k {
        KeyModel::Bool(b) => seq![0u8, if b { 1u8 } else { 0u8 }],
        KeyModel::I(x) => seq![1u8, x as u8],
        KeyModel::U8(x) => seq![2u8, x],
        KeyModel::I16(x) => seq![3u8] + spec_u16_to_le_bytes(x as u16),
        KeyModel::U16(x) => seq![4u8] + spec_u16_to_le_bytes(x),
        KeyModel::I32(x) => seq![5u8] + spec_u32_to_le_bytes(x as u32),
        KeyModel::U32(x) => seq![6u8] + spec_u32_to_le_bytes(x),
        KeyModel::I64(x) => seq![7u8] + spec_u64_to_le_bytes(x as u64),
        KeyModel::U64(x) => seq![8u8] + spec_u64_to_le_bytes(x),
        KeyModel::USIZE(x) => seq![9u8] + spec_u64_to_le_bytes(x as u64),
        KeyModel::I128(x) => seq![10u8] + spec_u64_to_le_bytes(x) + spec_u64_to_le_bytes(0u64),
        KeyModel::U128(x) => seq![11u8] + spec_u128_to_le_bytes(x),
        KeyModel::Char(c) => seq![12u8] + spec_u32_to_le_bytes(c as u32),
        KeyModel::Str(s) => seq![13u8] + spec_u64_to_le_bytes(encode_utf8(s).len() as u64)
            + encode_utf8(s),
        KeyModel::Bytes(b) => seq![14u8] + spec_u64_to_le_bytes(b.len() as u64) + b,
    }
}

/// A component is encodable when its variable-length payload fits its
/// length prefix; every component built in executable code is.
pub open spec fn key_encodable(k: KeyModel) -> bool {
    match k {
        KeyModel::Str(s) => encode_utf8(s).len() <= u64::MAX,
        KeyModel::Bytes(b) => b.len() <= u64::MAX,
        _ => true,
    }
}

/// Reads one component at `pos`; returns it and the position after it.
pub open spec fn spec_decode_key_at(data: Seq<u8>, pos: int) -> Option<(KeyModel, int)> {
    if !(0 <= pos && pos < data.len()) {
        None
    } else {
        let tag = data[pos];
        let rest = data.len() - pos - 1;
        if tag == 0 {
            if rest < 1 {
                None
            } else if data[pos + 1] == 0 {
                Some((KeyModel::Bool(false), pos + 2))
            } else if data[pos + 1] == 1 {
                Some((KeyModel::Bool(true), pos + 2))
            } else {
                None
            }
        } else if tag == 1 {
            if rest < 1 {
                None
            } else {
                Some((KeyModel::I(data[pos + 1] as i8), pos + 2))
            }
        } else if tag == 2 {
            if rest < 1 {
                None
            } else {
                Some((KeyModel::U8(data[pos + 1]), pos + 2))
            }
        } else if tag == 3 {
            if rest < 2 {
                None
            } else {
                Some(
                    (
                        KeyModel::I16(
                            spec_u16_from_le_bytes(data.subrange(pos + 1, pos + 3)) as i16,
                        ),
                        pos + 3,
                    ),
                )
            }
        } else if tag == 4 {
            if rest < 2 {
                None
            } else {
                Some((KeyModel::U16(spec_u16_from_le_bytes(data.subrange(pos + 1, pos + 3))), pos + 3))
            }
        } else if tag == 5 {
            if rest < 4 {
                None
            } else {
                Some(
                    (
                        KeyModel::I32(
                            spec_u32_from_le_bytes(data.subrange(pos + 1, pos + 5)) as i32,
                        ),
                        pos + 5,
                    ),
                )
            }
        } else if tag == 6 {
            if rest < 4 {
                None
            } else {
                Some((KeyModel::U32(spec_u32_from_le_bytes(data.subrange(pos + 1, pos + 5))), pos + 5))
            }
        } else if tag == 7 {
            if rest < 8 {
                None
            } else {
                Some(
                    (
                        KeyModel::I64(
                            spec_u64_from_le_bytes(data.subrange(pos + 1, pos + 9)) as i64,
                        ),
                        pos + 9,
                    ),
                )
            }
        } else if tag == 8 {
            if rest < 8 {
                None
            } else {
                Some((KeyModel::U64(spec_u64_from_le_bytes(data.subrange(pos + 1, pos + 9))), pos + 9))
            }
        } else if tag == 9 {
            if rest < 8 {
                None
            } else {
                let x = spec_u64_from_le_bytes(data.subrange(pos + 1, pos + 9));
                if x <= usize::MAX {
                    Some((KeyModel::USIZE(x as usize), pos + 9))
                } else {
                    None
                }
            }
        } else if tag == 10 {
            if rest < 16 {
                None
            } else {
                let lo = spec_u64_from_le_bytes(data.subrange(pos + 1, pos + 9));
                let hi = spec_u64_from_le_bytes(data.subrange(pos + 9, pos + 17));
                if hi == 0 {
                    Some((KeyModel::I128(lo), pos + 17))
                } else {
                    None
                }
            }
        } else if tag == 11 {
            if rest < 16 {
                None
            } else {
                Some(
                    (
                        KeyModel::U128(spec_u128_from_le_bytes(data.subrange(pos + 1, pos + 17))),
                        pos + 17,
                    ),
                )
            }
        } else if tag == 12 {
            if rest < 4 {
                None
            } else {
                let u = spec_u32_from_le_bytes(data.subrange(pos + 1, pos + 5));
                if is_scalar(u) {
                    Some((KeyModel::Char(u as char), pos + 5))
                } else {
                    None
                }
            }
        } else if tag == 13 {
            if rest < 8 {
                None
            } else {
                let len = spec_u64_from_le_bytes(data.subrange(pos + 1, pos + 9)) as int;
                if data.len() - pos - 9 < len {
                    None
                } else {
                    let chunk = data.subrange(pos + 9, pos + 9 + len);
                    if valid_utf8(chunk) {
                        Some((KeyModel::Str(decode_utf8(chunk)), pos + 9 + len))
                    } else {
                        None
                    }
                }
            }
        } else if tag == 14 {
            if rest < 8 {
                None
            } else {
                let len = spec_u64_from_le_bytes(data.subrange(pos + 1, pos + 9)) as int;
                if data.len() - pos - 9 < len {
                    None
                } else {
                    Some((KeyModel::Bytes(data.subrange(pos + 9, pos + 9 + len)), pos + 9 + len))
                }
            }
        } else {
            None
        }
    }
}

/// Within a concatenation, the middle part's bytes read back unchanged.
proof fn lemma_mid_subrange(pre: Seq<u8>, mid: Seq<u8>, post: Seq<u8>, i: int, j: int)
    requires
        0 <= i <= j <= mid.len(),
    ensures
        (pre + mid + post).subrange(pre.len() + i, pre.len() + j) == mid.subrange(i, j),
        forall|q: int|
            0 <= q < mid.len() ==> #[trigger] (pre + mid + post)[pre.len() + q] == mid[q],
{
    let data = pre + mid + post;
    assert forall|q: int| 0 <= q < mid.len() implies #[trigger] data[pre.len() + q] == mid[q] by {
        assert(data[pre.len() + q] == (pre + mid)[pre.len() + q]);
    }
    assert(data.subrange(pre.len() + i, pre.len() + j) =~= mid.subrange(i, j));
}

pub proof fn lemma_key_codec_at(pre: Seq<u8>, k: KeyModel, post: Seq<u8>)
    requires
        key_encodable(k),
    ensures
        spec_decode_key_at(pre + spec_encode_key(k) + post, pre.len() as int) == Some(
            (k, pre.len() + spec_encode_key(k).len() as int),
        ),
{
    lemma_auto_spec_u16_to_from_le_bytes();
    lemma_auto_spec_u32_to_from_le_bytes();
    lemma_auto_spec_u64_to_from_le_bytes();
    lemma_auto_spec_u128_to_from_le_bytes();
    let mid = spec_encode_key(k);
    let data = pre + mid + post;
    let pos = pre.len() as int;
    lemma_mid_subrange(pre, mid, post, 0, 0);
    assert(data[pos] == mid[0]);
    match k {
        KeyModel::Bool(b) => {
            assert(data[pos + 1] == mid[1]);
        },
        KeyModel::I(x) => {
            assert(data[pos + 1] == mid[1]);
            assert((x as u8) as i8 == x) by (bit_vector);
        },
        KeyModel::U8(x) => {
            assert(data[pos + 1] == mid[1]);
        },
        KeyModel::I16(x) => {
            lemma_mid_subrange(pre, mid, post, 1, 3);
            assert(mid.subrange(1, 3) =~= spec_u16_to_le_bytes(x as u16));
            assert(((x as u16) as i16) == x) by (bit_vector);
        },
        KeyModel::U16(x) => {
            lemma_mid_subrange(pre, mid, post, 1, 3);
            assert(mid.subrange(1, 3) =~= spec_u16_to_le_bytes(x));
        },
        KeyModel::I32(x) => {
            lemma_mid_subrange(pre, mid, post, 1, 5);
            assert(mid.subrange(1, 5) =~= spec_u32_to_le_bytes(x as u32));
            assert(((x as u32) as i32) == x) by (bit_vector);
        },
        KeyModel::U32(x) => {
            lemma_mid_subrange(pre, mid, post, 1, 5);
            assert(mid.subrange(1, 5) =~= spec_u32_to_le_bytes(x));
        },
        KeyModel::I64(x) => {
            lemma_mid_subrange(pre, mid, post, 1, 9);
            assert(mid.subrange(1, 9) =~= spec_u64_to_le_bytes(x as u64));
            assert(((x as u64) as i64) == x) by (bit_vector);
        },
        KeyModel::U64(x) => {
            lemma_mid_subrange(pre, mid, post, 1, 9);
            assert(mid.subrange(1, 9) =~= spec_u64_to_le_bytes(x));
        },
        KeyModel::USIZE(x) => {
            lemma_mid_subrange(pre, mid, post, 1, 9);
            assert(mid.subrange(1, 9) =~= spec_u64_to_le_bytes(x as u64));
        },
        KeyModel::I128(x) => {
            lemma_mid_subrange(pre, mid, post, 1, 9);
            lemma_mid_subrange(pre, mid, post, 9, 17);
            assert(mid.subrange(1, 9) =~= spec_u64_to_le_bytes(x));
            assert(mid.subrange(9, 17) =~= spec_u64_to_le_bytes(0u64));
        },
        KeyModel::U128(x) => {
            lemma_mid_subrange(pre, mid, post, 1, 17);
            assert(mid.subrange(1, 17) =~= spec_u128_to_le_bytes(x));
        },
        KeyModel::Char(c) => {
            lemma_mid_subrange(pre, mid, post, 1, 5);
            assert(mid.subrange(1, 5) =~= spec_u32_to_le_bytes(c as u32));
            char_is_scalar(c);
            char_u32_cast(c, c as u32);
        },
        KeyModel::Str(s) => {
            let bytes = encode_utf8(s);
            let len = bytes.len() as int;
            lemma_mid_subrange(pre, mid, post, 1, 9);
            lemma_mid_subrange(pre, mid, post, 9, 9 + len);
            assert(mid.subrange(1, 9) =~= spec_u64_to_le_bytes(bytes.len() as u64));
            assert(mid.subrange(9, 9 + len) =~= bytes);
            encode_utf8_valid_utf8(s);
            encode_utf8_decode_utf8(s);
        },
        KeyModel::Bytes(b) => {
            let len = b.len() as int;
            lemma_mid_subrange(pre, mid, post, 1, 9);
            lemma_mid_subrange(pre, mid, post, 9, 9 + len);
            assert(mid.subrange(1, 9) =~= spec_u64_to_le_bytes(b.len() as u64));
            assert(mid.subrange(9, 9 + len) =~= b);
        },
    }
}

/// Relies on String::from_utf8: returns the decoded string exactly when the
/// bytes are valid UTF-8, and fails otherwise.
#[verifier::external_body]
fn string_from_utf8(v: Vec<u8>) -> (r: Option<String>)
    ensures
        r matches Some(s) ==> valid_utf8(v@) && s@ == decode_utf8(v@),
        r is None ==> !valid_utf8(v@),
{
    match String::from_utf8(v) {
        Ok(s) => Some(s),
        Err(_) => None,
    }
}

/// Relies on char::from_u32: succeeds exactly on Unicode scalar values and
/// returns the character with that code point.
#[verifier::external_body]
fn char_from_u32(x: u32) -> (r: Option<char>)
    ensures
        r matches Some(c) ==> is_scalar(x) && c as u32 == x,
        r is None ==> !is_scalar(x),
{
    char::from_u32(x)
}

/// Appends one component's serialization, tag byte first.
pub fn encode_key(k: &Key, out: &mut Vec<u8>)
    ensures
        final(out)@ == old(out)@ + spec_encode_key(k@),
        key_encodable(k@),
{
    match k {
        Key::Bool(b) => {
            out.push(0);
            out.push(if *b { 1 } else { 0 });
        },
        Key::I(x) => {
            out.push(1);
            out.push(*x as u8);
        },
        Key::U8(x) => {
            out.push(2);
            out.push(*x);
        },
        Key::I16(x) => {
            out.push(3);
            let mut t = u16_to_le_bytes(*x as u16);
            out.append(&mut t);
        },
        Key::U16(x) => {
            out.push(4);
            let mut t = u16_to_le_bytes(*x);
            out.append(&mut t);
        },
        Key::I32(x) => {
            out.push(5);
            let mut t = u32_to_le_bytes(*x as u32);
            out.append(&mut t);
        },
        Key::U32(x) => {
            out.push(6);
            let mut t = u32_to_le_bytes(*x);
            out.append(&mut t);
        },
        Key::I64(x) => {
            out.push(7);
            let mut t = u64_to_le_bytes(*x as u64);
            out.append(&mut t);
        },
        Key::U64(x) => {
            out.push(8);
            let mut t = u64_to_le_bytes(*x);
            out.append(&mut t);
        },
        Key::USIZE(x) => {
            out.push(9);
            let mut t = u64_to_le_bytes(*x as u64);
            out.append(&mut t);
        },
        Key::I128(x) => {
            out.push(10);
            let mut lo = u64_to_le_bytes(*x);
            out.append(&mut lo);
            let mut hi = u64_to_le_bytes(0);
            out.append(&mut hi);
        },
        Key::U128(x) => {
            out.push(11);
            let mut t = u128_to_le_bytes(*x);
            out.append(&mut t);
        },
        Key::Char(c) => {
            out.push(12);
            let mut t = u32_to_le_bytes(*c as u32);
            out.append(&mut t);
        },
        Key::Str(s) => {
            out.push(13);
            let bytes = s.as_str().as_bytes();
            let mut t = u64_to_le_bytes(bytes.len() as u64);
            out.append(&mut t);
            push_bytes_local(out, bytes);
        },
        Key::Bytes(b) => {
            out.push(14);
            let mut t = u64_to_le_bytes(b.len() as u64);
            out.append(&mut t);
            push_bytes_local(out, b.as_slice());
        },
    }
    proof {
        assert(out@ =~= old(out)@ + spec_encode_key(k@));
    }
}

/// Appends a byte slice to a vector.
fn push_bytes_local(out: &mut Vec<u8>, b: &[u8])
    ensures
        final(out)@ == old(out)@ + b@,
{
    crate::codec::push_bytes(out, b)
}

/// Parses one component at `pos`; returns it and the position after it.
pub fn decode_key_at(data: &[u8], pos: usize) -> (r: Option<(Key, usize)>)
    requires
        pos <= data@.len(),
    ensures
        match r {
            Some(p) => spec_decode_key_at(data@, pos as int) == Some((p.0@, p.1 as int)) && pos
                < p.1 <= data@.len(),
            None => spec_decode_key_at(data@, pos as int) is None,
        },
{
    proof {
        lemma_auto_spec_u16_to_from_le_bytes();
        lemma_auto_spec_u32_to_from_le_bytes();
        lemma_auto_spec_u64_to_from_le_bytes();
        lemma_auto_spec_u128_to_from_le_bytes();
    }
    let n = data.len();
    if pos >= n {
        return None;
    }
    let tag = data[pos];
    let rest = n - pos - 1;
    if tag == 0 {
        if rest < 1 {
            return None;
        }
        let b = data[pos + 1];
        if b == 0 {
            Some((Key::Bool(false), pos + 2))
        } else if b == 1 {
            Some((Key::Bool(true), pos + 2))
        } else {
            None
        }
    } else if tag == 1 {
        if rest < 1 {
            return None;
        }
        Some((Key::I(data[pos + 1] as i8), pos + 2))
    } else if tag == 2 {
        if rest < 1 {
            return None;
        }
        Some((Key::U8(data[pos + 1]), pos + 2))
    } else if tag == 3 {
        if rest < 2 {
            return None;
        }
        let x = u16_from_le_bytes(slice_subrange(data, pos + 1, pos + 3));
        Some((Key::I16(x as i16), pos + 3))
    } else if tag == 4 {
        if rest < 2 {
            return None;
        }
        let x = u16_from_le_bytes(slice_subrange(data, pos + 1, pos + 3));
        Some((Key::U16(x), pos + 3))
    } else if tag == 5 {
        if rest < 4 {
            return None;
        }
        let x = u32_from_le_bytes(slice_subrange(data, pos + 1, pos + 5));
        Some((Key::I32(x as i32), pos + 5))
    } else if tag == 6 {
        if rest < 4 {
            return None;
        }
        let x = u32_from_le_bytes(slice_subrange(data, pos + 1, pos + 5));
        Some((Key::U32(x), pos + 5))
    } else if tag == 7 {
        if rest < 8 {
            return None;
        }
        let x = u64_from_le_bytes(slice_subrange(data, pos + 1, pos + 9));
        Some((Key::I64(x as i64), pos + 9))
    } else if tag == 8 {
        if rest < 8 {
            return None;
        }
        let x = u64_from_le_bytes(slice_subrange(data, pos + 1, pos + 9));
        Some((Key::U64(x), pos + 9))
    } else if tag == 9 {
        if rest < 8 {
            return None;
        }
        let x = u64_from_le_bytes(slice_subrange(data, pos + 1, pos + 9));
        if x > (usize::MAX as u64) {
            return None;
        }
        Some((Key::USIZE(x as usize), pos + 9))
    } else if tag == 10 {
        if rest < 16 {
            return None;
        }
        let lo = u64_from_le_bytes(slice_subrange(data, pos + 1, pos + 9));
        let hi = u64_from_le_bytes(slice_subrange(data, pos + 9, pos + 17));
        if hi != 0 {
            return None;
        }
        Some((Key::I128(lo), pos + 17))
    } else if tag == 11 {
        if rest < 16 {
            return None;
        }
        let x = u128_from_le_bytes(slice_subrange(data, pos + 1, pos + 17));
        Some((Key::U128(x), pos + 17))
    } else if tag == 12 {
        if rest < 4 {
            return None;
        }
        let u = u32_from_le_bytes(slice_subrange(data, pos + 1, pos + 5));
        match char_from_u32(u) {
            Some(c) => {
                proof {
                    char_u32_cast(c, u);
                }
                Some((Key::Char(c), pos + 5))
            },
            None => None,
        }
    } else if tag == 13 {
        if rest < 8 {
            return None;
        }
        let len64 = u64_from_le_bytes(slice_subrange(data, pos + 1, pos + 9));
        let avail = n - pos - 9;
        if len64 > (avail as u64) {
            return None;
        }
        let len = len64 as usize;
        let chunk = slice_to_vec(slice_subrange(data, pos + 9, pos + 9 + len));
        match string_from_utf8(chunk) {
            Some(s) => Some((Key::Str(s), pos + 9 + len)),
            None => None,
        }
    } else if tag == 14 {
        if rest < 8 {
            return None;
        }
        let len64 = u64_from_le_bytes(slice_subrange(data, pos + 1, pos + 9));
        let avail = n - pos - 9;
        if len64 > (avail as u64) {
            return None;
        }
        let len = len64 as usize;
        let chunk = slice_to_vec(slice_subrange(data, pos + 9, pos + 9 + len));
        Some((Key::Bytes(chunk), pos + 9 + len))
    } else {
        None
    }
}

/// The concatenated serializations of a component sequence.
pub open spec fn spec_encode_keys(s: Seq<KeyModel>) -> Seq<u8>
    decreases s.len(),
{
    if s.len() == 0 {
        Seq::empty()
    } else {
        spec_encode_key(s[0]) + spec_encode_keys(s.drop_first())
    }
}

pub proof fn lemma_encode_keys_snoc(s: Seq<KeyModel>, k: KeyModel)
    ensures
        spec_encode_keys(s.push(k)) == spec_encode_keys(s) + spec_encode_key(k),
    decreases s.len(),
{
    if s.len() == 0 {
        assert(s.push(k)[0] == k);
        assert(s.push(k).drop_first() =~= Seq::<KeyModel>::empty());
        assert(spec_encode_keys(s.push(k)) == spec_encode_key(k) + spec_encode_keys(
            Seq::<KeyModel>::empty(),
        ));
        assert(spec_encode_keys(Seq::<KeyModel>::empty()) == Seq::<u8>::empty());
        assert(spec_encode_keys(s.push(k)) =~= spec_encode_keys(s) + spec_encode_key(k));
    } else {
        assert(s.push(k)[0] == s[0]);
        assert(s.push(k).drop_first() =~= s.drop_first().push(k));
        lemma_encode_keys_snoc(s.drop_first(), k);
        assert(spec_encode_keys(s.push(k)) == spec_encode_key(s[0]) + spec_encode_keys(
            s.drop_first().push(k),
        ));
        assert(spec_encode_key(s[0]) + (spec_encode_keys(s.drop_first()) + spec_encode_key(k))
            =~= spec_encode_keys(s) + spec_encode_key(k));
    }
}

/// The serialization of a search key: 8-byte component count, then the
/// components.
pub open spec fn spec_encode_search_key(s: Seq<KeyModel>) -> Seq<u8> {
    spec_u64_to_le_bytes(s.len() as u64) + spec_encode_keys(s)
}

pub open spec fn search_key_encodable(s: Seq<KeyModel>) -> bool {
    s.len() <= u64::MAX && forall|i: int| 0 <= i < s.len() ==> key_encodable(#[trigger] s[i])
}

/// Reads `n` components starting at `pos`.
pub open spec fn spec_decode_keys(data: Seq<u8>, pos: int, n: nat) -> Option<(Seq<KeyModel>, int)>
    decreases n,
{
    if n == 0 {
        Some((Seq::empty(), pos))
    } else {
        match spec_decode_key_at(data, pos) {
            None => None,
            Some(p) => match spec_decode_keys(data, p.1, (n - 1) as nat) {
                None => None,
                Some(q) => Some((seq![p.0] + q.0, q.1)),
            },
        }
    }
}

/// Reads a search key at `pos`: the count, then that many components.
pub open spec fn spec_decode_search_key_at(data: Seq<u8>, pos: int) -> Option<
    (Seq<KeyModel>, int),
> {
    if pos < 0 || data.len() - pos < 8 {
        None
    } else {
        let n = spec_u64_from_le_bytes(data.subrange(pos, pos + 8));
        spec_decode_keys(data, pos + 8, n as nat)
    }
}

pub proof fn lemma_keys_codec_at(pre: Seq<u8>, ks: Seq<KeyModel>, post: Seq<u8>)
    requires
        forall|i: int| 0 <= i < ks.len() ==> key_encodable(#[trigger] ks[i]),
    ensures
        spec_decode_keys(pre + spec_encode_keys(ks) + post, pre.len() as int, ks.len()) == Some(
            (ks, pre.len() + spec_encode_keys(ks).len() as int),
        ),
    decreases ks.len(),
{
    let data = pre + spec_encode_keys(ks) + post;
    if ks.len() == 0 {
        assert(ks =~= Seq::<KeyModel>::empty());
        assert(spec_decode_keys(data, pre.len() as int, 0) == Some(
            (Seq::<KeyModel>::empty(), pre.len() as int),
        ));
    } else {
        let k0 = ks[0];
        let kr = ks.drop_first();
        let e0 = spec_encode_key(k0);
        let er = spec_encode_keys(kr);
        assert(spec_encode_keys(ks) == e0 + er);
        assert(data =~= pre + e0 + (er + post));
        lemma_key_codec_at(pre, k0, er + post);
        assert(spec_decode_key_at(data, pre.len() as int) == Some(
            (k0, pre.len() + e0.len() as int),
        ));
        assert(data =~= (pre + e0) + er + post);
        assert(forall|i: int| 0 <= i < kr.len() ==> key_encodable(#[trigger] kr[i])) by {
            assert(forall|i: int|
                0 <= i < kr.len() ==> #[trigger] kr[i] == ks[i + 1] && key_encodable(ks[i + 1]));
        }
        lemma_keys_codec_at(pre + e0, kr, post);
        assert((pre + e0).len() == pre.len() + e0.len());
        assert(spec_decode_keys(data, pre.len() + e0.len() as int, kr.len()) == Some(
            (kr, pre.len() + e0.len() + er.len() as int),
        ));
        assert(seq![k0] + kr =~= ks);
        assert((e0 + er).len() == e0.len() + er.len());
    }
}

pub proof fn lemma_search_key_codec_at(pre: Seq<u8>, ks: Seq<KeyModel>, post: Seq<u8>)
    requires
        search_key_encodable(ks),
    ensures
        spec_decode_search_key_at(pre + spec_encode_search_key(ks) + post, pre.len() as int)
            == Some((ks, pre.len() + spec_encode_search_key(ks).len() as int)),
{
    lemma_auto_spec_u64_to_from_le_bytes();
    let tag = spec_u64_to_le_bytes(ks.len() as u64);
    let body = spec_encode_keys(ks);
    let mid = spec_encode_search_key(ks);
    let data = pre + mid + post;
    lemma_mid_subrange(pre, mid, post, 0, 8);
    assert(mid.subrange(0, 8) =~= tag);
    assert(data.subrange(pre.len() as int, pre.len() + 8 as int) == tag);
    assert(data =~= (pre + tag) + body + post);
    lemma_keys_codec_at(pre + tag, ks, post);
}

/// Appends a search key's serialization.
pub fn encode_search_key(sk: &SearchKey, out: &mut Vec<u8>)
    ensures
        final(out)@ == old(out)@ + spec_encode_search_key(sk@),
        search_key_encodable(sk@),
{
    let ks = sk.slice();
    let mut t = u64_to_le_bytes(ks.len() as u64);
    out.append(&mut t);
    let mut i: usize = 0;
    proof {
        assert(keys_view(ks@).subrange(0, 0) =~= Seq::<KeyModel>::empty());
    }
    while i < ks.len()
        invariant
            i <= ks@.len(),
            sk@ == keys_view(ks@),
            out@ == old(out)@ + spec_u64_to_le_bytes(ks@.len() as u64) + spec_encode_keys(
                keys_view(ks@).subrange(0, i as int),
            ),
            forall|j: int| 0 <= j < i ==> key_encodable(#[trigger] keys_view(ks@)[j]),
        decreases ks@.len() - i,
    {
        let k = vstd::slice::slice_index_get(ks, i);
        proof {
            let views = keys_view(ks@);
            assert(views.subrange(0, i as int + 1) =~= views.subrange(0, i as int).push(
                views[i as int],
            ));
            lemma_encode_keys_snoc(views.subrange(0, i as int), views[i as int]);
        }
        encode_key(k, out);
        i += 1;
    }
    proof {
        assert(keys_view(ks@).subrange(0, ks@.len() as int) =~= keys_view(ks@));
    }
}

/// Joins a parsed prefix with the rest of a component-sequence parse.
pub open spec fn compose_keys(prefix: Seq<KeyModel>, r: Option<(Seq<KeyModel>, int)>) -> Option<
    (Seq<KeyModel>, int),
> {
    match r {
        None => None,
        Some(p) => Some((prefix + p.0, p.1)),
    }
}

proof fn lemma_compose_keys_empty(r: Option<(Seq<KeyModel>, int)>)
    ensures
        compose_keys(Seq::empty(), r) == r,
{
    match r {
        None => {},
        Some(p) => {
            assert(Seq::empty() + p.0 =~= p.0);
        },
    }
}

/// Parses a search key at `pos`; returns it and the position after it.
pub fn decode_search_key_at(data: &[u8], pos: usize) -> (r: Option<(SearchKey, usize)>)
    requires
        pos <= data@.len(),
    ensures
        match r {
            Some(p) => spec_decode_search_key_at(data@, pos as int) == Some((p.0@, p.1 as int))
                && p.1 <= data@.len(),
            None => spec_decode_search_key_at(data@, pos as int) is None,
        },
{
    proof {
        lemma_auto_spec_u64_to_from_le_bytes();
    }
    let dlen = data.len();
    if dlen - pos < 8 {
        return None;
    }
    let n = u64_from_le_bytes(slice_subrange(data, pos, pos + 8));
    let mut acc: Vec<Key> = Vec::new();
    let mut cur: usize = pos + 8;
    let mut i: u64 = 0;
    proof {
        lemma_compose_keys_empty(spec_decode_keys(data@, pos as int + 8, n as nat));
        assert(keys_view(acc@) =~= Seq::<KeyModel>::empty());
    }
    while i < n
        invariant
            i <= n,
            pos + 8 <= cur <= data@.len(),
            spec_decode_search_key_at(data@, pos as int) == compose_keys(
                keys_view(acc@),
                spec_decode_keys(data@, cur as int, (n - i) as nat),
            ),
        decreases n - i,
    {
        match decode_key_at(data, cur) {
            None => {
                return None;
            },
            Some((k, np)) => {
                proof {
                    let inner = spec_decode_keys(data@, np as int, (n - i - 1) as nat);
                    match inner {
                        None => {},
                        Some(q) => {
                            assert(keys_view(acc@) + (seq![k@] + q.0) =~= keys_view(acc@.push(k))
                                + q.0) by {
                                assert(keys_view(acc@.push(k)) =~= keys_view(acc@).push(k@));
                            }
                        },
                    }
                }
                acc.push(k);
                cur = np;
            },
        }
        i += 1;
    }
    proof {
        assert(keys_view(acc@) + Seq::<KeyModel>::empty() =~= keys_view(acc@));
    }
    let sk = SearchKey::new(acc);
    Some((sk, cur))
}

/// The sorted-map insertion payload: length-prefixed outer key, the search
/// key, then the length-prefixed value.
pub open spec fn spec_encode_sorted_entry(
    key: Seq<u8>,
    sk: Seq<KeyModel>,
    value: Seq<u8>,
) -> Seq<u8> {
    spec_u32_to_le_bytes(key.len() as u32) + key + spec_encode_search_key(sk)
        + spec_u32_to_le_bytes(value.len() as u32) + value
}

/// Strict inverse of `spec_encode_sorted_entry`.
pub open spec fn spec_decode_sorted_entry(data: Seq<u8>) -> Option<
    (Seq<u8>, Seq<KeyModel>, Seq<u8>),
> {
    if data.len() < 4 {
        None
    } else {
        let klen = spec_u32_from_le_bytes(data.subrange(0, 4)) as int;
        if data.len() < 4 + klen {
            None
        } else {
            let key = data.subrange(4, 4 + klen);
            match spec_decode_search_key_at(data, 4 + klen) {
                None => None,
                Some(p) => {
                    if data.len() - p.1 < 4 {
                        None
                    } else {
                        let vlen = spec_u32_from_le_bytes(data.subrange(p.1, p.1 + 4)) as int;
                        if data.len() != p.1 + 4 + vlen {
                            None
                        } else {
                            Some((key, p.0, data.subrange(p.1 + 4, p.1 + 4 + vlen)))
                        }
                    }
                },
            }
        }
    }
}

/// The sorted-map removal payload: length-prefixed outer key, then the
/// search key.
pub open spec fn spec_encode_sorted_key(key: Seq<u8>, sk: Seq<KeyModel>) -> Seq<u8> {
    spec_u32_to_le_bytes(key.len() as u32) + key + spec_encode_search_key(sk)
}

/// Strict inverse of `spec_encode_sorted_key`.
pub open spec fn spec_decode_sorted_key(data: Seq<u8>) -> Option<(Seq<u8>, Seq<KeyModel>)> {
    if data.len() < 4 {
        None
    } else {
        let klen = spec_u32_from_le_bytes(data.subrange(0, 4)) as int;
        if data.len() < 4 + klen {
            None
        } else {
            let key = data.subrange(4, 4 + klen);
            match spec_decode_search_key_at(data, 4 + klen) {
                None => None,
                Some(p) => {
                    if p.1 != data.len() {
                        None
                    } else {
                        Some((key, p.0))
                    }
                },
            }
        }
    }
}

pub proof fn lemma_sorted_entry_round_trip(key: Seq<u8>, sk: Seq<KeyModel>, value: Seq<u8>)
    requires
        key.len() <= u32::MAX,
        value.len() <= u32::MAX,
        search_key_encodable(sk),
    ensures
        spec_decode_sorted_entry(spec_encode_sorted_entry(key, sk, value)) == Some(
            (key, sk, value),
        ),
{
    lemma_auto_spec_u32_to_from_le_bytes();
    let ktag = spec_u32_to_le_bytes(key.len() as u32);
    let skb = spec_encode_search_key(sk);
    let vtag = spec_u32_to_le_bytes(value.len() as u32);
    let data = spec_encode_sorted_entry(key, sk, value);
    let klen = key.len() as int;
    assert(data.subrange(0, 4) =~= ktag);
    assert(data.subrange(4, 4 + klen) =~= key);
    assert(data =~= (ktag + key) + skb + (vtag + value));
    lemma_search_key_codec_at(ktag + key, sk, vtag + value);
    let p = 4 + klen + skb.len() as int;
    assert(spec_decode_search_key_at(data, 4 + klen) == Some((sk, p)));
    assert(data.subrange(p, p + 4) =~= vtag);
    assert(data.subrange(p + 4, p + 4 + value.len() as int) =~= value);
}

pub proof fn lemma_sorted_key_round_trip(key: Seq<u8>, sk: Seq<KeyModel>)
    requires
        key.len() <= u32::MAX,
        search_key_encodable(sk),
    ensures
        spec_decode_sorted_key(spec_encode_sorted_key(key, sk)) == Some((key, sk)),
{
    lemma_auto_spec_u32_to_from_le_bytes();
    let ktag = spec_u32_to_le_bytes(key.len() as u32);
    let skb = spec_encode_search_key(sk);
    let data = spec_encode_sorted_key(key, sk);
    let klen = key.len() as int;
    assert(data.subrange(0, 4) =~= ktag);
    assert(data.subrange(4, 4 + klen) =~= key);
    assert(data =~= (ktag + key) + skb + Seq::<u8>::empty());
    lemma_search_key_codec_at(ktag + key, sk, Seq::empty());
}

/// Builds the sorted-map insertion payload.
pub fn encode_sorted_entry(key: &Vec<u8>, sk: &SearchKey, value: &Vec<u8>) -> (r: Vec<u8>)
    requires
        key@.len() <= u32::MAX,
        value@.len() <= u32::MAX,
    ensures
        r@ == spec_encode_sorted_entry(key@, sk@, value@),
        search_key_encodable(sk@),
{
    let mut out = u32_to_le_bytes(key.len() as u32);
    push_bytes_local(&mut out, key.as_slice());
    encode_search_key(sk, &mut out);
    let mut vtag = u32_to_le_bytes(value.len() as u32);
    out.append(&mut vtag);
    push_bytes_local(&mut out, value.as_slice());
    proof {
        assert(out@ =~= spec_encode_sorted_entry(key@, sk@, value@));
    }
    out
}

/// Builds the sorted-map removal payload.
pub fn encode_sorted_key(key: &Vec<u8>, sk: &SearchKey) -> (r: Vec<u8>)
    requires
        key@.len() <= u32::MAX,
    ensures
        r@ == spec_encode_sorted_key(key@, sk@),
        search_key_encodable(sk@),
{
    let mut out = u32_to_le_bytes(key.len() as u32);
    push_bytes_local(&mut out, key.as_slice());
    encode_search_key(sk, &mut out);
    proof {
        assert(out@ =~= spec_encode_sorted_key(key@, sk@));
    }
    out
}

/// Parses the sorted-map insertion payload; `None` on any malformation.
pub fn decode_sorted_entry(data: &[u8]) -> (r: Option<(Vec<u8>, SearchKey, Vec<u8>)>)
    ensures
        match r {
            Some(p) => spec_decode_sorted_entry(data@) == Some((p.0@, p.1@, p.2@)),
            None => spec_decode_sorted_entry(data@) is None,
        },
{
    proof {
        lemma_auto_spec_u32_to_from_le_bytes();
    }
    let n = data.len();
    if n < 4 {
        return None;
    }
    let klen = u32_from_le_bytes(slice_subrange(data, 0, 4)) as usize;
    if n - 4 < klen {
        return None;
    }
    let key = slice_to_vec(slice_subrange(data, 4, 4 + klen));
    match decode_search_key_at(data, 4 + klen) {
        None => None,
        Some((sk, p)) => {
            if n - p < 4 {
                return None;
            }
            let vlen = u32_from_le_bytes(slice_subrange(data, p, p + 4)) as usize;
            if n - p - 4 != vlen {
                return None;
            }
            let value = slice_to_vec(slice_subrange(data, p + 4, p + 4 + vlen));
            Some((key, sk, value))
        },
    }
}

/// Parses the sorted-map removal payload; `None` on any malformation.
pub fn decode_sorted_key(data: &[u8]) -> (r: Option<(Vec<u8>, SearchKey)>)
    ensures
        match r {
            Some(p) => spec_decode_sorted_key(data@) == Some((p.0@, p.1@)),
            None => spec_decode_sorted_key(data@) is None,
        },
{
    proof {
        lemma_auto_spec_u32_to_from_le_bytes();
    }
    let n = data.len();
    if n < 4 {
        return None;
    }
    let klen = u32_from_le_bytes(slice_subrange(data, 0, 4)) as usize;
    if n - 4 < klen {
        return None;
    }
    let key = slice_to_vec(slice_subrange(data, 4, 4 + klen));
    match decode_search_key_at(data, 4 + klen) {
        None => None,
        Some((sk, p)) => {
            if p != n {
                return None;
            }
            Some((key, sk))
        },
    }
}

} // verus!
