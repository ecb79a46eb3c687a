//! Search-key components and their total order.
//!
//! A `SearchKey` is an ordered sequence of tagged scalar components (`Key`).
//! Keys of different variants are ordered by a fixed total order on the
//! variant tags (the declaration order of `Key`); keys of the same variant
//! compare by their natural ordering, where strings and byte strings order
//! lexicographically over their UTF-8 bytes and raw bytes respectively.

use vstd::prelude::*;

verus! {

use vstd::utf8::encode_utf8;
use vstd::utf8::decode_utf8;
use vstd::utf8::encode_utf8_decode_utf8;

/// Mathematical model of one search-key component: scalars as values,
/// strings as character sequences, byte strings as byte sequences.
pub enum KeyModel {
    Bool(bool),
    I(i8),
    U8(u8),
    I16(i16),
    U16(u16),
    I32(i32),
    U32(u32),
    I64(i64),
    U64(u64),
    USIZE(usize),
    I128(u64),
    U128(u128),
    Char(char),
    Str(Seq<char>),
    Bytes(Seq<u8>),
}

/// One tagged scalar component of a `SearchKey`.
#[derive(Debug, PartialEq, Eq, PartialOrd, Ord)]
pub enum Key {
    Bool(bool),
    I(i8),
    U8(u8),
    I16(i16),
    U16(u16),
    I32(i32),
    U32(u32),
    I64(i64),
    U64(u64),
    USIZE(usize),
    /// Nominally the signed 128-bit component; the payload it carries is a
    /// single unsigned 64-bit word, stored in the low half of its 16-byte
    /// serialization.
    I128(u64),
    U128(u128),
    Char(char),
    Str(String),
    Bytes(Vec<u8>),
}

impl View for Key {
    type V = KeyModel;

    open spec fn view(&self) -> KeyModel {
        match self {
            Key::Bool(x) => KeyModel::Bool(*x),
            Key::I(x) => KeyModel::I(*x),
            Key::U8(x) => KeyModel::U8(*x),
            Key::I16(x) => KeyModel::I16(*x),
            Key::U16(x) => KeyModel::U16(*x),
            Key::I32(x) => KeyModel::I32(*x),
            Key::U32(x) => KeyModel::U32(*x),
            Key::I64(x) => KeyModel::I64(*x),
            Key::U64(x) => KeyModel::U64(*x),
            Key::USIZE(x) => KeyModel::USIZE(*x),
            Key::I128(x) => KeyModel::I128(*x),
            Key::U128(x) => KeyModel::U128(*x),
            Key::Char(x) => KeyModel::Char(*x),
            Key::Str(x) => KeyModel::Str(x@),
            Key::Bytes(x) => KeyModel::Bytes(x@),
        }
    }
}

/// Position of a component's variant in the fixed cross-variant order.
pub open spec fn key_tag(k: KeyModel) -> int {
    match k {
        KeyModel::Bool(_) => 0,
        KeyModel::I(_) => 1,
        KeyModel::U8(_) => 2,
        KeyModel::I16(_) => 3,
        KeyModel::U16(_) => 4,
        KeyModel::I32(_) => 5,
        KeyModel::U32(_) => 6,
        KeyModel::I64(_) => 7,
        KeyModel::U64(_) => 8,
        KeyModel::USIZE(_) => 9,
        KeyModel::I128(_) => 10,
        KeyModel::U128(_) => 11,
        KeyModel::Char(_) => 12,
        KeyModel::Str(_) => 13,
        KeyModel::Bytes(_) => 14,
    }
}

/// Lexicographic order on byte sequences.
pub open spec fn bytes_lt(a: Seq<u8>, b: Seq<u8>) -> bool
    decreases a.len(),
{
    if b.len() == 0 {
        false
    } else if a.len() == 0 {
        true
    } else if a[0] < b[0] {
        true
    } else if a[0] > b[0] {
        false
    } else {
        bytes_lt(a.drop_first(), b.drop_first())
    }
}

pub proof fn lemma_bytes_lt_trichotomy(a: Seq<u8>, b: Seq<u8>)
    ensures
        bytes_lt(a, b) ==> !bytes_lt(b, a) && a != b,
        bytes_lt(b, a) ==> !bytes_lt(a, b) && a != b,
        !bytes_lt(a, b) && !bytes_lt(b, a) ==> a == b,
    decreases a.len(),
{
    if a.len() == 0 || b.len() == 0 {
        if a.len() == 0 && b.len() == 0 {
            assert(a =~= b);
        }
    } else if a[0] == b[0] {
        lemma_bytes_lt_trichotomy(a.drop_first(), b.drop_first());
        if !bytes_lt(a, b) && !bytes_lt(b, a) {
            assert(a.drop_first() == b.drop_first());
            assert forall|i: int| 0 <= i < a.len() implies a[i] == b[i] by {
                if i > 0 {
                    assert(a[i] == a.drop_first()[i - 1]);
                    assert(b[i] == b.drop_first()[i - 1]);
                }
            }
            assert(a =~= b);
        }
        if a == b {
            assert(a.drop_first() =~= b.drop_first());
        }
    } else {
        if a == b {
            assert(a[0] == b[0]);
        }
    }
}

pub proof fn lemma_bytes_lt_trans(a: Seq<u8>, b: Seq<u8>, c: Seq<u8>)
    requires
        bytes_lt(a, b),
        bytes_lt(b, c),
    ensures
        bytes_lt(a, c),
    decreases a.len(),
{
    if b.len() == 0 || c.len() == 0 {
    } else if a.len() == 0 {
    } else {
        if a[0] == b[0] && b[0] == c[0] {
            lemma_bytes_lt_trans(a.drop_first(), b.drop_first(), c.drop_first());
        }
    }
}

/// Order within one variant, and the tag order across variants.
pub open spec fn key_lt(a: KeyModel, b: KeyModel) -> bool {
    if key_tag(a) != key_tag(b) {
        key_tag(a) < key_tag(b)
    } else {
        match (a, b) {
            (KeyModel::Bool(x), KeyModel::Bool(y)) => !x && y,
            (KeyModel::I(x), KeyModel::I(y)) => x < y,
            (KeyModel::U8(x), KeyModel::U8(y)) => x < y,
            (KeyModel::I16(x), KeyModel::I16(y)) => x < y,
            (KeyModel::U16(x), KeyModel::U16(y)) => x < y,
            (KeyModel::I32(x), KeyModel::I32(y)) => x < y,
            (KeyModel::U32(x), KeyModel::U32(y)) => x < y,
            (KeyModel::I64(x), KeyModel::I64(y)) => x < y,
            (KeyModel::U64(x), KeyModel::U64(y)) => x < y,
            (KeyModel::USIZE(x), KeyModel::USIZE(y)) => x < y,
            (KeyModel::I128(x), KeyModel::I128(y)) => x < y,
            (KeyModel::U128(x), KeyModel::U128(y)) => x < y,
            (KeyModel::Char(x), KeyModel::Char(y)) => (x as u32) < (y as u32),
            (KeyModel::Str(x), KeyModel::Str(y)) => bytes_lt(encode_utf8(x), encode_utf8(y)),
            (KeyModel::Bytes(x), KeyModel::Bytes(y)) => bytes_lt(x, y),
            _ => false,
        }
    }
}

pub proof fn lemma_key_lt_trichotomy(a: KeyModel, b: KeyModel)
    ensures
        key_lt(a, b) ==> !key_lt(b, a) && a != b,
        key_lt(b, a) ==> !key_lt(a, b) && a != b,
        !key_lt(a, b) && !key_lt(b, a) ==> a == b,
{
    if key_tag(a) == key_tag(b) {
        match (a, b) {
            (KeyModel::Str(x), KeyModel::Str(y)) => {
                lemma_bytes_lt_trichotomy(encode_utf8(x), encode_utf8(y));
                if !key_lt(a, b) && !key_lt(b, a) {
                    assert(encode_utf8(x) == encode_utf8(y));
                    encode_utf8_decode_utf8(x);
                    encode_utf8_decode_utf8(y);
                    assert(decode_utf8(encode_utf8(x)) == x);
                    assert(x == y);
                }
            },
            (KeyModel::Bytes(x), KeyModel::Bytes(y)) => {
                lemma_bytes_lt_trichotomy(x, y);
            },
            (KeyModel::Char(x), KeyModel::Char(y)) => {
                if !key_lt(a, b) && !key_lt(b, a) {
                    vstd::utf8::char_u32_cast(x, x as u32);
                    vstd::utf8::char_u32_cast(y, y as u32);
                    assert(x as u32 == y as u32);
                }
            },
            _ => {},
        }
    }
}

pub proof fn lemma_key_lt_trans(a: KeyModel, b: KeyModel, c: KeyModel)
    requires
        key_lt(a, b),
        key_lt(b, c),
    ensures
        key_lt(a, c),
{
    if key_tag(a) == key_tag(b) && key_tag(b) == key_tag(c) {
        match (a, b) {
            (KeyModel::Str(x), KeyModel::Str(y)) => {
                match c {
                    KeyModel::Str(z) => {
                        lemma_bytes_lt_trans(encode_utf8(x), encode_utf8(y), encode_utf8(z));
                    },
                    _ => {},
                }
            },
            (KeyModel::Bytes(x), KeyModel::Bytes(y)) => {
                match c {
                    KeyModel::Bytes(z) => {
                        lemma_bytes_lt_trans(x, y, z);
                    },
                    _ => {},
                }
            },
            _ => {},
        }
    }
}

/// Lexicographic order on component sequences: the first differing
/// component decides; a proper prefix sorts first.
pub open spec fn search_key_lt(a: Seq<KeyModel>, b: Seq<KeyModel>) -> bool
    decreases a.len(),
{
    if b.len() == 0 {
        false
    } else if a.len() == 0 {
        true
    } else if key_lt(a[0], b[0]) {
        true
    } else if key_lt(b[0], a[0]) {
        false
    } else {
        search_key_lt(a.drop_first(), b.drop_first())
    }
}

pub proof fn lemma_search_key_lt_trichotomy(a: Seq<KeyModel>, b: Seq<KeyModel>)
    ensures
        search_key_lt(a, b) ==> !search_key_lt(b, a) && a != b,
        search_key_lt(b, a) ==> !search_key_lt(a, b) && a != b,
        !search_key_lt(a, b) && !search_key_lt(b, a) ==> a == b,
    decreases a.len(),
{
    if a.len() == 0 || b.len() == 0 {
        if a.len() == 0 && b.len() == 0 {
            assert(a =~= b);
        }
    } else {
        lemma_key_lt_trichotomy(a[0], b[0]);
        if !key_lt(a[0], b[0]) && !key_lt(b[0], a[0]) {
            assert(a[0] == b[0]);
            lemma_search_key_lt_trichotomy(a.drop_first(), b.drop_first());
            if !search_key_lt(a, b) && !search_key_lt(b, a) {
                assert(a.drop_first() == b.drop_first());
                assert forall|i: int| 0 <= i < a.len() implies a[i] == b[i] by {
                    if i > 0 {
                        assert(a[i] == a.drop_first()[i - 1]);
                        assert(b[i] == b.drop_first()[i - 1]);
                    }
                }
                assert(a =~= b);
            }
            if a == b {
                assert(a.drop_first() =~= b.drop_first());
            }
        }
    }
}

pub proof fn lemma_search_key_lt_trans(a: Seq<KeyModel>, b: Seq<KeyModel>, c: Seq<KeyModel>)
    requires
        search_key_lt(a, b),
        search_key_lt(b, c),
    ensures
        search_key_lt(a, c),
    decreases a.len(),
{
    if b.len() == 0 || c.len() == 0 {
    } else if a.len() == 0 {
    } else {
        lemma_key_lt_trichotomy(a[0], b[0]);
        lemma_key_lt_trichotomy(b[0], c[0]);
        lemma_key_lt_trichotomy(a[0], c[0]);
        if key_lt(a[0], b[0]) {
            if key_lt(b[0], c[0]) {
                lemma_key_lt_trans(a[0], b[0], c[0]);
            } else {
                assert(b[0] == c[0]);
            }
        } else {
            assert(a[0] == b[0]);
            if !key_lt(b[0], c[0]) {
                assert(b[0] == c[0]);
                lemma_search_key_lt_trans(a.drop_first(), b.drop_first(), c.drop_first());
            }
        }
    }
}

/// The first-difference rule: if `a` and `b` agree on their first `i`
/// elements and `i` is the length of one of them or a differing position,
/// the order is decided there.
proof fn lemma_bytes_lt_at(a: Seq<u8>, b: Seq<u8>, i: int)
    requires
        0 <= i <= a.len(),
        i <= b.len(),
        a.subrange(0, i) == b.subrange(0, i),
        i == a.len() || i == b.len() || a[i] != b[i],
    ensures
        bytes_lt(a, b) == (i < b.len() && (i == a.len() || a[i] < b[i])),
    decreases i,
{
    if i == 0 {
    } else {
        assert(a[0] == a.subrange(0, i)[0]);
        assert(b[0] == b.subrange(0, i)[0]);
        assert(a.drop_first().subrange(0, i - 1) =~= b.drop_first().subrange(0, i - 1)) by {
            assert forall|j: int| 0 <= j < i - 1 implies #[trigger] a.drop_first().subrange(
                0,
                i - 1,
            )[j] == b.drop_first().subrange(0, i - 1)[j] by {
                assert(a.drop_first().subrange(0, i - 1)[j] == a[j + 1]);
                assert(b.drop_first().subrange(0, i - 1)[j] == b[j + 1]);
                assert(a[j + 1] == a.subrange(0, i)[j + 1]);
                assert(b[j + 1] == b.subrange(0, i)[j + 1]);
            }
        }
        if i < a.len() && i < b.len() {
            assert(a.drop_first()[i - 1] == a[i]);
            assert(b.drop_first()[i - 1] == b[i]);
        }
        lemma_bytes_lt_at(a.drop_first(), b.drop_first(), i - 1);
    }
}

/// Three-way lexicographic comparison of byte slices.
pub fn u8s_cmp(a: &[u8], b: &[u8]) -> (r: i8)
    ensures
        r == -1 || r == 0 || r == 1,
        (r == 0) <==> (a@ == b@),
        (r == -1) <==> bytes_lt(a@, b@),
        (r == 1) <==> bytes_lt(b@, a@),
{
    let alen = a.len();
    let blen = b.len();
    let n = if alen < blen { alen } else { blen };
    let mut i: usize = 0;
    while i < n
        invariant
            0 <= i <= n,
            n <= a@.len(),
            n <= b@.len(),
            n == if a@.len() < b@.len() { a@.len() } else { b@.len() },
            a@.subrange(0, i as int) == b@.subrange(0, i as int),
        decreases n - i,
    {
        let x = a[i];
        let y = b[i];
        if x < y {
            proof {
                lemma_bytes_lt_at(a@, b@, i as int);
                lemma_bytes_lt_at(b@, a@, i as int);
                lemma_bytes_lt_trichotomy(a@, b@);
            }
            return -1;
        }
        if x > y {
            proof {
                lemma_bytes_lt_at(a@, b@, i as int);
                lemma_bytes_lt_at(b@, a@, i as int);
                lemma_bytes_lt_trichotomy(a@, b@);
            }
            return 1;
        }
        proof {
            assert(a@.subrange(0, i as int + 1) =~= b@.subrange(0, i as int + 1));
        }
        i += 1;
    }
    proof {
        lemma_bytes_lt_at(a@, b@, n as int);
        lemma_bytes_lt_at(b@, a@, n as int);
        lemma_bytes_lt_trichotomy(a@, b@);
        if a@.len() == b@.len() {
            assert(a@ =~= b@);
        }
    }
    if alen < blen {
        -1
    } else if blen < alen {
        1
    } else {
        0
    }
}

/// The variant tag of a component, as stored on disk.
pub fn key_tag_of(k: &Key) -> (t: u8)
    ensures
        t as int == key_tag(k@),
{
    match k {
        Key::Bool(_) => 0,
        Key::I(_) => 1,
        Key::U8(_) => 2,
        Key::I16(_) => 3,
        Key::U16(_) => 4,
        Key::I32(_) => 5,
        Key::U32(_) => 6,
        Key::I64(_) => 7,
        Key::U64(_) => 8,
        Key::USIZE(_) => 9,
        Key::I128(_) => 10,
        Key::U128(_) => 11,
        Key::Char(_) => 12,
        Key::Str(_) => 13,
        Key::Bytes(_) => 14,
    }
}

/// Three-way comparison of two components in the order `key_lt`.
pub fn key_cmp(a: &Key, b: &Key) -> (r: i8)
    ensures
        r == -1 || r == 0 || r == 1,
        (r == 0) <==> (a@ == b@),
        (r == -1) <==> key_lt(a@, b@),
        (r == 1) <==> key_lt(b@, a@),
{
    proof {
        lemma_key_lt_trichotomy(a@, b@);
    }
    let ta = key_tag_of(a);
    let tb = key_tag_of(b);
    if ta < tb {
        return -1;
    }
    if tb < ta {
        return 1;
    }
    match (a, b) {
        (Key::Bool(x), Key::Bool(y)) => {
            if !*x && *y { -1 } else if *x && !*y { 1 } else { 0 }
        },
        (Key::I(x), Key::I(y)) => if x < y { -1 } else if y < x { 1 } else { 0 },
        (Key::U8(x), Key::U8(y)) => if x < y { -1 } else if y < x { 1 } else { 0 },
        (Key::I16(x), Key::I16(y)) => if x < y { -1 } else if y < x { 1 } else { 0 },
        (Key::U16(x), Key::U16(y)) => if x < y { -1 } else if y < x { 1 } else { 0 },
        (Key::I32(x), Key::I32(y)) => if x < y { -1 } else if y < x { 1 } else { 0 },
        (Key::U32(x), Key::U32(y)) => if x < y { -1 } else if y < x { 1 } else { 0 },
        (Key::I64(x), Key::I64(y)) => if x < y { -1 } else if y < x { 1 } else { 0 },
        (Key::U64(x), Key::U64(y)) => if x < y { -1 } else if y < x { 1 } else { 0 },
        (Key::USIZE(x), Key::USIZE(y)) => if x < y { -1 } else if y < x { 1 } else { 0 },
        (Key::I128(x), Key::I128(y)) => if x < y { -1 } else if y < x { 1 } else { 0 },
        (Key::U128(x), Key::U128(y)) => if x < y { -1 } else if y < x { 1 } else { 0 },
        (Key::Char(x), Key::Char(y)) => {
            let xv = *x as u32;
            let yv = *y as u32;
            proof {
                vstd::utf8::char_u32_cast(*x, *x as u32);
                vstd::utf8::char_u32_cast(*y, *y as u32);
            }
            if xv < yv { -1 } else if yv < xv { 1 } else { 0 }
        },
        (Key::Str(x), Key::Str(y)) => {
            let r = u8s_cmp(x.as_str().as_bytes(), y.as_str().as_bytes());
            proof {
                if r == 0 {
                    encode_utf8_decode_utf8(x@);
                    encode_utf8_decode_utf8(y@);
                }
            }
            r
        },
        (Key::Bytes(x), Key::Bytes(y)) => u8s_cmp(x.as_slice(), y.as_slice()),
        _ => {
            proof {
                assert(false);
            }
            0
        },
    }
}

/// Copies a byte vector.
pub fn clone_bytes(v: &Vec<u8>) -> (r: Vec<u8>)
    ensures
        r@ == v@,
{
    let mut r: Vec<u8> = Vec::new();
    let mut i: usize = 0;
    while i < v.len()
        invariant
            i <= v@.len(),
            r@ == v@.subrange(0, i as int),
        decreases v@.len() - i,
    {
        r.push(v[i]);
        proof {
            assert(r@ =~= v@.subrange(0, i as int + 1));
        }
        i += 1;
    }
    proof {
        assert(v@.subrange(0, v@.len() as int) =~= v@);
    }
    r
}

impl Clone for Key {
    fn clone(&self) -> (res: Self)
        ensures
            res@ == self@,
    {
        match self {
            Key::Bool(x) => Key::Bool(*x),
            Key::I(x) => Key::I(*x),
            Key::U8(x) => Key::U8(*x),
            Key::I16(x) => Key::I16(*x),
            Key::U16(x) => Key::U16(*x),
            Key::I32(x) => Key::I32(*x),
            Key::U32(x) => Key::U32(*x),
            Key::I64(x) => Key::I64(*x),
            Key::U64(x) => Key::U64(*x),
            Key::USIZE(x) => Key::USIZE(*x),
            Key::I128(x) => Key::I128(*x),
            Key::U128(x) => Key::U128(*x),
            Key::Char(x) => Key::Char(*x),
            Key::Str(x) => Key::Str(x.clone()),
            Key::Bytes(x) => Key::Bytes(clone_bytes(x)),
        }
    }
}

/// The model of a sequence of components.
pub open spec fn keys_view(s: Seq<Key>) -> Seq<KeyModel> {
    Seq::new(s.len(), |i: int| s[i]@)
}

/// An ordered sequence of tagged scalar components, used to order entries
/// within a sorted inner map.
#[derive(Debug, PartialEq, Eq, PartialOrd, Ord)]
pub struct SearchKey(Vec<Key>);

impl View for SearchKey {
    type V = Seq<KeyModel>;

    closed spec fn view(&self) -> Seq<KeyModel> {
        keys_view(self.0@)
    }
}

impl Clone for SearchKey {
    fn clone(&self) -> (res: Self)
        ensures
            res@ == self@,
    {
        let mut r: Vec<Key> = Vec::new();
        let mut i: usize = 0;
        while i < self.0.len()
            invariant
                i <= self.0@.len(),
                r@.len() == i,
                forall|j: int| 0 <= j < i ==> r@[j]@ == self.0@[j]@,
            decreases self.0@.len() - i,
        {
            r.push(self.0[i].clone());
            i += 1;
        }
        let res = SearchKey(r);
        proof {
            assert(res@ =~= self@);
        }
        res
    }
}

impl SearchKey {
    /// Wraps a component vector.
    pub fn new(keys: Vec<Key>) -> (r: Self)
        ensures
            r@ == keys_view(keys@),
    {
        SearchKey(keys)
    }

    /// A single platform-sized unsigned integer component.
    pub fn from_usize(v: usize) -> (r: Self)
        ensures
            r@ =~= seq![KeyModel::USIZE(v)],
    {
        let mut keys: Vec<Key> = Vec::new();
        keys.push(Key::USIZE(v));
        SearchKey(keys)
    }

    /// A single raw byte-sequence component.
    pub fn from_bytes(v: Vec<u8>) -> (r: Self)
        ensures
            r@ =~= seq![KeyModel::Bytes(v@)],
    {
        let mut keys: Vec<Key> = Vec::new();
        keys.push(Key::Bytes(v));
        SearchKey(keys)
    }

    /// A single string component.
    pub fn from_string(v: String) -> (r: Self)
        ensures
            r@ =~= seq![KeyModel::Str(v@)],
    {
        let mut keys: Vec<Key> = Vec::new();
        keys.push(Key::Str(v));
        SearchKey(keys)
    }

    /// The first component, if any.
    pub fn first(&self) -> (r: Option<&Key>)
        ensures
            match r {
                Some(k) => self@.len() > 0 && k@ == self@[0],
                None => self@.len() == 0,
            },
    {
        if self.0.len() == 0 {
            None
        } else {
            Some(&self.0[0])
        }
    }

    /// The component at `idx`, if in range.
    pub fn get(&self, idx: usize) -> (r: Option<&Key>)
        ensures
            match r {
                Some(k) => idx < self@.len() && k@ == self@[idx as int],
                None => idx >= self@.len(),
            },
    {
        if idx < self.0.len() {
            Some(&self.0[idx])
        } else {
            None
        }
    }

    /// Unwraps the component vector.
    pub fn into_key_vec(self) -> (r: Vec<Key>)
        ensures
            keys_view(r@) == self@,
    {
        self.0
    }

    /// The components as a slice.
    pub fn slice(&self) -> (r: &[Key])
        ensures
            keys_view(r@) == self@,
    {
        self.0.as_slice()
    }
}

/// The first-difference rule lifted to component sequences.
proof fn lemma_search_key_lt_at(a: Seq<KeyModel>, b: Seq<KeyModel>, i: int)
    requires
        0 <= i <= a.len(),
        i <= b.len(),
        a.subrange(0, i) == b.subrange(0, i),
        i == a.len() || i == b.len() || a[i] != b[i],
    ensures
        search_key_lt(a, b) == (i < b.len() && (i == a.len() || key_lt(a[i], b[i]))),
    decreases i,
{
    if i == 0 {
        if 0 < a.len() && 0 < b.len() && a[0] != b[0] {
            lemma_key_lt_trichotomy(a[0], b[0]);
        }
    } else {
        assert(a[0] == a.subrange(0, i)[0]);
        assert(b[0] == b.subrange(0, i)[0]);
        lemma_key_lt_trichotomy(a[0], b[0]);
        assert(a.drop_first().subrange(0, i - 1) =~= b.drop_first().subrange(0, i - 1)) by {
            assert forall|j: int| 0 <= j < i - 1 implies #[trigger] a.drop_first().subrange(
                0,
                i - 1,
            )[j] == b.drop_first().subrange(0, i - 1)[j] by {
                assert(a.drop_first().subrange(0, i - 1)[j] == a[j + 1]);
                assert(b.drop_first().subrange(0, i - 1)[j] == b[j + 1]);
                assert(a[j + 1] == a.subrange(0, i)[j + 1]);
                assert(b[j + 1] == b.subrange(0, i)[j + 1]);
            }
        }
        if i < a.len() && i < b.len() {
            assert(a.drop_first()[i - 1] == a[i]);
            assert(b.drop_first()[i - 1] == b[i]);
        }
        lemma_search_key_lt_at(a.drop_first(), b.drop_first(), i - 1);
    }
}

/// Three-way comparison of search keys in the order `search_key_lt`.
pub fn search_key_cmp(a: &SearchKey, b: &SearchKey) -> (r: i8)
    ensures
        r == -1 || r == 0 || r == 1,
        (r == 0) <==> (a@ == b@),
        (r == -1) <==> search_key_lt(a@, b@),
        (r == 1) <==> search_key_lt(b@, a@),
{
    let alen = a.0.len();
    let blen = b.0.len();
    let n = if alen < blen { alen } else { blen };
    let mut i: usize = 0;
    while i < n
        invariant
            0 <= i <= n,
            n <= a@.len(),
            n <= b@.len(),
            a@.len() == a.0@.len(),
            b@.len() == b.0@.len(),
            n == if a@.len() < b@.len() { a@.len() } else { b@.len() },
            a@.subrange(0, i as int) == b@.subrange(0, i as int),
        decreases n - i,
    {
        let c = key_cmp(&a.0[i], &b.0[i]);
        proof {
            assert(a@[i as int] == a.0@[i as int]@);
            assert(b@[i as int] == b.0@[i as int]@);
        }
        if c != 0 {
            proof {
                lemma_search_key_lt_at(a@, b@, i as int);
                lemma_search_key_lt_at(b@, a@, i as int);
                lemma_search_key_lt_trichotomy(a@, b@);
            }
            return c;
        }
        proof {
            assert(a@.subrange(0, i as int + 1) =~= b@.subrange(0, i as int + 1));
        }
        i += 1;
    }
    proof {
        lemma_search_key_lt_at(a@, b@, n as int);
        lemma_search_key_lt_at(b@, a@, n as int);
        lemma_search_key_lt_trichotomy(a@, b@);
        if a@.len() == b@.len() {
            assert(a@ =~= b@);
        }
    }
    if alen < blen {
        -1
    } else if blen < alen {
        1
    } else {
        0
    }
}

/// A request pairing a textual key and value.
#[derive(Debug)]
pub struct KeyValueRequest {
    pub key: String,
    pub value: String,
}

impl Clone for KeyValueRequest {
    fn clone(&self) -> (res: Self)
        ensures
            res.key == self.key,
            res.value == self.value,
    {
        KeyValueRequest { key: self.key.clone(), value: self.value.clone() }
    }
}

/// A full sorted-map insertion payload: outer key, search key and value.
#[derive(Debug)]
pub struct SortedMapEntry {
    key: Vec<u8>,
    search_key: SearchKey,
    value: Vec<u8>,
}

impl SortedMapEntry {
    pub closed spec fn key_model(&self) -> Seq<u8> {
        self.key@
    }

    pub closed spec fn search_key_model(&self) -> Seq<KeyModel> {
        self.search_key@
    }

    pub closed spec fn value_model(&self) -> Seq<u8> {
        self.value@
    }

    pub fn new(key: Vec<u8>, search_key: SearchKey, value: Vec<u8>) -> (r: Self)
        ensures
            r.key_model() == key@,
            r.search_key_model() == search_key@,
            r.value_model() == value@,
    {
        SortedMapEntry { key, search_key, value }
    }

    pub fn entry(self) -> (r: (Vec<u8>, SearchKey, Vec<u8>))
        ensures
            r.0@ == self.key_model(),
            r.1@ == self.search_key_model(),
            r.2@ == self.value_model(),
    {
        (self.key, self.search_key, self.value)
    }
}

/// A sorted-map removal payload: outer key and search key.
#[derive(Debug)]
pub struct SortedMapKey {
    key: Vec<u8>,
    search_key: SearchKey,
}

impl SortedMapKey {
    pub closed spec fn key_model(&self) -> Seq<u8> {
        self.key@
    }

    pub closed spec fn search_key_model(&self) -> Seq<KeyModel> {
        self.search_key@
    }

    pub fn new(key: Vec<u8>, search_key: SearchKey) -> (r: Self)
        ensures
            r.key_model() == key@,
            r.search_key_model() == search_key@,
    {
        SortedMapKey { key, search_key }
    }

    pub fn owned(self) -> (r: (Vec<u8>, SearchKey))
        ensures
            r.0@ == self.key_model(),
            r.1@ == self.search_key_model(),
    {
        (self.key, self.search_key)
    }
}

/// Width in bytes of one component's natural serialization.
pub open spec fn key_model_bytes_len(k: KeyModel) -> nat {
    match k {
        KeyModel::Bool(_) => 1,
        KeyModel::I(_) => 1,
        KeyModel::U8(_) => 1,
        KeyModel::I16(_) => 2,
        KeyModel::U16(_) => 2,
        KeyModel::I32(_) => 4,
        KeyModel::U32(_) => 4,
        KeyModel::I64(_) => 8,
        KeyModel::U64(_) => 8,
        KeyModel::USIZE(_) => if usize::MAX == u32::MAX { 4nat } else { 8nat },
        KeyModel::I128(_) => 16,
        KeyModel::U128(_) => 16,
        KeyModel::Char(_) => 4,
        KeyModel::Str(s) => encode_utf8(s).len(),
        KeyModel::Bytes(b) => b.len(),
    }
}

/// Total width of a component sequence's natural serialization.
pub open spec fn keys_bytes_len(s: Seq<KeyModel>) -> nat
    decreases s.len(),
{
    if s.len() == 0 {
        0
    } else {
        key_model_bytes_len(s[0]) + keys_bytes_len(s.drop_first())
    }
}

/// Width in bytes of a value's natural serialization.
pub trait BytesLen {
    spec fn spec_bytes_len(&self) -> nat;

    fn bytes_len(&self) -> (r: usize)
        requires
            self.spec_bytes_len() <= usize::MAX,
        ensures
            r == self.spec_bytes_len(),
    ;
}

impl BytesLen for Key {
    open spec fn spec_bytes_len(&self) -> nat {
        key_model_bytes_len(self@)
    }

    fn bytes_len(&self) -> (r: usize) {
        match self {
            Key::Bool(_) => 1,
            Key::I(_) => 1,
            Key::U8(_) => 1,
            Key::I16(_) => 2,
            Key::U16(_) => 2,
            Key::I32(_) => 4,
            Key::U32(_) => 4,
            Key::I64(_) => 8,
            Key::U64(_) => 8,
            Key::USIZE(_) => {
                if (usize::MAX as u64) == (u32::MAX as u64) {
                    4
                } else {
                    8
                }
            },
            Key::I128(_) => 16,
            Key::U128(_) => 16,
            Key::Char(_) => 4,
            Key::Str(s) => s.as_str().len(),
            Key::Bytes(b) => b.len(),
        }
    }
}

impl BytesLen for SearchKey {
    open spec fn spec_bytes_len(&self) -> nat {
        keys_bytes_len(self@)
    }

    fn bytes_len(&self) -> (r: usize) {
        let mut acc: usize = 0;
        let mut i: usize = 0;
        proof {
            assert(self@.subrange(0, self@.len() as int) =~= self@);
        }
        while i < self.0.len()
            invariant
                i <= self.0@.len(),
                self@.len() == self.0@.len(),
                keys_bytes_len(self@) <= usize::MAX,
                acc + keys_bytes_len(self@.subrange(i as int, self@.len() as int)) == keys_bytes_len(
                    self@,
                ),
            decreases self.0@.len() - i,
        {
            proof {
                let suffix = self@.subrange(i as int, self@.len() as int);
                assert(suffix[0] == self@[i as int]);
                assert(suffix.drop_first() =~= self@.subrange(i as int + 1, self@.len() as int));
                assert(self@[i as int] == self.0@[i as int]@);
            }
            acc = acc + self.0[i].bytes_len();
            i += 1;
        }
        proof {
            assert(self@.subrange(self@.len() as int, self@.len() as int) =~= Seq::<
                KeyModel,
            >::empty());
        }
        acc
    }
}

impl BytesLen for Vec<u8> {
    open spec fn spec_bytes_len(&self) -> nat {
        self@.len()
    }

    fn bytes_len(&self) -> (r: usize) {
        self.len()
    }
}

impl BytesLen for &'static str {
    open spec fn spec_bytes_len(&self) -> nat {
        encode_utf8((*self)@).len()
    }

    fn bytes_len(&self) -> (r: usize) {
        self.len()
    }
}

impl BytesLen for String {
    open spec fn spec_bytes_len(&self) -> nat {
        encode_utf8(self@).len()
    }

    fn bytes_len(&self) -> (r: usize) {
        self.as_str().len()
    }
}

} // verus!
