//! Bounds-checked views into the database buffer and little-endian readers.
use vstd::prelude::*;
use vstd::slice::slice_subrange;

verus! {

/// The reason why an offset could not be resolved in the buffer.
#[derive(Debug, Clone, Copy, PartialEq, Eq, Structural)]
pub enum CastError {
    /// A record or an array at `offset` reaches past the end of the buffer.
    OutOfBounds { offset: u32 },
    /// The string at `offset` has no zero byte before the end of the buffer.
    MissingTerminator { offset: u32 },
    /// A value type tag that this decoder does not know.
    UnknownValueType { tag: u32 },
    /// A row list that has not ended after as many entries as the buffer has
    /// bytes, so that it runs in a cycle; `offset` is the entry reached then.
    Cycle { offset: u32 },
}

/// The little-endian `u32` stored in the four bytes of `b` at `i`.
pub open spec fn le_u32(b: Seq<u8>, i: int) -> u32 {
    (b[i] as int + b[i + 1] as int * 0x100 + b[i + 2] as int * 0x10000 + b[i + 3] as int
        * 0x1000000) as u32
}

/// The little-endian `u64` stored in the eight bytes of `b` at `i`.
pub open spec fn le_u64(b: Seq<u8>, i: int) -> u64 {
    (le_u32(b, i) as int + le_u32(b, i + 4) as int * 0x1_0000_0000) as u64
}

/// Whether a record of `size` bytes at `offset` lies inside a buffer of `len` bytes.
pub open spec fn fits(len: int, offset: int, size: int) -> bool {
    0 <= offset && 0 <= size && offset + size <= len
}

/// Reads the little-endian `u32` at `i`.
pub fn read_u32(b: &[u8], i: usize) -> (r: u32)
    requires
        i + 4 <= b@.len(),
    ensures
        r == le_u32(b@, i as int),
{
    let v: u32 = b[i] as u32 + (b[i + 1] as u32) * 0x100 + (b[i + 2] as u32) * 0x10000 + (b[i
        + 3] as u32) * 0x1000000;
    v
}

/// Reads the little-endian `u64` at `i`.
pub fn read_u64(b: &[u8], i: usize) -> (r: u64)
    requires
        i + 8 <= b@.len(),
    ensures
        r == le_u64(b@, i as int),
{
    let lo = read_u32(b, i);
    proof {
        assert(b.len() == b@.len());
    }
    let hi = read_u32(b, i + 4);
    (lo as u64) + (hi as u64) * 0x1_0000_0000
}

/// The `size` bytes at `offset`, or `OutOfBounds` where they do not all lie in `buf`.
pub fn cast(buf: &[u8], offset: u32, size: usize) -> (r: Result<&[u8], CastError>)
    ensures
        r is Ok <==> fits(buf@.len() as int, offset as int, size as int),
        r matches Ok(v) ==> v@ == buf@.subrange(offset as int, offset + size),
        r matches Err(e) ==> e == (CastError::OutOfBounds { offset }),
{
    let o = offset as usize;
    if size <= buf.len() && o <= buf.len() - size {
        Ok(slice_subrange(buf, o, o + size))
    } else {
        Err(CastError::OutOfBounds { offset })
    }
}


/// The `count` records of `stride` bytes at `offset`, or `OutOfBounds` where
/// the array does not lie in `buf` (an extent past `u32` range included).
pub fn cast_array(buf: &[u8], offset: u32, count: u32, stride: u32) -> (r: Result<
    &[u8],
    CastError,
>)
    ensures
        r is Ok <==> fits(buf@.len() as int, offset as int, count * stride),
        r matches Ok(v) ==> v@ == buf@.subrange(offset as int, offset + count * stride),
        r matches Err(e) ==> e == (CastError::OutOfBounds { offset }),
{
    assert((count as int) * (stride as int) <= 0xffff_ffff * 0xffff_ffff) by (nonlinear_arith)
        requires
            count <= 0xffff_ffffu32,
            stride <= 0xffff_ffffu32,
    ;
    let total = (count as u64) * (stride as u64);
    if total > buf.len() as u64 {
        Err(CastError::OutOfBounds { offset })
    } else {
        cast(buf, offset, total as usize)
    }
}

/// Whether `i` is the position of the first zero byte of `s`.
pub open spec fn is_first_zero(s: Seq<u8>, i: int) -> bool {
    &&& 0 <= i < s.len()
    &&& s[i] == 0
    &&& forall|j: int| 0 <= j < i ==> s[j] != 0
}

/// The bytes of `s` before its first zero byte, or `None` where it has none.
pub open spec fn cstr(s: Seq<u8>) -> Option<Seq<u8>> {
    if exists|i: int| is_first_zero(s, i) {
        Some(s.take(choose|i: int| is_first_zero(s, i)))
    } else {
        None
    }
}

/// The null-terminated string stored at `offset` in `b`.
pub open spec fn cstr_at(b: Seq<u8>, offset: int) -> Option<Seq<u8>> {
    if 0 <= offset <= b.len() {
        cstr(b.subrange(offset, b.len() as int))
    } else {
        None
    }
}

/// What `get_latin1_str` yields for the string at `offset`.
pub open spec fn latin1_at(b: Seq<u8>, offset: u32) -> Result<Seq<u8>, CastError> {
    if offset > b.len() {
        Err(CastError::OutOfBounds { offset })
    } else {
        match cstr_at(b, offset as int) {
            Some(s) => Ok(s),
            None => Err(CastError::MissingTerminator { offset }),
        }
    }
}

/// A string ends at the first zero byte.
pub proof fn lemma_cstr_first_zero(s: Seq<u8>, i: int)
    requires
        is_first_zero(s, i),
    ensures
        cstr(s) == Some(s.take(i)),
{
    let k = choose|k: int| is_first_zero(s, k);
    assert(is_first_zero(s, k));
    if k < i {
        assert(s[k] != 0);
    } else if i < k {
        assert(s[i] != 0);
    }
}

/// Relies on memchr::memchr: the position of the first occurrence of
/// `needle` in `haystack`, or `None` where it does not occur.
#[verifier::external_body]
fn memchr(needle: u8, haystack: &[u8]) -> (r: Option<usize>)
    ensures
        match r {
            Some(i) => i < haystack@.len() && haystack@[i as int] == needle && forall|j: int|
                0 <= j < i ==> haystack@[j] != needle,
            None => forall|j: int| 0 <= j < haystack@.len() ==> haystack@[j] != needle,
        },
{
    memchr::memchr(needle, haystack)
}

/// Relies on String::push: appends one character.
#[verifier::external_body]
fn push_char(s: &mut String, c: char)
    ensures
        final(s)@ == old(s)@.push(c),
{
    s.push(c)
}

/// The characters of a Latin-1 text: each byte is the code point of one character.
pub open spec fn latin1_chars(s: Seq<u8>) -> Seq<char> {
    s.map_values(|b: u8| b as char)
}

/// Latin-1 decoding is total and keeps each byte: the text has one character
/// per byte, whose code point is that byte.
pub proof fn lemma_latin1_total(s: Seq<u8>)
    ensures
        latin1_chars(s).len() == s.len(),
        forall|i: int| 0 <= i < s.len() ==> (#[trigger] latin1_chars(s)[i]) as u32 == s[i] as u32,
{
}

/// An undecoded Latin-1 string: the bytes before a zero terminator.
#[derive(Debug, Clone, Copy, PartialEq, Eq)]
pub struct Latin1Str<'a> {
    bytes: &'a [u8],
}

impl<'a> View for Latin1Str<'a> {
    type V = Seq<u8>;

    closed spec fn view(&self) -> Seq<u8> {
        self.bytes@
    }
}

impl<'a> Latin1Str<'a> {
    /// The string made of `bytes`, which hold no zero byte.
    pub fn new(bytes: &'a [u8]) -> (r: Latin1Str<'a>)
        requires
            forall|i: int| 0 <= i < bytes@.len() ==> bytes@[i] != 0,
        ensures
            r@ == bytes@,
    {
        Latin1Str { bytes }
    }

    /// The raw bytes of the string.
    pub fn as_bytes(&self) -> (r: &'a [u8])
        ensures
            r@ == self@,
    {
        self.bytes
    }

    /// The number of bytes, which is also the number of characters.
    pub fn len(&self) -> (r: usize)
        ensures
            r == self@.len(),
    {
        self.bytes.len()
    }

    /// Whether the string is empty.
    pub fn is_empty(&self) -> (r: bool)
        ensures
            r == (self@.len() == 0),
    {
        self.bytes.len() == 0
    }

    /// Decodes the string: each byte becomes the character of that code point.
    pub fn decode(&self) -> (r: String)
        ensures
            r@ == latin1_chars(self@),
    {
        let mut out = String::new();
        let n = self.bytes.len();
        let mut i: usize = 0;
        while i < n
            invariant
                n == self@.len(),
                i <= n,
                out@ == latin1_chars(self@.take(i as int)),
            decreases n - i,
        {
            let b = self.bytes[i];
            push_char(&mut out, b as char);
            assert(self@.take(i + 1) == self@.take(i as int).push(b));
            i = i + 1;
        }
        assert(self@.take(n as int) == self@);
        out
    }
}

/// The null-terminated Latin-1 string at `offset`: `OutOfBounds` where the
/// offset lies past the end of `buf`, `MissingTerminator` where no zero byte
/// follows it.
pub fn get_latin1_str(buf: &[u8], offset: u32) -> (r: Result<Latin1Str<'_>, CastError>)
    ensures
        r matches Ok(s) ==> latin1_at(buf@, offset) == Ok::<Seq<u8>, CastError>(s@),
        r matches Err(e) ==> latin1_at(buf@, offset) == Err::<Seq<u8>, CastError>(e),
{
    let n = buf.len();
    let o = offset as usize;
    if o > n {
        return Err(CastError::OutOfBounds { offset });
    }
    let haystack = slice_subrange(buf, o, n);
    match memchr(0, haystack) {
        Some(end) => {
            let content = slice_subrange(haystack, 0, end);
            proof {
                lemma_cstr_first_zero(haystack@, end as int);
                assert(content@ == haystack@.take(end as int));
            }
            Ok(Latin1Str { bytes: content })
        },
        None => {
            assert(!exists|i: int| is_first_zero(haystack@, i));
            Err(CastError::MissingTerminator { offset })
        },
    }
}

} // verus!
