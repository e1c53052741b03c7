use vstd::prelude::*;

verus! {

/// Why a text could not be decoded into bytes.
#[derive(Clone, Copy, Debug, PartialEq, Eq, Structural)]
pub enum CodecError {
    /// A token after a `\x` marker does not begin with two hexadecimal digits.
    MalformedToken,
}

/// A hexadecimal digit, in either case.
pub open spec fn is_hex_digit(c: char) -> bool {
    ('0' <= c && c <= '9') || ('a' <= c && c <= 'f') || ('A' <= c && c <= 'F')
}

/// The value of a hexadecimal digit.
pub open spec fn hex_val(c: char) -> int {
    if '0' <= c && c <= '9' {
        c as int - '0' as int
    } else if 'a' <= c && c <= 'f' {
        c as int - 'a' as int + 10
    } else {
        c as int - 'A' as int + 10
    }
}

/// The lower-case digit for a value below 16.
pub open spec fn hex_char(n: int) -> char {
    if n < 10 {
        ('0' as int + n) as char
    } else {
        ('a' as int + n - 10) as char
    }
}

/// A `\x` marker starts at position `i`.
pub open spec fn marker_at(s: Seq<char>, i: int) -> bool {
    0 <= i && i + 1 < s.len() && s[i] == '\\' && s[i + 1] == 'x'
}

/// Puts `out` in front of a decoding result.
pub open spec fn prepend(out: Seq<u8>, r: Result<Seq<u8>, CodecError>) -> Result<Seq<u8>, CodecError> {
    match r {
        Ok(rest) => Ok(out + rest),
        Err(e) => Err(e),
    }
}

/// Decoding from position `i`, which lies outside any token's first two characters:
/// everything up to the next marker is skipped.
pub open spec fn decode_skip(s: Seq<char>, i: nat) -> Result<Seq<u8>, CodecError>
    decreases s.len() - i, 0nat,
{
    if i >= s.len() {
        Ok(Seq::empty())
    } else if marker_at(s, i as int) {
        decode_token(s, i + 2)
    } else {
        decode_skip(s, i + 1)
    }
}

/// Decoding from position `j`, just after a marker. An empty token (the text ends,
/// or another marker follows) is skipped; any other token must start with two
/// hexadecimal digits, which give one byte, and its remaining characters are ignored.
pub open spec fn decode_token(s: Seq<char>, j: nat) -> Result<Seq<u8>, CodecError>
    decreases s.len() - j, 1nat,
{
    if j >= s.len() || marker_at(s, j as int) {
        decode_skip(s, j)
    } else if j + 1 < s.len() && is_hex_digit(s[j as int]) && is_hex_digit(s[j + 1 as int]) {
        let b = (hex_val(s[j as int]) * 16 + hex_val(s[j + 1 as int])) as u8;
        prepend(seq![b], decode_skip(s, j + 2))
    } else {
        Err(CodecError::MalformedToken)
    }
}

/// What a whole text decodes to; text before the first marker is ignored.
pub open spec fn decode_spec(s: Seq<char>) -> Result<Seq<u8>, CodecError> {
    decode_skip(s, 0)
}

/// The token `\xHH` for one byte, with lower-case digits.
pub open spec fn token_of(b: u8) -> Seq<char> {
    seq!['\\', 'x', hex_char(b as int / 16), hex_char(b as int % 16)]
}

/// The text that writes each byte as one `\xHH` token, in order.
pub open spec fn encode_spec(bytes: Seq<u8>) -> Seq<char>
    decreases bytes.len(),
{
    if bytes.len() == 0 {
        Seq::empty()
    } else {
        token_of(bytes[0]) + encode_spec(bytes.drop_first())
    }
}

/// Joins the decoded payload text before the decoded shellcode text.
pub open spec fn assemble_spec(payload: Seq<char>, shellcode: Seq<char>) -> Result<Seq<u8>, CodecError> {
    match decode_spec(payload) {
        Err(e) => Err(e),
        Ok(p) => match decode_spec(shellcode) {
            Err(e) => Err(e),
            Ok(c) => Ok(p + c),
        },
    }
}

proof fn lemma_hex_char(n: int)
    requires
        0 <= n < 16,
    ensures
        is_hex_digit(hex_char(n)),
        hex_val(hex_char(n)) == n,
{
}

proof fn lemma_decode_skip_encoded(s: Seq<char>, i: nat, bytes: Seq<u8>)
    requires
        i <= s.len(),
        s.subrange(i as int, s.len() as int) == encode_spec(bytes),
    ensures
        decode_skip(s, i) == Ok::<Seq<u8>, CodecError>(bytes),
    decreases bytes.len(),
{
    let t = s.subrange(i as int, s.len() as int);
    if bytes.len() == 0 {
        assert(t.len() == 0);
        assert(bytes =~= Seq::<u8>::empty());
    } else {
        let b = bytes[0];
        let rest = bytes.drop_first();
        assert(t == token_of(b) + encode_spec(rest));
        lemma_hex_char(b as int / 16);
        lemma_hex_char(b as int % 16);
        assert(t[0] == '\\' && t[1] == 'x' && t[2] == hex_char(b as int / 16) && t[3] == hex_char(
            b as int % 16,
        ));
        assert(s[i as int] == t[0]);
        assert(s[i + 1 as int] == t[1]);
        assert(s[i + 2 as int] == t[2]);
        assert(s[i + 3 as int] == t[3]);
        assert(marker_at(s, i as int));
        assert(!marker_at(s, i + 2 as int));
        assert(t.subrange(4, t.len() as int) =~= encode_spec(rest));
        assert(s.subrange(i + 4 as int, s.len() as int) =~= t.subrange(4, t.len() as int));
        lemma_decode_skip_encoded(s, i + 4, rest);
        assert((hex_val(s[i + 2 as int]) * 16 + hex_val(s[i + 3 as int])) as u8 == b) by {
            assert(b as int == (b as int / 16) * 16 + b as int % 16);
        }
        assert(seq![b] + rest =~= bytes);
        assert(decode_token(s, i + 2) == prepend(seq![b], decode_skip(s, i + 4)));
        assert(decode_skip(s, i) == decode_token(s, i + 2));
    }
}

/// Writing any bytes as consecutive `\xHH` tokens and decoding that text gives
/// back exactly those bytes.
pub proof fn lemma_decode_encode(bytes: Seq<u8>)
    ensures
        decode_spec(encode_spec(bytes)) == Ok::<Seq<u8>, CodecError>(bytes),
{
    let s = encode_spec(bytes);
    assert(s.subrange(0, s.len() as int) =~= s);
    lemma_decode_skip_encoded(s, 0, bytes);
}

/// The token after the marker at `i` is not empty and does not begin with two
/// hexadecimal digits.
pub open spec fn malformed_token_at(s: Seq<char>, i: int) -> bool {
    &&& marker_at(s, i)
    &&& i + 2 < s.len()
    &&& !marker_at(s, i + 2)
    &&& !(i + 3 < s.len() && is_hex_digit(s[i + 2]) && is_hex_digit(s[i + 3]))
}

proof fn lemma_skip_reaches_malformed(s: Seq<char>, k: nat, i: nat)
    requires
        k <= i,
        malformed_token_at(s, i as int),
    ensures
        decode_skip(s, k) == Err::<Seq<u8>, CodecError>(CodecError::MalformedToken),
    decreases i - k,
{
    if k < i {
        if marker_at(s, k as int) {
            let j = k + 2;
            assert(decode_skip(s, k) == decode_token(s, j));
            if marker_at(s, j as int) {
                lemma_skip_reaches_malformed(s, j, i);
                assert(decode_token(s, j) == decode_skip(s, j));
            } else if j + 1 < s.len() && is_hex_digit(s[j as int]) && is_hex_digit(s[j + 1 as int]) {
                lemma_skip_reaches_malformed(s, j + 2, i);
            }
        } else {
            lemma_skip_reaches_malformed(s, k + 1, i);
        }
    } else {
        assert(decode_skip(s, k) == decode_token(s, k + 2));
    }
}

/// A text that holds a non-empty token not starting with two hexadecimal digits
/// fails to decode with `MalformedToken`, whatever the rest of the text holds.
pub proof fn lemma_malformed_rejected(s: Seq<char>, i: int)
    requires
        malformed_token_at(s, i),
    ensures
        decode_spec(s) == Err::<Seq<u8>, CodecError>(CodecError::MalformedToken),
{
    lemma_skip_reaches_malformed(s, 0, i as nat);
}

/// The value of a hexadecimal digit, or `None` for any other character.
pub fn hex_value(c: char) -> (r: Option<u8>)
    ensures
        is_hex_digit(c) ==> r == Some(hex_val(c) as u8) && hex_val(c) < 16,
        !is_hex_digit(c) ==> r is None,
{
    if '0' <= c && c <= '9' {
        Some((c as u32 - '0' as u32) as u8)
    } else if 'a' <= c && c <= 'f' {
        Some((c as u32 - 'a' as u32 + 10) as u8)
    } else if 'A' <= c && c <= 'F' {
        Some((c as u32 - 'A' as u32 + 10) as u8)
    } else {
        None
    }
}

/// Whether a `\x` marker starts at position `i` of `text`, whose length is `n`.
fn has_marker(text: &str, n: usize, i: usize) -> (r: bool)
    requires
        n == text@.len(),
    ensures
        r == marker_at(text@, i as int),
{
    i < n && n - i > 1 && text.get_char(i) == '\\' && text.get_char(i + 1) == 'x'
}

/// Decodes text made of `\xHH` tokens into the bytes they stand for.
///
/// Text before the first marker is ignored, empty tokens are skipped, and only
/// the first two characters of a token are read. A token that does not start
/// with two hexadecimal digits makes the whole text fail, with no bytes returned.
pub fn decode(text: &str) -> (r: Result<Vec<u8>, CodecError>)
    ensures
        match r {
            Ok(v) => decode_spec(text@) == Ok::<Seq<u8>, CodecError>(v@),
            Err(e) => decode_spec(text@) == Err::<Seq<u8>, CodecError>(e),
        },
{
    let n = text.unicode_len();
    let ghost s = text@;
    let mut out: Vec<u8> = Vec::new();
    let mut i: usize = 0;
    let mut token_start = false;
    while i < n
        invariant
            n == s.len(),
            s == text@,
            i <= n,
            decode_spec(s) == prepend(
                out@,
                if token_start {
                    decode_token(s, i as nat)
                } else {
                    decode_skip(s, i as nat)
                },
            ),
        decreases (n - i) * 2 + if token_start {
            1int
        } else {
            0int
        },
    {
        if token_start {
            if has_marker(text, n, i) {
                token_start = false;
            } else if n - i > 1 {
                let hi = hex_value(text.get_char(i));
                let lo = hex_value(text.get_char(i + 1));
                match (hi, lo) {
                    (Some(h), Some(l)) => {
                        let b: u8 = h * 16 + l;
                        proof {
                            if let Ok(rest) = decode_skip(s, (i + 2) as nat) {
                                assert(out@ + (seq![b] + rest) =~= out@.push(b) + rest);
                            }
                        }
                        out.push(b);
                        i = i + 2;
                        token_start = false;
                    },
                    _ => {
                        return Err(CodecError::MalformedToken);
                    },
                }
            } else {
                return Err(CodecError::MalformedToken);
            }
        } else if has_marker(text, n, i) {
            i = i + 2;
            token_start = true;
        } else {
            i = i + 1;
        }
    }
    proof {
        assert(out@ + Seq::<u8>::empty() == out@);
    }
    Ok(out)
}

/// Decodes the payload text and the shellcode text and joins their bytes,
/// payload first; fails if either text holds a malformed token.
pub fn assemble(payload: &str, shellcode: &str) -> (r: Result<Vec<u8>, CodecError>)
    ensures
        match r {
            Ok(v) => assemble_spec(payload@, shellcode@) == Ok::<Seq<u8>, CodecError>(v@),
            Err(e) => assemble_spec(payload@, shellcode@) == Err::<Seq<u8>, CodecError>(e),
        },
{
    let mut bytes = match decode(payload) {
        Ok(v) => v,
        Err(e) => {
            return Err(e);
        },
    };
    let mut tail = match decode(shellcode) {
        Ok(v) => v,
        Err(e) => {
            return Err(e);
        },
    };
    bytes.append(&mut tail);
    Ok(bytes)
}

} // verus!
