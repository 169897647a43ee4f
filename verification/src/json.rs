//! A byte-level model of the JSON texts this service exchanges.
//!
//! The inbound request body is a JSON object; the only member this service
//! reads is `"prompt"`, which must be a string.  The grammar here follows
//! RFC 8259 on raw UTF-8 bytes: strings with the usual escapes (including
//! `\uXXXX` with surrogate pairs), numbers, nested objects and arrays, and
//! the three literals.  Containers may nest at most [`MAX_NESTING`] levels
//! deep, the top-level object included.

use vstd::prelude::*;
use vstd::utf8::encode_scalar;
use vstd::utf8::is_scalar;

verus! {

/// Deepest allowed container nesting in an inbound document.
pub const MAX_NESTING: u32 = 128;

/// The bytes of the member name the proxy reads.
pub open spec fn prompt_key() -> Seq<u8> {
    seq![0x70u8, 0x72u8, 0x6fu8, 0x6du8, 0x70u8, 0x74u8]
}

/// JSON insignificant whitespace.
pub open spec fn is_ws(b: u8) -> bool {
    b == 0x20 || b == 0x09 || b == 0x0a || b == 0x0d
}

/// Number of consecutive whitespace bytes at position `i`.
pub open spec fn ws_count(s: Seq<u8>, i: int) -> nat
    decreases s.len() - i,
{
    if 0 <= i < s.len() && is_ws(s[i]) {
        1 + ws_count(s, i + 1)
    } else {
        0
    }
}

/// ASCII decimal digit.
pub open spec fn is_digit(b: u8) -> bool {
    0x30 <= b <= 0x39
}

/// Number of consecutive decimal digits at position `i`.
pub open spec fn digits_count(s: Seq<u8>, i: int) -> nat
    decreases s.len() - i,
{
    if 0 <= i < s.len() && is_digit(s[i]) {
        1 + digits_count(s, i + 1)
    } else {
        0
    }
}

/// ASCII hexadecimal digit.
pub open spec fn is_hex_digit(b: u8) -> bool {
    0x30 <= b <= 0x39 || 0x41 <= b <= 0x46 || 0x61 <= b <= 0x66
}

/// Value of one hexadecimal digit.
pub open spec fn hex_val(b: u8) -> nat
    recommends
        is_hex_digit(b),
{
    if 0x30 <= b <= 0x39 {
        (b - 0x30) as nat
    } else if 0x41 <= b <= 0x46 {
        (b - 0x37) as nat
    } else {
        (b - 0x57) as nat
    }
}

/// True when the four bytes at `i` are hexadecimal digits.
pub open spec fn hex4_ok(s: Seq<u8>, i: int) -> bool {
    &&& 0 <= i
    &&& i + 4 <= s.len()
    &&& is_hex_digit(s[i])
    &&& is_hex_digit(s[i + 1])
    &&& is_hex_digit(s[i + 2])
    &&& is_hex_digit(s[i + 3])
}

/// Value of the four hexadecimal digits at `i`.
pub open spec fn hex4_val(s: Seq<u8>, i: int) -> nat
    recommends
        hex4_ok(s, i),
{
    hex_val(s[i]) * 0x1000 + hex_val(s[i + 1]) * 0x100 + hex_val(s[i + 2]) * 0x10 + hex_val(
        s[i + 3],
    )
}

/// The byte a one-character escape stands for, if the character after the
/// backslash is one of the eight short escapes.
pub open spec fn simple_unescape(b: u8) -> Option<u8> {
    if b == 0x22 {  // \"
        Some(0x22u8)
    } else if b == 0x5c {  // \\
        Some(0x5cu8)
    } else if b == 0x2f {  // \/
        Some(0x2fu8)
    } else if b == 0x62 {  // \b
        Some(0x08u8)
    } else if b == 0x66 {  // \f
        Some(0x0cu8)
    } else if b == 0x6e {  // \n
        Some(0x0au8)
    } else if b == 0x72 {  // \r
        Some(0x0du8)
    } else if b == 0x74 {  // \t
        Some(0x09u8)
    } else {
        None
    }
}

/// Decodes the body of a JSON string from position `i` (just after the
/// opening quote) to its closing quote.  Returns the decoded bytes (UTF-8 for
/// `\uXXXX` escapes, raw bytes otherwise) and the number of input bytes
/// consumed, the closing quote included; `None` when the input up to the
/// closing quote is not a well-formed string body.
pub open spec fn str_rest(s: Seq<u8>, i: int) -> Option<(Seq<u8>, nat)>
    decreases s.len() - i,
{
    if i < 0 || i >= s.len() {
        None
    } else if s[i] == 0x22 {  // closing quote
        Some((Seq::empty(), 1nat))
    } else if s[i] == 0x5c {  // backslash
        if i + 1 >= s.len() {
            None
        } else if simple_unescape(s[i + 1]) is Some {
            match str_rest(s, i + 2) {
                Some((t, n)) => Some((seq![simple_unescape(s[i + 1])->0] + t, (n + 2) as nat)),
                None => None,
            }
        } else if s[i + 1] == 0x75 {  // \uXXXX
            if !hex4_ok(s, i + 2) {
                None
            } else {
                let cp = hex4_val(s, i + 2);
                if 0xD800 <= cp < 0xDC00 {
                    // high surrogate: a low surrogate escape must follow
                    if i + 12 > s.len() || s[i + 6] != 0x5c || s[i + 7] != 0x75 || !hex4_ok(
                        s,
                        i + 8,
                    ) {
                        None
                    } else {
                        let cp2 = hex4_val(s, i + 8);
                        if !(0xDC00 <= cp2 < 0xE000) {
                            None
                        } else {
                            let code = (0x10000 + (cp - 0xD800) * 0x400 + (cp2 - 0xDC00)) as u32;
                            match str_rest(s, i + 12) {
                                Some((t, n)) => Some((encode_scalar(code) + t, (n + 12) as nat)),
                                None => None,
                            }
                        }
                    }
                } else if 0xDC00 <= cp < 0xE000 {
                    // lone low surrogate
                    None
                } else {
                    match str_rest(s, i + 6) {
                        Some((t, n)) => Some((encode_scalar(cp as u32) + t, (n + 6) as nat)),
                        None => None,
                    }
                }
            }
        } else {
            None
        }
    } else if s[i] < 0x20 {  // raw control byte
        None
    } else {
        match str_rest(s, i + 1) {
            Some((t, n)) => Some((seq![s[i]] + t, (n + 1) as nat)),
            None => None,
        }
    }
}

/// A whitespace run never reaches past the end of the input.
pub proof fn lemma_ws_count_le(s: Seq<u8>, i: int)
    ensures
        ws_count(s, i) != 0 ==> i + ws_count(s, i) <= s.len(),
    decreases s.len() - i,
{
    if 0 <= i < s.len() && is_ws(s[i]) {
        lemma_ws_count_le(s, i + 1);
    }
}

/// End of the integer part of a number whose first byte stands at `i`
/// (an optional minus sign, then either a single `0` or a nonzero digit run).
pub open spec fn int_part_end(s: Seq<u8>, i: int) -> Option<int> {
    let j = if 0 <= i < s.len() && s[i] == 0x2d {
        i + 1
    } else {
        i
    };
    if 0 <= j < s.len() && is_digit(s[j]) {
        if s[j] == 0x30 {
            Some(j + 1)
        } else {
            Some(j + digits_count(s, j))
        }
    } else {
        None
    }
}

/// End of an optional fraction part starting at `k`.
pub open spec fn frac_end(s: Seq<u8>, k: int) -> Option<int> {
    if 0 <= k < s.len() && s[k] == 0x2e {
        if digits_count(s, k + 1) == 0 {
            None
        } else {
            Some(k + 1 + digits_count(s, k + 1))
        }
    } else {
        Some(k)
    }
}

/// End of an optional exponent part starting at `k`.
pub open spec fn exp_end(s: Seq<u8>, k: int) -> Option<int> {
    if 0 <= k < s.len() && (s[k] == 0x65 || s[k] == 0x45) {
        let j = if k + 1 < s.len() && (s[k + 1] == 0x2b || s[k + 1] == 0x2d) {
            k + 2
        } else {
            k + 1
        };
        if digits_count(s, j) == 0 {
            None
        } else {
            Some(j + digits_count(s, j))
        }
    } else {
        Some(k)
    }
}

/// End of a complete JSON number token starting at `i`.
pub open spec fn number_end(s: Seq<u8>, i: int) -> Option<int> {
    match int_part_end(s, i) {
        None => None,
        Some(k) => match frac_end(s, k) {
            None => None,
            Some(k2) => exp_end(s, k2),
        },
    }
}

/// True when the four bytes `true` stand at `i`.
pub open spec fn lit_true_at(s: Seq<u8>, i: int) -> bool {
    i + 4 <= s.len() && s[i] == 0x74 && s[i + 1] == 0x72 && s[i + 2] == 0x75 && s[i + 3] == 0x65
}

/// True when the five bytes `false` stand at `i`.
pub open spec fn lit_false_at(s: Seq<u8>, i: int) -> bool {
    i + 5 <= s.len() && s[i] == 0x66 && s[i + 1] == 0x61 && s[i + 2] == 0x6c && s[i + 3] == 0x73
        && s[i + 4] == 0x65
}

/// True when the four bytes `null` stand at `i`.
pub open spec fn lit_null_at(s: Seq<u8>, i: int) -> bool {
    i + 4 <= s.len() && s[i] == 0x6e && s[i + 1] == 0x75 && s[i + 2] == 0x6c && s[i + 3] == 0x6c
}

/// Number of bytes of the complete JSON value whose first byte (not
/// whitespace) stands at `i`; `None` when no well-formed value stands there.
/// `depth` is how many more container levels may open.
pub open spec fn value_end(s: Seq<u8>, i: int, depth: nat) -> Option<nat>
    decreases depth, s.len() - i, 0int,
{
    if i < 0 || i >= s.len() {
        None
    } else if s[i] == 0x22 {  // string
        match str_rest(s, i + 1) {
            Some((t, n)) => Some((n + 1) as nat),
            None => None,
        }
    } else if s[i] == 0x7b {  // object
        if depth == 0 {
            None
        } else {
            match obj_rest(s, i + 1, (depth - 1) as nat) {
                Some(n) => Some((n + 1) as nat),
                None => None,
            }
        }
    } else if s[i] == 0x5b {  // array
        if depth == 0 {
            None
        } else {
            match arr_rest(s, i + 1, (depth - 1) as nat) {
                Some(n) => Some((n + 1) as nat),
                None => None,
            }
        }
    } else if s[i] == 0x74 {
        if lit_true_at(s, i) {
            Some(4nat)
        } else {
            None
        }
    } else if s[i] == 0x66 {
        if lit_false_at(s, i) {
            Some(5nat)
        } else {
            None
        }
    } else if s[i] == 0x6e {
        if lit_null_at(s, i) {
            Some(4nat)
        } else {
            None
        }
    } else if s[i] == 0x2d || is_digit(s[i]) {
        match number_end(s, i) {
            Some(e) => Some((e - i) as nat),
            None => None,
        }
    } else {
        None
    }
}

/// Bytes consumed from just after `{` up to and including the matching `}`.
pub open spec fn obj_rest(s: Seq<u8>, i: int, depth: nat) -> Option<nat>
    decreases depth, s.len() - i, 2int,
{
    let w = ws_count(s, i);
    let p = i + w;
    if p >= s.len() {
        None
    } else if s[p] == 0x7d {
        Some((w + 1) as nat)
    } else {
        obj_members(s, i, depth)
    }
}

/// Bytes consumed by one or more `key : value` members and the closing `}`,
/// from position `i` (just after `{` or after a separating comma).
pub open spec fn obj_members(s: Seq<u8>, i: int, depth: nat) -> Option<nat>
    decreases depth, s.len() - i, 1int,
{
    let w = ws_count(s, i);
    let p = i + w;
    if p >= s.len() || s[p] != 0x22 {
        None
    } else {
        match str_rest(s, p + 1) {
            None => None,
            Some((_k, kn)) => {
                let q = p + 1 + kn;
                let w2 = ws_count(s, q);
                let c = q + w2;
                if c >= s.len() || s[c] != 0x3a {
                    None
                } else {
                    let w3 = ws_count(s, c + 1);
                    let v = c + 1 + w3;
                    proof {
                        lemma_ws_count_le(s, c + 1);
                    }
                    match value_end(s, v, depth) {
                        None => None,
                        Some(vn) => {
                            let a = v + vn;
                            let w4 = ws_count(s, a);
                            let e = a + w4;
                            if e >= s.len() {
                                None
                            } else if s[e] == 0x7d {
                                Some((e + 1 - i) as nat)
                            } else if s[e] == 0x2c {
                                match obj_members(s, e + 1, depth) {
                                    Some(n) => Some(((e + 1 - i) + n) as nat),
                                    None => None,
                                }
                            } else {
                                None
                            }
                        },
                    }
                }
            },
        }
    }
}

/// Bytes consumed from just after `[` up to and including the matching `]`.
pub open spec fn arr_rest(s: Seq<u8>, i: int, depth: nat) -> Option<nat>
    decreases depth, s.len() - i, 2int,
{
    let w = ws_count(s, i);
    let p = i + w;
    if p >= s.len() {
        None
    } else if s[p] == 0x5d {
        Some((w + 1) as nat)
    } else {
        arr_elems(s, i, depth)
    }
}

/// Bytes consumed by one or more array elements and the closing `]`, from
/// position `i` (just after `[` or after a separating comma).
pub open spec fn arr_elems(s: Seq<u8>, i: int, depth: nat) -> Option<nat>
    decreases depth, s.len() - i, 1int,
{
    let w = ws_count(s, i);
    let p = i + w;
    proof {
        lemma_ws_count_le(s, i);
    }
    match value_end(s, p, depth) {
        None => None,
        Some(vn) => {
            let a = p + vn;
            let w2 = ws_count(s, a);
            let e = a + w2;
            if e >= s.len() {
                None
            } else if s[e] == 0x5d {
                Some((e + 1 - i) as nat)
            } else if s[e] == 0x2c {
                match arr_elems(s, e + 1, depth) {
                    Some(n) => Some(((e + 1 - i) + n) as nat),
                    None => None,
                }
            } else {
                None
            }
        },
    }
}

/// Scans the members of the top-level object from position `i` (just after
/// `{` or after a separating comma), looking for the `"prompt"` member.
/// `found` carries the decoded prompt seen so far.  Returns the prompt state
/// and the bytes consumed up to and including the closing `}`.  `None` when
/// the members are not well-formed, when `"prompt"` appears twice, or when
/// its value is not a string.
pub open spec fn prompt_members(s: Seq<u8>, i: int, depth: nat, found: Option<Seq<u8>>) -> Option<
    (Option<Seq<u8>>, nat),
>
    decreases s.len() - i,
{
    let w = ws_count(s, i);
    let p = i + w;
    if p >= s.len() || s[p] != 0x22 {
        None
    } else {
        match str_rest(s, p + 1) {
            None => None,
            Some((key, kn)) => {
                let q = p + 1 + kn;
                let w2 = ws_count(s, q);
                let c = q + w2;
                if c >= s.len() || s[c] != 0x3a {
                    None
                } else {
                    let w3 = ws_count(s, c + 1);
                    let v = c + 1 + w3;
                    if key == prompt_key() {
                        if found is Some {
                            // a duplicated member is rejected
                            None
                        } else if v >= s.len() || s[v] != 0x22 {
                            // the prompt must be a string
                            None
                        } else {
                            match str_rest(s, v + 1) {
                                None => None,
                                Some((pv, pn)) => {
                                    let a = v + 1 + pn;
                                    let e = a + ws_count(s, a);
                                    if e >= s.len() {
                                        None
                                    } else if s[e] == 0x7d {
                                        Some((Some(pv), (e + 1 - i) as nat))
                                    } else if s[e] == 0x2c {
                                        match prompt_members(s, e + 1, depth, Some(pv)) {
                                            Some((f, n)) => Some((f, ((e + 1 - i) + n) as nat)),
                                            None => None,
                                        }
                                    } else {
                                        None
                                    }
                                },
                            }
                        }
                    } else {
                        match value_end(s, v, depth) {
                            None => None,
                            Some(vn) => {
                                let a = v + vn;
                                let e = a + ws_count(s, a);
                                if e >= s.len() {
                                    None
                                } else if s[e] == 0x7d {
                                    Some((found, (e + 1 - i) as nat))
                                } else if s[e] == 0x2c {
                                    match prompt_members(s, e + 1, depth, found) {
                                        Some((f, n)) => Some((f, ((e + 1 - i) + n) as nat)),
                                        None => None,
                                    }
                                } else {
                                    None
                                }
                            },
                        }
                    }
                }
            },
        }
    }
}

/// The decoded `"prompt"` member of an inbound body, when the body is one
/// well-formed JSON object that carries exactly one `"prompt"` member whose
/// value is a string; `None` otherwise.
pub open spec fn parse_prompt_spec(s: Seq<u8>) -> Option<Seq<u8>> {
    let w = ws_count(s, 0) as int;
    if w >= s.len() || s[w] != 0x7b {
        None
    } else {
        match prompt_members(s, w + 1, (MAX_NESTING - 1) as nat, None) {
            None => None,
            Some((found, n)) => {
                let e = w + 1 + n as int;
                if e + ws_count(s, e) == s.len() {
                    found
                } else {
                    None
                }
            },
        }
    }
}

/// Lowercase hexadecimal digit for a value below 16.
pub open spec fn hex_digit_byte(v: u8) -> u8
    recommends
        v < 16,
{
    if v < 10 {
        (0x30 + v) as u8
    } else {
        (0x57 + v) as u8
    }
}

/// JSON escaping of one byte of string content: quote and backslash get a
/// two-byte escape, the five named control characters their short escapes,
/// other control bytes `\u00XX`, and everything else passes through.
pub open spec fn esc_byte(b: u8) -> Seq<u8> {
    if b == 0x22 {
        seq![0x5cu8, 0x22u8]
    } else if b == 0x5c {
        seq![0x5cu8, 0x5cu8]
    } else if b == 0x08 {
        seq![0x5cu8, 0x62u8]
    } else if b == 0x0c {
        seq![0x5cu8, 0x66u8]
    } else if b == 0x0a {
        seq![0x5cu8, 0x6eu8]
    } else if b == 0x0d {
        seq![0x5cu8, 0x72u8]
    } else if b == 0x09 {
        seq![0x5cu8, 0x74u8]
    } else if b < 0x20 {
        seq![0x5cu8, 0x75u8, 0x30u8, 0x30u8, hex_digit_byte(b / 16), hex_digit_byte(b % 16)]
    } else {
        seq![b]
    }
}

/// JSON escaping of a whole string content, byte for byte.
pub open spec fn esc(s: Seq<u8>) -> Seq<u8>
    decreases s.len(),
{
    if s.len() == 0 {
        Seq::empty()
    } else {
        esc_byte(s[0]) + esc(s.drop_first())
    }
}

/// Escaping distributes over concatenation.
pub proof fn lemma_esc_concat(a: Seq<u8>, b: Seq<u8>)
    ensures
        esc(a + b) == esc(a) + esc(b),
    decreases a.len(),
{
    if a.len() == 0 {
        assert(a + b =~= b);
        assert(esc(a) + esc(b) =~= esc(b));
    } else {
        assert((a + b).drop_first() =~= a.drop_first() + b);
        lemma_esc_concat(a.drop_first(), b);
        assert(esc(a + b) =~= esc(a) + esc(b));
    }
}

/// Decoding undoes escaping: wherever the escaped bytes of `s`, closed by a
/// quote, stand in `t`, the string-body decoder recovers exactly `s` and
/// stops at that quote.
pub proof fn lemma_esc_str_rest(s: Seq<u8>, t: Seq<u8>, i: int)
    requires
        0 <= i,
        i + esc(s).len() + 1 <= t.len(),
        t.subrange(i, i + esc(s).len() + 1) == esc(s) + seq![0x22u8],
    ensures
        str_rest(t, i) == Some((s, (esc(s).len() + 1) as nat)),
    decreases s.len(),
{
    let tail = t.subrange(i, i + esc(s).len() + 1);
    if s.len() == 0 {
        assert(tail =~= seq![0x22u8]);
        assert(t[i] == tail[0]);
    } else {
        let b = s[0];
        let eb = esc_byte(b);
        let rest = esc(s.drop_first()) + seq![0x22u8];
        assert(esc(s) == eb + esc(s.drop_first()));
        assert(tail =~= eb + rest);
        assert forall|k: int| 0 <= k < eb.len() implies t[i + k] == eb[k] by {
            assert(tail[k] == t[i + k]);
        }
        let i2 = i + eb.len();
        assert forall|k: int| 0 <= k < rest.len() implies t.subrange(
            i2,
            i2 + esc(s.drop_first()).len() + 1,
        )[k] == rest[k] by {
            assert(tail[eb.len() + k] == t[i + eb.len() + k]);
            assert(tail[eb.len() + k] == rest[k]);
        }
        assert(t.subrange(i2, i2 + esc(s.drop_first()).len() + 1) =~= rest);
        lemma_esc_str_rest(s.drop_first(), t, i2);
        if b == 0x22 || b == 0x5c || b == 0x08 || b == 0x0c || b == 0x0a || b == 0x0d
            || b == 0x09 {
            // two-byte escape; the decoder takes the simple-escape branch
            assert(seq![b] + s.drop_first() =~= s);
        } else if b < 0x20 {
            // \u00XX escape
            let hi = b / 16;
            let lo = b % 16;
            assert(t[i + 4] == hex_digit_byte(hi) && t[i + 5] == hex_digit_byte(lo));
            assert(hex_val(hex_digit_byte(hi)) == hi && hex_val(hex_digit_byte(lo)) == lo);
            let cp = hex4_val(t, i + 2);
            assert(cp == hi * 0x10 + lo);
            assert(cp == b);
            assert(encode_scalar(cp as u32) =~= seq![b]) by {
                assert((b as u32) & 0x7F == b as u32) by (bit_vector)
                    requires
                        b < 0x20,
                ;
            }
            assert(seq![b] + s.drop_first() =~= s);
        } else {
            // the byte passes through unescaped
            assert(seq![b] + s.drop_first() =~= s);
        }
    }
}

/// Round trip: decoding an escaped string recovers the original bytes.
pub proof fn lemma_escape_roundtrip(s: Seq<u8>)
    ensures
        str_rest(esc(s) + seq![0x22u8], 0) == Some((s, (esc(s).len() + 1) as nat)),
{
    let t = esc(s) + seq![0x22u8];
    assert(t.subrange(0, esc(s).len() as int + 1) =~= t);
    lemma_esc_str_rest(s, t, 0);
}

/// Executable test for JSON whitespace.
fn ws_byte(b: u8) -> (r: bool)
    ensures
        r == is_ws(b),
{
    b == 0x20 || b == 0x09 || b == 0x0a || b == 0x0d
}

/// Advances over insignificant whitespace.
fn skip_ws(s: &[u8], i: usize) -> (j: usize)
    requires
        i <= s.len(),
    ensures
        i <= j <= s.len(),
        j == i + ws_count(s@, i as int),
{
    let mut j = i;
    while j < s.len() && ws_byte(s[j])
        invariant
            i <= j <= s.len(),
            i + ws_count(s@, i as int) == j + ws_count(s@, j as int),
        decreases s.len() - j,
    {
        j = j + 1;
    }
    j
}

/// Value of one hexadecimal digit, or `None`.
fn hex_nibble(b: u8) -> (r: Option<u8>)
    ensures
        r is Some ==> is_hex_digit(b) && r->0 == hex_val(b),
        r is None ==> !is_hex_digit(b),
{
    if 0x30 <= b && b <= 0x39 {
        Some(b - 0x30)
    } else if 0x41 <= b && b <= 0x46 {
        Some(b - 0x37)
    } else if 0x61 <= b && b <= 0x66 {
        Some(b - 0x57)
    } else {
        None
    }
}

/// Reads four hexadecimal digits at `i`.
fn read_hex4(s: &[u8], i: usize) -> (r: Option<u32>)
    requires
        i <= s.len(),
    ensures
        r is Some ==> hex4_ok(s@, i as int) && r->0 == hex4_val(s@, i as int) && r->0 <= 0xFFFF
            && i + 4 <= s.len(),
        r is None ==> !hex4_ok(s@, i as int),
{
    if s.len() - i < 4 {
        return None;
    }
    let (Some(d0), Some(d1), Some(d2), Some(d3)) = (
        hex_nibble(s[i]),
        hex_nibble(s[i + 1]),
        hex_nibble(s[i + 2]),
        hex_nibble(s[i + 3]),
    ) else {
        return None;
    };
    Some((d0 as u32) * 0x1000 + (d1 as u32) * 0x100 + (d2 as u32) * 0x10 + (d3 as u32))
}

/// Appends the UTF-8 encoding of one Unicode scalar.
fn push_scalar(out: &mut Vec<u8>, cp: u32)
    requires
        is_scalar(cp),
    ensures
        final(out)@ == old(out)@ + encode_scalar(cp),
{
    let ghost out0 = out@;
    if cp < 0x80 {
        assert(cp & 0x7F == cp) by (bit_vector)
            requires
                cp < 0x80,
        ;
        out.push((cp & 0x7F) as u8);
        assert(out@ =~= out0 + encode_scalar(cp));
    } else if cp < 0x800 {
        assert((cp >> 6) & 0x1F <= 0x1F && cp & 0x3F <= 0x3F) by (bit_vector);
        out.push(0xC0u8 | ((cp >> 6) & 0x1F) as u8);
        out.push(0x80u8 | (cp & 0x3F) as u8);
        assert(out@ =~= out0 + encode_scalar(cp));
    } else if cp < 0x10000 {
        assert((cp >> 12) & 0x0F <= 0x0F && (cp >> 6) & 0x3F <= 0x3F && cp & 0x3F <= 0x3F)
            by (bit_vector);
        out.push(0xE0u8 | ((cp >> 12) & 0x0F) as u8);
        out.push(0x80u8 | ((cp >> 6) & 0x3F) as u8);
        out.push(0x80u8 | (cp & 0x3F) as u8);
        assert(out@ =~= out0 + encode_scalar(cp));
    } else {
        assert((cp >> 18) & 0x7 <= 0x7 && (cp >> 12) & 0x3F <= 0x3F && (cp >> 6) & 0x3F <= 0x3F
            && cp & 0x3F <= 0x3F) by (bit_vector);
        out.push(0xF0u8 | ((cp >> 18) & 0x7) as u8);
        out.push(0x80u8 | ((cp >> 12) & 0x3F) as u8);
        out.push(0x80u8 | ((cp >> 6) & 0x3F) as u8);
        out.push(0x80u8 | (cp & 0x3F) as u8);
        assert(out@ =~= out0 + encode_scalar(cp));
    }
}

/// Executable form of [`simple_unescape`].
fn simple_unescape_byte(b: u8) -> (r: Option<u8>)
    ensures
        r == simple_unescape(b),
{
    if b == 0x22 {
        Some(0x22)
    } else if b == 0x5c {
        Some(0x5c)
    } else if b == 0x2f {
        Some(0x2f)
    } else if b == 0x62 {
        Some(0x08)
    } else if b == 0x66 {
        Some(0x0c)
    } else if b == 0x6e {
        Some(0x0a)
    } else if b == 0x72 {
        Some(0x0d)
    } else if b == 0x74 {
        Some(0x09)
    } else {
        None
    }
}

/// Decodes a string body from position `i` (just after the opening quote) to
/// its closing quote, per [`str_rest`].  On success returns the decoded bytes
/// and the position just after the closing quote.
fn read_string_body(s: &[u8], i: usize) -> (r: Option<(Vec<u8>, usize)>)
    requires
        i <= s.len(),
    ensures
        r is Some ==> str_rest(s@, i as int) == Some(((r->0).0@, ((r->0).1 - i) as nat)) && i < (
        r->0).1 <= s.len(),
        r is None ==> str_rest(s@, i as int) is None,
{
    let mut out: Vec<u8> = Vec::new();
    let mut cur = i;
    loop
        invariant
            i <= cur <= s.len(),
            str_rest(s@, i as int) == match str_rest(s@, cur as int) {
                Some((t, n)) => Some((out@ + t, ((cur - i) + n) as nat)),
                None => None::<(Seq<u8>, nat)>,
            },
        decreases s.len() - cur,
    {
        if cur == s.len() {
            return None;
        }
        let b = s[cur];
        if b == 0x22 {
            proof {
                assert(out@ + Seq::<u8>::empty() =~= out@);
            }
            return Some((out, cur + 1));
        } else if b == 0x5c {
            if s.len() - cur < 2 {
                return None;
            }
            let e = s[cur + 1];
            if let Some(d) = simple_unescape_byte(e) {
                let ghost out0 = out@;
                out.push(d);
                proof {
                    match str_rest(s@, cur as int + 2) {
                        Some((t2, n2)) => {
                            assert(out0 + (seq![d] + t2) =~= (out0 + seq![d]) + t2);
                        },
                        None => {},
                    }
                }
                cur = cur + 2;
            } else if e == 0x75 {
                let Some(cp) = read_hex4(s, cur + 2) else { return None };
                if 0xD800 <= cp && cp < 0xDC00 {
                    if s.len() - cur < 12 {
                        return None;
                    }
                    if s[cur + 6] != 0x5c || s[cur + 7] != 0x75 {
                        return None;
                    }
                    let Some(cp2) = read_hex4(s, cur + 8) else { return None };
                    if !(0xDC00 <= cp2 && cp2 < 0xE000) {
                        return None;
                    }
                    let code = 0x10000 + (cp - 0xD800) * 0x400 + (cp2 - 0xDC00);
                    let ghost out0 = out@;
                    push_scalar(&mut out, code);
                    proof {
                        match str_rest(s@, cur as int + 12) {
                            Some((t2, n2)) => {
                                assert(out0 + (encode_scalar(code) + t2) =~= (out0 + encode_scalar(
                                    code,
                                )) + t2);
                            },
                            None => {},
                        }
                    }
                    cur = cur + 12;
                } else if 0xDC00 <= cp && cp < 0xE000 {
                    return None;
                } else {
                    let ghost out0 = out@;
                    push_scalar(&mut out, cp);
                    proof {
                        match str_rest(s@, cur as int + 6) {
                            Some((t2, n2)) => {
                                assert(out0 + (encode_scalar(cp) + t2) =~= (out0 + encode_scalar(
                                    cp,
                                )) + t2);
                            },
                            None => {},
                        }
                    }
                    cur = cur + 6;
                }
            } else {
                return None;
            }
        } else if b < 0x20 {
            return None;
        } else {
            let ghost out0 = out@;
            out.push(b);
            proof {
                match str_rest(s@, cur as int + 1) {
                    Some((t2, n2)) => {
                        assert(out0 + (seq![b] + t2) =~= (out0 + seq![b]) + t2);
                    },
                    None => {},
                }
            }
            cur = cur + 1;
        }
    }
}

/// Advances over decimal digits.
fn skip_digits(s: &[u8], i: usize) -> (j: usize)
    requires
        i <= s.len(),
    ensures
        i <= j <= s.len(),
        j == i + digits_count(s@, i as int),
{
    let mut j = i;
    while j < s.len() && 0x30 <= s[j] && s[j] <= 0x39
        invariant
            i <= j <= s.len(),
            i + digits_count(s@, i as int) == j + digits_count(s@, j as int),
        decreases s.len() - j,
    {
        j = j + 1;
    }
    j
}

/// Scans one complete JSON number token starting at `i`; returns its end.
fn skip_number(s: &[u8], i: usize) -> (r: Option<usize>)
    requires
        i <= s.len(),
    ensures
        r is Some ==> number_end(s@, i as int) == Some(r->0 as int) && i < r->0 <= s.len(),
        r is None ==> number_end(s@, i as int) is None,
{
    let j = if i < s.len() && s[i] == 0x2d {
        i + 1
    } else {
        i
    };
    if j == s.len() || !(0x30 <= s[j] && s[j] <= 0x39) {
        return None;
    }
    let k = if s[j] == 0x30 {
        j + 1
    } else {
        skip_digits(s, j)
    };
    let k2 = if k < s.len() && s[k] == 0x2e {
        let d = skip_digits(s, k + 1);
        if d == k + 1 {
            return None;
        }
        d
    } else {
        k
    };
    if k2 < s.len() && (s[k2] == 0x65 || s[k2] == 0x45) {
        let j2 = if k2 + 1 < s.len() && (s[k2 + 1] == 0x2b || s[k2 + 1] == 0x2d) {
            k2 + 2
        } else {
            k2 + 1
        };
        let d2 = skip_digits(s, j2);
        if d2 == j2 {
            return None;
        }
        Some(d2)
    } else {
        Some(k2)
    }
}

/// Scans one complete JSON value whose first byte stands at `i`; returns the
/// position just after it.  `depth` is how many more container levels may
/// open.
fn skip_value(s: &[u8], i: usize, depth: u32) -> (r: Option<usize>)
    requires
        i <= s.len(),
    ensures
        r is Some ==> value_end(s@, i as int, depth as nat) == Some((r->0 - i) as nat) && i < r->0
            <= s.len(),
        r is None ==> value_end(s@, i as int, depth as nat) is None,
    decreases depth, s.len() - i, 0int,
{
    if i == s.len() {
        return None;
    }
    let b = s[i];
    if b == 0x22 {
        match read_string_body(s, i + 1) {
            Some((_t, j)) => Some(j),
            None => None,
        }
    } else if b == 0x7b {
        if depth == 0 {
            return None;
        }
        skip_obj_rest(s, i + 1, depth - 1)
    } else if b == 0x5b {
        if depth == 0 {
            return None;
        }
        skip_arr_rest(s, i + 1, depth - 1)
    } else if b == 0x74 {
        if s.len() - i >= 4 && s[i + 1] == 0x72 && s[i + 2] == 0x75 && s[i + 3] == 0x65 {
            Some(i + 4)
        } else {
            None
        }
    } else if b == 0x66 {
        if s.len() - i >= 5 && s[i + 1] == 0x61 && s[i + 2] == 0x6c && s[i + 3] == 0x73 && s[i
            + 4] == 0x65 {
            Some(i + 5)
        } else {
            None
        }
    } else if b == 0x6e {
        if s.len() - i >= 4 && s[i + 1] == 0x75 && s[i + 2] == 0x6c && s[i + 3] == 0x6c {
            Some(i + 4)
        } else {
            None
        }
    } else if b == 0x2d || (0x30 <= b && b <= 0x39) {
        skip_number(s, i)
    } else {
        None
    }
}

/// Scans from just after `{` to just after the matching `}`.
fn skip_obj_rest(s: &[u8], i: usize, depth: u32) -> (r: Option<usize>)
    requires
        i <= s.len(),
    ensures
        r is Some ==> obj_rest(s@, i as int, depth as nat) == Some((r->0 - i) as nat) && i < r->0
            <= s.len(),
        r is None ==> obj_rest(s@, i as int, depth as nat) is None,
    decreases depth, s.len() - i, 2int,
{
    let j = skip_ws(s, i);
    if j == s.len() {
        return None;
    }
    if s[j] == 0x7d {
        return Some(j + 1);
    }
    let mut cur = i;
    loop
        invariant
            i <= cur <= s.len(),
            obj_rest(s@, i as int, depth as nat) == match obj_members(s@, cur as int, depth as nat) {
                Some(n) => Some(((cur - i) + n) as nat),
                None => None::<nat>,
            },
        decreases s.len() - cur,
    {
        let p = skip_ws(s, cur);
        if p == s.len() || s[p] != 0x22 {
            return None;
        }
        let Some((_key, q)) = read_string_body(s, p + 1) else { return None };
        let c = skip_ws(s, q);
        if c == s.len() || s[c] != 0x3a {
            return None;
        }
        let v = skip_ws(s, c + 1);
        let Some(a) = skip_value(s, v, depth) else { return None };
        let e = skip_ws(s, a);
        if e == s.len() {
            return None;
        }
        if s[e] == 0x7d {
            return Some(e + 1);
        }
        if s[e] != 0x2c {
            return None;
        }
        cur = e + 1;
    }
}

/// Scans from just after `[` to just after the matching `]`.
fn skip_arr_rest(s: &[u8], i: usize, depth: u32) -> (r: Option<usize>)
    requires
        i <= s.len(),
    ensures
        r is Some ==> arr_rest(s@, i as int, depth as nat) == Some((r->0 - i) as nat) && i < r->0
            <= s.len(),
        r is None ==> arr_rest(s@, i as int, depth as nat) is None,
    decreases depth, s.len() - i, 2int,
{
    let j = skip_ws(s, i);
    if j == s.len() {
        return None;
    }
    if s[j] == 0x5d {
        return Some(j + 1);
    }
    let mut cur = i;
    loop
        invariant
            i <= cur <= s.len(),
            arr_rest(s@, i as int, depth as nat) == match arr_elems(s@, cur as int, depth as nat) {
                Some(n) => Some(((cur - i) + n) as nat),
                None => None::<nat>,
            },
        decreases s.len() - cur,
    {
        let p = skip_ws(s, cur);
        let Some(a) = skip_value(s, p, depth) else { return None };
        let e = skip_ws(s, a);
        if e == s.len() {
            return None;
        }
        if s[e] == 0x5d {
            return Some(e + 1);
        }
        if s[e] != 0x2c {
            return None;
        }
        cur = e + 1;
    }
}

/// True when `k` holds exactly the bytes of `prompt`.
fn is_prompt_key(k: &Vec<u8>) -> (r: bool)
    ensures
        r == (k@ == prompt_key()),
{
    let r = k.len() == 6 && k[0] == 0x70 && k[1] == 0x72 && k[2] == 0x6f && k[3] == 0x6d && k[4]
        == 0x70 && k[5] == 0x74;
    proof {
        if r {
            assert(k@ =~= prompt_key());
        } else {
            if k@ == prompt_key() {
                assert(k@.len() == 6);
                assert(k@[0] == 0x70 && k@[1] == 0x72 && k@[2] == 0x6f && k@[3] == 0x6d && k@[4]
                    == 0x70 && k@[5] == 0x74);
            }
        }
    }
    r
}

/// The deep view of an optional byte vector.
pub open spec fn opt_bytes_view(o: Option<Vec<u8>>) -> Option<Seq<u8>> {
    match o {
        Some(v) => Some(v@),
        None => None,
    }
}

/// Extracts the decoded `"prompt"` member from an inbound body, per
/// [`parse_prompt_spec`]: `Some` exactly when the body is one well-formed
/// JSON object with exactly one `"prompt"` member whose value is a string.
#[verifier::rlimit(50)]
pub fn parse_prompt(body: &[u8]) -> (r: Option<Vec<u8>>)
    ensures
        parse_prompt_spec(body@) == opt_bytes_view(r),
{
    let s = body;
    let w = skip_ws(s, 0);
    if w == s.len() || s[w] != 0x7b {
        return None;
    }
    let start = w + 1;
    let depth: u32 = MAX_NESTING - 1;
    let mut cur = start;
    let mut found: Option<Vec<u8>> = None;
    loop
        invariant
            s@ == body@,
            start <= cur <= s.len(),
            w + 1 == start,
            w == ws_count(s@, 0),
            w < s.len() && s@[w as int] == 0x7b,
            depth == MAX_NESTING - 1,
            prompt_members(s@, start as int, depth as nat, None) == match prompt_members(
                s@,
                cur as int,
                depth as nat,
                opt_bytes_view(found),
            ) {
                Some((f, n)) => Some((f, ((cur - start) + n) as nat)),
                None => None::<(Option<Seq<u8>>, nat)>,
            },
        decreases s.len() - cur,
    {
        let p = skip_ws(s, cur);
        if p == s.len() || s[p] != 0x22 {
            return None;
        }
        let Some((key, q)) = read_string_body(s, p + 1) else { return None };
        let c = skip_ws(s, q);
        if c == s.len() || s[c] != 0x3a {
            return None;
        }
        let v = skip_ws(s, c + 1);
        let a: usize;
        if is_prompt_key(&key) {
            if found.is_some() {
                return None;
            }
            if v == s.len() || s[v] != 0x22 {
                return None;
            }
            let Some((pv, pe)) = read_string_body(s, v + 1) else { return None };
            found = Some(pv);
            a = pe;
        } else {
            let Some(ve) = skip_value(s, v, depth) else { return None };
            a = ve;
        }
        let e = skip_ws(s, a);
        if e == s.len() {
            return None;
        }
        if s[e] == 0x7d {
            // end of the top-level object: only trailing whitespace may follow
            let t = skip_ws(s, e + 1);
            if t != s.len() {
                return None;
            }
            return found;
        }
        if s[e] != 0x2c {
            return None;
        }
        cur = e + 1;
    }
}

} // verus!
