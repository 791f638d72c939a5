//! The line-oriented client's command parser.
//!
//! A line starting with `put` must hold exactly three whitespace-
//! separated tokens — the word, a key and a value, both 32-bit signed
//! decimals — and becomes a put request whose value is the little-
//! endian bytes of the number. A line starting with `get` must hold the
//! word and a key and becomes a get request. Anything else is rejected.

use vstd::prelude::*;

verus! {

use vstd::bytes::{spec_u32_to_le_bytes, u32_from_le_bytes, u32_to_le_bytes};
use vstd::string::StrSliceExecFns;
use vstd::string::StringSliceAdditionalSpecFns;

/// A parsed client command.
pub enum KvMessage {
    GetRequest(GetRequestData),
    PutRequest(PutRequestData),
}

/// The payload of a get command.
pub struct GetRequestData {
    pub key: i32,
}

/// The payload of a put command.
pub struct PutRequestData {
    pub key: i32,
    pub value: Vec<u8>,
}

/// Rejections of a client line.
#[derive(Debug)]
pub enum MessageError {
    InvalidPutUsage,
    InvalidGetUsage,
    NotAGetOrPut,
    InvalidNumber,
}

/// ASCII whitespace, the token separators of a command line.
pub open spec fn is_space(c: u8) -> bool {
    c == 32 || c == 9 || c == 10 || c == 13
}

/// An ASCII decimal digit.
pub open spec fn is_digit(c: u8) -> bool {
    48 <= c <= 57
}

/// The maximal non-space prefix of the bytes.
pub open spec fn spec_token_prefix(s: Seq<u8>) -> Seq<u8>
    decreases s.len(),
{
    if s.len() == 0 || is_space(s[0]) {
        Seq::empty()
    } else {
        seq![s[0]] + spec_token_prefix(s.drop_first())
    }
}

/// The whitespace-separated tokens of the bytes, in order.
pub open spec fn spec_tokens(s: Seq<u8>) -> Seq<Seq<u8>>
    decreases s.len(),
    via spec_tokens_decreases
{
    if s.len() == 0 {
        Seq::empty()
    } else if is_space(s[0]) {
        spec_tokens(s.drop_first())
    } else {
        seq![spec_token_prefix(s)] + spec_tokens(s.skip(spec_token_prefix(s).len() as int))
    }
}

#[via_fn]
proof fn spec_tokens_decreases(s: Seq<u8>) {
    if s.len() > 0 && !is_space(s[0]) {
        lemma_token_prefix_shape(s);
        assert(spec_token_prefix(s) == seq![s[0]] + spec_token_prefix(s.drop_first()));
        assert(spec_token_prefix(s).len() >= 1);
        assert(s.skip(spec_token_prefix(s).len() as int).len() < s.len());
    }
}

/// The value of a digit string, most significant first.
pub open spec fn digits_value(s: Seq<u8>) -> int
    decreases s.len(),
{
    if s.len() == 0 {
        0
    } else {
        digits_value(s.drop_last()) * 10 + (s.last() - 48)
    }
}

/// The digit part of a decimal with an optional sign.
pub open spec fn number_body(s: Seq<u8>) -> Seq<u8> {
    if s.len() >= 1 && (s[0] == 43 || s[0] == 45) {
        s.drop_first()
    } else {
        s
    }
}

/// Whether the bytes form a valid `i32` decimal: an optional sign, at
/// least one digit, and a value in range.
pub open spec fn spec_is_i32(s: Seq<u8>) -> bool {
    let body = number_body(s);
    &&& body.len() >= 1
    &&& (forall|i: int| 0 <= i < body.len() ==> is_digit(#[trigger] body[i]))
    &&& (if s.len() >= 1 && s[0] == 45 {
        digits_value(body) <= 0x80000000
    } else {
        digits_value(body) <= 0x7fffffff
    })
}

/// The value of a valid `i32` decimal.
pub open spec fn spec_i32_value(s: Seq<u8>) -> int {
    if s.len() >= 1 && s[0] == 45 {
        -digits_value(number_body(s))
    } else {
        digits_value(number_body(s))
    }
}

/// Ten to the power `n`.
pub open spec fn pow10(n: nat) -> int
    decreases n,
{
    if n == 0 {
        1
    } else {
        10 * pow10((n - 1) as nat)
    }
}

proof fn lemma_digits_value_bounds(s: Seq<u8>)
    requires
        forall|i: int| 0 <= i < s.len() ==> is_digit(#[trigger] s[i]),
    ensures
        0 <= digits_value(s) < pow10(s.len()),
    decreases s.len(),
{
    if s.len() > 0 {
        assert(forall|i: int|
            0 <= i < s.drop_last().len() ==> is_digit(#[trigger] s.drop_last()[i]));
        lemma_digits_value_bounds(s.drop_last());
    }
}

proof fn lemma_digits_value_min(s: Seq<u8>)
    requires
        forall|i: int| 0 <= i < s.len() ==> is_digit(#[trigger] s[i]),
        s.len() >= 1,
        s[0] != 48,
    ensures
        digits_value(s) >= pow10((s.len() - 1) as nat),
    decreases s.len(),
{
    assert(digits_value(s) == digits_value(s.drop_last()) * 10 + (s.last() - 48));
    if s.len() == 1 {
        assert(s.drop_last().len() == 0);
        assert(digits_value(s.drop_last()) == 0);
        assert(s.last() == s[0]);
        assert(s.last() - 48 >= 1);
        assert(pow10(0) == 1);
    } else {
        assert(forall|i: int|
            0 <= i < s.drop_last().len() ==> is_digit(#[trigger] s.drop_last()[i]));
        assert(s.drop_last()[0] == s[0]);
        lemma_digits_value_min(s.drop_last());
        assert(s.last() - 48 >= 0);
        assert(pow10((s.len() - 1) as nat) == 10 * pow10((s.len() - 2) as nat));
    }
}

proof fn lemma_strip_leading_zero(s: Seq<u8>)
    requires
        s.len() >= 1,
        s[0] == 48,
    ensures
        digits_value(s) == digits_value(s.drop_first()),
    decreases s.len(),
{
    assert(digits_value(s) == digits_value(s.drop_last()) * 10 + (s.last() - 48));
    if s.len() == 1 {
        assert(s.last() == 48);
        assert(s.drop_last().len() == 0);
        assert(s.drop_first().len() == 0);
        assert(digits_value(s.drop_last()) == 0);
        assert(digits_value(s.drop_first()) == 0);
    } else {
        assert(s.drop_last()[0] == 48);
        lemma_strip_leading_zero(s.drop_last());
        assert(s.drop_last().drop_first() =~= s.drop_first().drop_last());
        assert(s.drop_first().last() == s.last());
        assert(digits_value(s.drop_first()) == digits_value(s.drop_first().drop_last()) * 10 + (
        s.drop_first().last() - 48));
    }
}

proof fn lemma_pow10_vals()
    ensures
        pow10(9) == 1000000000,
        pow10(10) == 10000000000,
{
    assert(pow10(0) == 1);
    assert(pow10(1) == 10);
    assert(pow10(2) == 100);
    assert(pow10(3) == 1000);
    assert(pow10(4) == 10000);
    assert(pow10(5) == 100000);
    assert(pow10(6) == 1000000);
    assert(pow10(7) == 10000000);
    assert(pow10(8) == 100000000);
    assert(pow10(9) == 1000000000);
    assert(pow10(10) == 10000000000);
}

proof fn lemma_pow10_ge(n: nat)
    requires
        n >= 11,
    ensures
        pow10((n - 1) as nat) > 0x80000000,
    decreases n,
{
    if n == 11 {
        lemma_pow10_vals();
    } else {
        lemma_pow10_ge((n - 1) as nat);
        lemma_pow10_pos((n - 2) as nat);
    }
}

/// Parses a decimal `i32`; accepts exactly the valid decimals and
/// returns their value.
pub fn parse_i32(token: &Vec<u8>) -> (r: Result<i32, MessageError>)
    ensures
        r is Ok <==> spec_is_i32(token@),
        r matches Ok(v) ==> v == spec_i32_value(token@),
{
    let ghost s = token@;
    let mut pos: usize = 0;
    let negative: bool;
    if token.len() >= 1 && (token[0] == 43 || token[0] == 45) {
        negative = token[0] == 45;
        pos = 1;
    } else {
        negative = false;
    }
    let ghost body = number_body(s);
    proof {
        assert(body =~= s.skip(pos as int));
        assert(body.len() == s.len() - pos);
    }
    if pos >= token.len() {
        proof {
            assert(body.len() == 0);
        }
        return Err(MessageError::InvalidNumber);
    }
    let mut i: usize = pos;
    while i < token.len()
        invariant
            pos <= i <= token@.len(),
            body == s.skip(pos as int),
            body == number_body(s),
            s == token@,
            forall|j: int| 0 <= j < i - pos ==> is_digit(#[trigger] body[j]),
        decreases token@.len() - i,
    {
        let c = token[i];
        proof {
            assert(s.skip(pos as int)[i - pos] == s[i as int]);
        }
        if c < 48 || c > 57 {
            proof {
                assert(body[i - pos] == c);
                assert(!is_digit(body[i - pos]));
            }
            return Err(MessageError::InvalidNumber);
        }
        i = i + 1;
        proof {
            assert(s.skip(pos as int)[i - 1 - pos] == s[i - 1]);
            assert(body[i - 1 - pos] == token@[i - 1]);
        }
    }
    proof {
        assert(forall|j: int| 0 <= j < body.len() ==> is_digit(#[trigger] body[j]));
    }
    // Skip leading zeros; they do not change the value.
    let mut z: usize = pos;
    while z < token.len() && token[z] == 48
        invariant
            pos <= z <= token@.len(),
            s == token@,
            body == s.skip(pos as int),
            forall|j: int| 0 <= j < body.len() ==> is_digit(#[trigger] body[j]),
            digits_value(s.skip(z as int)) == digits_value(body),
            forall|j: int| 0 <= j < s.skip(z as int).len() ==> is_digit(
                #[trigger] s.skip(z as int)[j],
            ),
        decreases token@.len() - z,
    {
        proof {
            lemma_strip_leading_zero(s.skip(z as int));
            assert(s.skip(z as int).drop_first() =~= s.skip(z as int + 1));
        }
        z = z + 1;
    }
    let ghost core = s.skip(z as int);
    proof {
        lemma_digits_value_bounds(core);
    }
    if token.len() - z > 10 {
        proof {
            assert(core[0] == token@[z as int]);
            assert(core[0] != 48);
            lemma_digits_value_min(core);
            lemma_pow10_ge(core.len());
            assert(digits_value(body) > 0x80000000);
        }
        return Err(MessageError::InvalidNumber);
    }
    let mut acc: u64 = 0;
    let mut j: usize = z;
    proof {
        assert(core.take(0) =~= Seq::<u8>::empty());
    }
    while j < token.len()
        invariant
            z <= j <= token@.len(),
            s == token@,
            core == s.skip(z as int),
            token@.len() - z <= 10,
            forall|jj: int| 0 <= jj < core.len() ==> is_digit(#[trigger] core[jj]),
            acc == digits_value(core.take(j - z)),
            acc < 10000000000,
        decreases token@.len() - j,
    {
        let c = token[j];
        proof {
            assert(core[j - z] == c);
            assert(is_digit(core[j - z]));
            assert(core.take(j - z + 1).drop_last() =~= core.take(j - z));
            assert(core.take(j - z + 1).last() == c);
            lemma_digits_value_bounds(core.take(j - z));
            assert(core.take(j - z).len() <= 9);
            lemma_pow10_vals();
            lemma_pow10_mono(core.take(j - z).len(), 9);
        }
        acc = acc * 10 + ((c - 48) as u64);
        j = j + 1;
    }
    proof {
        assert(core.take(core.len() as int) =~= core);
        assert(acc == digits_value(core));
        assert(acc == digits_value(body));
    }
    if negative {
        if acc > 0x80000000 {
            return Err(MessageError::InvalidNumber);
        }
        let wide: i64 = -(acc as i64);
        proof {
            assert(s[0] == 45);
        }
        Ok(wide as i32)
    } else {
        if acc > 0x7fffffff {
            return Err(MessageError::InvalidNumber);
        }
        proof {
            if s.len() >= 1 && s[0] == 45 {
                assert(false);
            }
        }
        Ok(acc as i32)
    }
}

proof fn lemma_pow10_mono(a: nat, b: nat)
    requires
        a <= b,
    ensures
        pow10(a) <= pow10(b),
    decreases b,
{
    if a < b {
        lemma_pow10_mono(a, (b - 1) as nat);
        assert(pow10((b - 1) as nat) >= 1) by {
            lemma_pow10_pos((b - 1) as nat);
        }
    }
}

proof fn lemma_pow10_pos(n: nat)
    ensures
        pow10(n) >= 1,
    decreases n,
{
    if n > 0 {
        lemma_pow10_pos((n - 1) as nat);
    }
}

/// Splits the bytes into whitespace-separated tokens.
fn tokenize(bytes: &Vec<u8>) -> (r: Vec<Vec<u8>>)
    ensures
        r.deep_view() == spec_tokens(bytes@),
{
    let mut out: Vec<Vec<u8>> = Vec::new();
    let mut pos: usize = 0;
    proof {
        assert(bytes@.skip(0) =~= bytes@);
        assert(out.deep_view() + spec_tokens(bytes@.skip(0)) =~= spec_tokens(bytes@));
    }
    while pos < bytes.len()
        invariant
            pos <= bytes@.len(),
            out.deep_view() + spec_tokens(bytes@.skip(pos as int)) == spec_tokens(bytes@),
        decreases bytes@.len() - pos,
    {
        let c = bytes[pos];
        if c == 32 || c == 9 || c == 10 || c == 13 {
            proof {
                assert(bytes@.skip(pos as int)[0] == c);
                assert(bytes@.skip(pos as int).drop_first() =~= bytes@.skip(pos as int + 1));
                assert(out.deep_view() + spec_tokens(bytes@.skip(pos + 1)) =~= spec_tokens(
                    bytes@,
                ));
            }
            pos = pos + 1;
        } else {
            let ghost rest = bytes@.skip(pos as int);
            let ghost tok = spec_token_prefix(rest);
            let mut token: Vec<u8> = Vec::new();
            let start = pos;
            proof {
                assert(rest[0] == c);
                assert(!is_space(rest[0]));
                lemma_token_prefix_shape(rest);
                assert(token@ =~= tok.take(0));
            }
            while pos < bytes.len() && !(bytes[pos] == 32 || bytes[pos] == 9 || bytes[pos] == 10
                || bytes[pos] == 13)
                invariant
                    start <= pos <= bytes@.len(),
                    rest == bytes@.skip(start as int),
                    tok == spec_token_prefix(rest),
                    pos - start <= tok.len(),
                    token@ == tok.take(pos - start),
                    pos - start < tok.len() || pos == bytes@.len() || is_space(
                        bytes@[pos as int],
                    ),
                    tok.len() == pos - start ==> (pos == bytes@.len() || is_space(
                        bytes@[pos as int],
                    )),
                decreases bytes@.len() - pos,
            {
                proof {
                    lemma_token_prefix_shape(rest);
                    assert(rest[pos - start] == bytes@[pos as int]);
                    if pos - start >= tok.len() {
                        assert(tok.len() == pos - start);
                        assert(false);
                    }
                    assert(tok[pos - start] == rest[pos - start]);
                }
                token.push(bytes[pos]);
                pos = pos + 1;
                proof {
                    assert(token@ =~= tok.take(pos - start));
                    lemma_token_prefix_shape(rest);
                    if pos - start < tok.len() {
                    } else {
                        assert(tok.len() >= pos - start);
                    }
                }
            }
            proof {
                lemma_token_prefix_shape(rest);
                if (pos - start) < tok.len() {
                    assert(tok[pos - start] == rest[pos - start]);
                    assert(!is_space(rest[pos - start]));
                    assert(rest[pos - start] == bytes@[pos as int]);
                    assert(false);
                }
                assert(token@ =~= tok);
                assert(spec_tokens(rest) == seq![tok] + spec_tokens(rest.skip(tok.len() as int)));
                assert(rest.skip(tok.len() as int) =~= bytes@.skip(pos as int));
            }
            let ghost prev_out = out.deep_view();
            out.push(token);
            proof {
                assert(out.deep_view() =~~= prev_out.push(tok));
                assert(out.deep_view() + spec_tokens(bytes@.skip(pos as int)) =~= spec_tokens(
                    bytes@,
                ));
            }
        }
    }
    proof {
        assert(spec_tokens(bytes@.skip(bytes@.len() as int)) =~= Seq::<Seq<u8>>::empty());
        assert(out.deep_view() =~= spec_tokens(bytes@));
    }
    out
}

/// The token prefix mirrors the bytes until the first space: it is the
/// longest all-non-space prefix.
proof fn lemma_token_prefix_shape(s: Seq<u8>)
    ensures
        spec_token_prefix(s).len() <= s.len(),
        forall|i: int|
            0 <= i < spec_token_prefix(s).len() ==> #[trigger] spec_token_prefix(s)[i] == s[i]
                && !is_space(s[i]),
        spec_token_prefix(s).len() < s.len() ==> is_space(s[spec_token_prefix(s).len() as int]),
    decreases s.len(),
{
    if s.len() == 0 || is_space(s[0]) {
    } else {
        lemma_token_prefix_shape(s.drop_first());
        let t = spec_token_prefix(s);
        let t2 = spec_token_prefix(s.drop_first());
        assert forall|i: int| 0 <= i < t.len() implies #[trigger] t[i] == s[i] && !is_space(
            s[i],
        ) by {
            if i > 0 {
                assert(t[i] == t2[i - 1]);
                assert(s.drop_first()[i - 1] == s[i]);
            }
        }
        if t.len() < s.len() {
            assert(s.drop_first()[t2.len() as int] == s[t.len() as int]);
        }
    }
}

/// Whether the line is a well-formed put command: it starts with
/// `put` and holds exactly the word and two decimals.
pub open spec fn spec_put_ok(bytes: Seq<u8>) -> bool {
    &&& bytes.len() >= 3
    &&& bytes[0] == 112
    &&& bytes[1] == 117
    &&& bytes[2] == 116
    &&& spec_tokens(bytes).len() == 3
    &&& spec_is_i32(spec_tokens(bytes)[1])
    &&& spec_is_i32(spec_tokens(bytes)[2])
}

/// Whether the line is a well-formed get command: it starts with
/// `get` and holds exactly the word and one decimal.
pub open spec fn spec_get_ok(bytes: Seq<u8>) -> bool {
    &&& bytes.len() >= 3
    &&& bytes[0] == 103
    &&& bytes[1] == 101
    &&& bytes[2] == 116
    &&& spec_tokens(bytes).len() == 2
    &&& spec_is_i32(spec_tokens(bytes)[1])
}

/// Parses one client line into a command. A put line yields the key
/// and the value number's little-endian bytes; a get line yields the
/// key; anything else is rejected.
pub fn construct_message(input: &str) -> (r: Result<KvMessage, MessageError>)
    ensures
        spec_put_ok(input.spec_bytes()) ==> (r matches Ok(m) && m matches KvMessage::PutRequest(p)
            && p.key == spec_i32_value(spec_tokens(input.spec_bytes())[1]) && p.value@
            == spec_u32_to_le_bytes(spec_i32_value(spec_tokens(input.spec_bytes())[2]) as u32)),
        spec_get_ok(input.spec_bytes()) ==> (r matches Ok(m) && m matches KvMessage::GetRequest(g)
            && g.key == spec_i32_value(spec_tokens(input.spec_bytes())[1])),
        !spec_put_ok(input.spec_bytes()) && !spec_get_ok(input.spec_bytes()) ==> r is Err,
{
    let bytes = input.as_bytes_vec();
    let args = tokenize(&bytes);
    let ghost toks = spec_tokens(input.spec_bytes());
    proof {
        assert(args.deep_view() == toks);
        assert(forall|i: int|
            0 <= i < args@.len() ==> args.deep_view()[i] == (#[trigger] args@[i])@);
    }
    let is_put = bytes.len() >= 3 && bytes[0] == 112 && bytes[1] == 117 && bytes[2] == 116;
    let is_get = bytes.len() >= 3 && bytes[0] == 103 && bytes[1] == 101 && bytes[2] == 116;
    if is_put {
        if args.len() != 3 {
            return Err(MessageError::InvalidPutUsage);
        }
        proof {
            assert(args@[1]@ == toks[1]);
            assert(args@[2]@ == toks[2]);
        }
        let key = match parse_i32(&args[1]) {
            Ok(k) => k,
            Err(_e) => {
                proof {
                    assert(!spec_is_i32(toks[1]));
                }
                return Err(MessageError::InvalidNumber);
            },
        };
        let val = match parse_i32(&args[2]) {
            Ok(v) => v,
            Err(_e) => {
                proof {
                    assert(!spec_is_i32(toks[2]));
                }
                return Err(MessageError::InvalidNumber);
            },
        };
        let value = u32_to_le_bytes(val as u32);
        proof {
            assert(val == spec_i32_value(toks[2]));
            assert(val as u32 == spec_i32_value(toks[2]) as u32);
        }
        Ok(KvMessage::PutRequest(PutRequestData { key, value }))
    } else if is_get {
        if args.len() != 2 {
            return Err(MessageError::InvalidGetUsage);
        }
        proof {
            assert(args@[1]@ == toks[1]);
        }
        let key = match parse_i32(&args[1]) {
            Ok(k) => k,
            Err(_e) => {
                proof {
                    assert(!spec_is_i32(toks[1]));
                }
                return Err(MessageError::InvalidNumber);
            },
        };
        Ok(KvMessage::GetRequest(GetRequestData { key }))
    } else {
        Err(MessageError::NotAGetOrPut)
    }
}

/// Turns a four-byte vector into a fixed array; other lengths are
/// rejected.
pub fn byte_vec_to_4_byte_arr(x: Vec<u8>) -> (r: Result<[u8; 4], MessageError>)
    ensures
        r is Ok <==> x@.len() == 4,
        r matches Ok(a) ==> a@ == x@,
{
    if x.len() != 4 {
        return Err(MessageError::InvalidNumber);
    }
    let a: [u8; 4] = [x[0], x[1], x[2], x[3]];
    proof {
        assert(a@ =~= x@);
    }
    Ok(a)
}

/// Reads a little-endian `i32` from a four-byte vector.
pub fn byte_vec_to_int(x: Vec<u8>) -> (r: Result<i32, MessageError>)
    ensures
        r is Ok <==> x@.len() == 4,
        r matches Ok(v) ==> v as u32 == vstd::bytes::spec_u32_from_le_bytes(x@),
{
    let ghost bs = x@;
    let arr = match byte_vec_to_4_byte_arr(x) {
        Ok(a) => a,
        Err(e) => {
            return Err(e);
        },
    };
    let slice: &[u8] = arr.as_slice();
    proof {
        assert(slice@ =~= bs);
    }
    let v = u32_from_le_bytes(slice);
    proof {
        assert(((v as i32) as u32) == v) by (bit_vector);
    }
    Ok(v as i32)
}

} // verus!
