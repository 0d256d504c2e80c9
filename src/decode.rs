//! Decoding of a history file's bytes into ordered text lines, under one of a
//! small closed set of strategies.

use vstd::prelude::*;
use vstd::utf8::{
    decode_first_scalar, decode_utf8, decode_utf8_encode_utf8, encode_utf8, pop_first_scalar,
    valid_utf8, valid_utf8_concat,
};
use crate::text::{
    char_views, chars_of, same_chars, split_chars, split_on, string_of, string_views,
};

verus! {

/// The byte that marks the next byte as meta-quoted (stored XOR 32).
pub const META: u8 = 0x83;

/// How the bytes of a history file become text.
#[derive(Clone, Copy, Debug, PartialEq, Eq, Structural)]
pub enum DecodeStrategy {
    /// Undo meta-quoting (see [`unmetafy`]), then read UTF-8, replacing
    /// invalid sequences.
    MetaUnescape,
    /// Read each byte as the Latin-1 character of the same code.
    SingleByte,
    /// Read strict UTF-8; invalid bytes are an error.
    Utf8,
}

/// The strategy that a configuration value names: `meta`, `latin1` or `utf8`.
pub open spec fn strategy_named(name: Seq<char>) -> Option<DecodeStrategy> {
    if name == "meta"@ {
        Some(DecodeStrategy::MetaUnescape)
    } else if name == "latin1"@ {
        Some(DecodeStrategy::SingleByte)
    } else if name == "utf8"@ {
        Some(DecodeStrategy::Utf8)
    } else {
        None
    }
}

impl DecodeStrategy {
    /// The strategy that `name` names, if any (see [`strategy_named`]).
    pub fn from_name(name: &str) -> (r: Option<DecodeStrategy>)
        ensures
            r == strategy_named(name@),
    {
        let n = chars_of(name);
        if same_chars(&n, &chars_of("meta")) {
            Some(DecodeStrategy::MetaUnescape)
        } else if same_chars(&n, &chars_of("latin1")) {
            Some(DecodeStrategy::SingleByte)
        } else if same_chars(&n, &chars_of("utf8")) {
            Some(DecodeStrategy::Utf8)
        } else {
            None
        }
    }
}

/// Why a history file could not be decoded.
#[derive(Clone, Copy, Debug, PartialEq, Eq, Structural)]
pub enum DecodeError {
    /// The bytes are not valid UTF-8 under the strict strategy.
    InvalidUtf8,
}

/// The bytes after meta-quoting is undone. Each `META` byte is removed and the
/// byte now in its place is XORed with 32. The bytes are handled from the end
/// backward, so each `META` byte acts on what is left after it. A `META` byte
/// at the very end has nothing to act on and is dropped.
pub open spec fn unmeta(b: Seq<u8>) -> Seq<u8>
    decreases b.len(),
{
    if b.len() == 0 {
        b
    } else {
        let rest = unmeta(b.drop_first());
        if b[0] == META {
            if rest.len() == 0 {
                rest
            } else {
                rest.update(0, rest[0] ^ 32u8)
            }
        } else {
            seq![b[0]] + rest
        }
    }
}

/// The Latin-1 reading of `b`: each byte is the character of the same code.
pub open spec fn latin1(b: Seq<u8>) -> Seq<char> {
    b.map_values(|x: u8| x as char)
}

/// What `String::from_utf8_lossy` makes of the given bytes.
pub uninterp spec fn lossy_utf8(b: Seq<u8>) -> Seq<char>;

/// The line without one trailing carriage return.
pub open spec fn strip_cr(l: Seq<char>) -> Seq<char> {
    if l.len() > 0 && l.last() == '\r' {
        l.drop_last()
    } else {
        l
    }
}

/// The lines of `text`: the fields between line feeds, each without a trailing
/// carriage return. A line feed at the very end opens no further line, so an
/// empty text has no lines.
pub open spec fn lines_of(text: Seq<char>) -> Seq<Seq<char>> {
    let p = split_on(text, '\n');
    let q = if p.last().len() == 0 {
        p.drop_last()
    } else {
        p
    };
    q.map_values(|l: Seq<char>| strip_cr(l))
}

/// The text of `b` read as UTF-8: valid UTF-8 is read as it stands, and
/// anything else as `String::from_utf8_lossy` reads it (invalid sequences
/// replaced).
pub open spec fn utf8_text(b: Seq<u8>) -> Seq<char> {
    if valid_utf8(b) {
        decode_utf8(b)
    } else {
        lossy_utf8(b)
    }
}

/// What the decoding of `bytes` under `strategy` gives: the text, or the error.
pub open spec fn decoded_text(bytes: Seq<u8>, strategy: DecodeStrategy) -> Result<
    Seq<char>,
    DecodeError,
> {
    match strategy {
        DecodeStrategy::MetaUnescape => Ok(utf8_text(unmeta(bytes))),
        DecodeStrategy::SingleByte => Ok(latin1(bytes)),
        DecodeStrategy::Utf8 => if valid_utf8(bytes) {
            Ok(decode_utf8(bytes))
        } else {
            Err(DecodeError::InvalidUtf8)
        },
    }
}

/// Relies on `String::from_utf8_lossy`: invalid sequences are replaced, and
/// valid UTF-8 is read as it stands.
#[verifier::external_body]
fn utf8_lossy(b: &Vec<u8>) -> (r: String)
    ensures
        r@ == lossy_utf8(b@),
        valid_utf8(b@) ==> r@ == decode_utf8(b@),
{
    String::from_utf8_lossy(b.as_slice()).into_owned()
}

/// Relies on `String::from_utf8`: it succeeds exactly on valid UTF-8, with the
/// characters that the bytes encode.
#[verifier::external_body]
fn utf8_strict(b: Vec<u8>) -> (r: Option<String>)
    ensures
        r is Some <==> valid_utf8(b@),
        r matches Some(s) ==> s@ == decode_utf8(b@),
{
    String::from_utf8(b).ok()
}

/// Reads each byte as the Latin-1 character of the same code.
pub fn decode_latin1(bytes: &Vec<u8>) -> (r: String)
    ensures
        r@ == latin1(bytes@),
{
    let mut cs: Vec<char> = Vec::new();
    for i in 0..bytes.len()
        invariant
            cs@ == latin1(bytes@.take(i as int)),
    {
        let c = bytes[i] as char;
        cs.push(c);
        assert(cs@ =~= latin1(bytes@.take(i as int + 1)));
    }
    assert(bytes@.take(bytes@.len() as int) =~= bytes@);
    string_of(&cs)
}

/// Turns the bytes of a history file into text under `strategy`.
pub fn decode_text(bytes: Vec<u8>, strategy: DecodeStrategy) -> (r: Result<String, DecodeError>)
    ensures
        match r {
            Ok(s) => decoded_text(bytes@, strategy) == Ok::<Seq<char>, DecodeError>(s@),
            Err(e) => decoded_text(bytes@, strategy) == Err::<Seq<char>, DecodeError>(e),
        },
{
    match strategy {
        DecodeStrategy::MetaUnescape => {
            let plain = unmetafy(bytes);
            Ok(utf8_lossy(&plain))
        },
        DecodeStrategy::SingleByte => Ok(decode_latin1(&bytes)),
        DecodeStrategy::Utf8 => match utf8_strict(bytes) {
            Some(s) => Ok(s),
            None => Err(DecodeError::InvalidUtf8),
        },
    }
}

/// Splits `text` into its lines (see [`lines_of`]).
pub fn split_lines(text: &str) -> (r: Vec<String>)
    ensures
        string_views(r@) == lines_of(text@),
{
    let cs = chars_of(text);
    let parts = split_chars(&cs, '\n');
    proof {
        crate::text::lemma_split_on_nonempty(text@, '\n');
    }
    let ghost p = split_on(text@, '\n');
    let last = parts.len() - 1;
    assert(char_views(parts@)[last as int] == parts@[last as int]@);
    let count = if parts[last].len() == 0 {
        last
    } else {
        parts.len()
    };
    let ghost q = p.take(count as int);
    assert(lines_of(text@) =~= q.map_values(|l: Seq<char>| strip_cr(l)));
    let mut lines: Vec<String> = Vec::new();
    for i in 0..count
        invariant
            count <= parts@.len(),
            char_views(parts@) == p,
            q == p.take(count as int),
            string_views(lines@) == q.take(i as int).map_values(|l: Seq<char>| strip_cr(l)),
    {
        let part = &parts[i];
        assert(part@ == p[i as int]);
        let n = part.len();
        let keep = if n > 0 && part[n - 1] == '\r' {
            n - 1
        } else {
            n
        };
        let mut line: Vec<char> = Vec::new();
        for j in 0..keep
            invariant
                keep <= part@.len(),
                line@ == part@.take(j as int),
        {
            line.push(part[j]);
            assert(line@ =~= part@.take(j as int + 1));
        }
        assert(line@ =~= strip_cr(p[i as int]));
        let ls = string_of(&line);
        let ghost before = string_views(lines@);
        lines.push(ls);
        assert(q[i as int] == p[i as int]);
        assert(string_views(lines@) =~= before.push(strip_cr(q[i as int])));
        assert(string_views(lines@) =~= q.take(i as int + 1).map_values(
            |l: Seq<char>| strip_cr(l),
        ));
    }
    assert(q.take(count as int) =~= q);
    lines
}

/// Decodes a history file's bytes into its lines, oldest first.
pub fn decode_history(bytes: Vec<u8>, strategy: DecodeStrategy) -> (r: Result<
    Vec<String>,
    DecodeError,
>)
    ensures
        match r {
            Ok(lines) => decoded_text(bytes@, strategy) matches Ok(t) && string_views(lines@)
                == lines_of(t),
            Err(e) => decoded_text(bytes@, strategy) == Err::<Seq<char>, DecodeError>(e),
        },
{
    match decode_text(bytes, strategy) {
        Ok(text) => Ok(split_lines(text.as_str())),
        Err(e) => Err(e),
    }
}

/// Undoes meta-quoting (see [`unmeta`]).
pub fn unmetafy(bytes: Vec<u8>) -> (r: Vec<u8>)
    ensures
        r@ == unmeta(bytes@),
{
    let mut buffer = bytes;
    let ghost orig = buffer@;
    let mut index: usize = buffer.len();
    while index > 0
        invariant
            index <= orig.len(),
            buffer@ == orig.take(index as int) + unmeta(orig.skip(index as int)),
        decreases index,
    {
        index = index - 1;
        proof {
            let tail = orig.skip(index as int);
            assert(tail.drop_first() =~= orig.skip(index as int + 1));
            assert(tail[0] == orig[index as int]);
            assert(orig.take(index as int + 1) =~= orig.take(index as int).push(orig[index as int]));
        }
        assert(buffer@[index as int] == orig[index as int]);
        if buffer[index] == META {
            let ghost rest = unmeta(orig.skip(index as int + 1));
            buffer.remove(index);
            assert(buffer@ =~= orig.take(index as int) + rest);
            if index < buffer.len() {
                let x = buffer[index] ^ 32u8;
                buffer.set(index, x);
                assert(buffer@ =~= orig.take(index as int) + rest.update(0, rest[0] ^ 32u8));
            }
        } else {
            assert(buffer@ =~= orig.take(index as int) + (seq![orig[index as int]] + unmeta(
                orig.skip(index as int + 1),
            )));
        }
    }
    assert(orig.skip(0) =~= orig);
    assert(orig.take(0) + unmeta(orig) =~= unmeta(orig));
    buffer
}

/// The number of `META` bytes in `b`.
pub open spec fn sentinel_count(b: Seq<u8>) -> nat
    decreases b.len(),
{
    if b.len() == 0 {
        0
    } else {
        (if b[0] == META {
            1nat
        } else {
            0nat
        }) + sentinel_count(b.drop_first())
    }
}

/// Meta-quoting of `s`: each byte in `quoted` becomes `META` followed by the
/// byte XOR 32; every other byte stands as it is.
pub open spec fn metafy(s: Seq<u8>, quoted: Set<u8>) -> Seq<u8>
    decreases s.len(),
{
    if s.len() == 0 {
        s
    } else {
        let head = if quoted.contains(s[0]) {
            seq![META, s[0] ^ 32u8]
        } else {
            seq![s[0]]
        };
        head + metafy(s.drop_first(), quoted)
    }
}

/// Undoing meta-quoting removes exactly the `META` bytes: every other byte
/// stays, one for one.
pub proof fn lemma_unmeta_len(b: Seq<u8>)
    ensures
        unmeta(b).len() == b.len() - sentinel_count(b),
        sentinel_count(b) <= b.len(),
    decreases b.len(),
{
    if b.len() > 0 {
        lemma_unmeta_len(b.drop_first());
    }
}

/// Bytes without `META` are left as they are.
pub proof fn lemma_unmeta_plain(b: Seq<u8>)
    requires
        !b.contains(META),
    ensures
        unmeta(b) == b,
    decreases b.len(),
{
    if b.len() > 0 {
        let r = b.drop_first();
        assert(!r.contains(META)) by {
            if r.contains(META) {
                let j = choose|j: int| 0 <= j < r.len() && r[j] == META;
                assert(b[j + 1] == META);
            }
        }
        assert(b[0] != META);
        lemma_unmeta_plain(r);
        assert(seq![b[0]] + r =~= b);
    }
}

proof fn lemma_unmeta_keeps_last(b: Seq<u8>)
    requires
        b.len() > 0,
        b.last() != META,
    ensures
        unmeta(b).len() > 0,
    decreases b.len(),
{
    if b.len() > 1 {
        let r = b.drop_first();
        assert(r.last() == b.last());
        lemma_unmeta_keeps_last(r);
    }
}

/// A `META` byte acts only on the byte right after it, so undoing meta-quoting
/// splits over a cut that does not follow a `META` byte.
pub proof fn lemma_unmeta_concat(b1: Seq<u8>, b2: Seq<u8>)
    requires
        b1.len() == 0 || b1.last() != META,
    ensures
        unmeta(b1 + b2) == unmeta(b1) + unmeta(b2),
    decreases b1.len(),
{
    if b1.len() == 0 {
        assert(b1 + b2 =~= b2);
        assert(unmeta(b1) + unmeta(b2) =~= unmeta(b2));
    } else {
        let r1 = b1.drop_first();
        assert((b1 + b2).drop_first() =~= r1 + b2);
        assert((b1 + b2)[0] == b1[0]);
        if r1.len() > 0 {
            assert(r1.last() == b1.last());
        }
        lemma_unmeta_concat(r1, b2);
        let u1 = unmeta(r1);
        let u2 = unmeta(b2);
        if b1[0] == META {
            lemma_unmeta_keeps_last(r1);
            assert((u1 + u2).update(0, (u1 + u2)[0] ^ 32u8) =~= u1.update(0, u1[0] ^ 32u8) + u2);
        } else {
            assert(seq![b1[0]] + (u1 + u2) =~= (seq![b1[0]] + u1) + u2);
        }
    }
}

/// Undoing meta-quoting gives back what was quoted, where `META` is among the
/// quoted bytes and `META ^ 32` is not.
pub proof fn lemma_unmeta_metafy(s: Seq<u8>, quoted: Set<u8>)
    requires
        quoted.contains(META),
        !quoted.contains(0xA3u8),
    ensures
        unmeta(metafy(s, quoted)) == s,
    decreases s.len(),
{
    if s.len() > 0 {
        let x = s[0];
        let t = metafy(s.drop_first(), quoted);
        lemma_unmeta_metafy(s.drop_first(), quoted);
        if quoted.contains(x) {
            let y = x ^ 32u8;
            assert(x != 0xA3u8);
            assert(y != META) by (bit_vector)
                requires
                    y == x ^ 32u8,
                    x != 0xA3u8,
            ;
            assert(y ^ 32u8 == x) by (bit_vector)
                requires
                    y == x ^ 32u8,
            ;
            let m = seq![META, y] + t;
            assert(m.drop_first() =~= seq![y] + t);
            assert((seq![y] + t).drop_first() =~= t);
            assert(unmeta(m.drop_first()) =~= seq![y] + s.drop_first());
            assert(unmeta(m) =~= s);
        } else {
            assert(x != META);
            let m = seq![x] + t;
            assert(m.drop_first() =~= t);
            assert(unmeta(m) =~= s);
        }
    }
}

proof fn lemma_decode_concat(x: Seq<u8>, y: Seq<u8>)
    requires
        valid_utf8(x),
        valid_utf8(y),
    ensures
        valid_utf8(x + y),
        decode_utf8(x + y) == decode_utf8(x) + decode_utf8(y),
    decreases x.len(),
{
    valid_utf8_concat(x, y);
    if x.len() == 0 {
        assert(x + y =~= y);
        assert(decode_utf8(x) + decode_utf8(y) =~= decode_utf8(y));
    } else {
        let r = pop_first_scalar(x);
        assert(r.len() < x.len());
        assert(pop_first_scalar(x + y) =~= r + y);
        assert(decode_first_scalar(x + y) == decode_first_scalar(x));
        lemma_decode_concat(r, y);
        assert(decode_utf8(x + y) =~= decode_utf8(x) + decode_utf8(y));
    }
}

/// Under the meta strategy, bytes without `META` that are valid UTF-8 are read
/// as that UTF-8, whose encoding is the bytes themselves.
pub proof fn lemma_meta_decode_plain(b: Seq<u8>)
    requires
        !b.contains(META),
        valid_utf8(b),
    ensures
        decoded_text(b, DecodeStrategy::MetaUnescape) == Ok::<Seq<char>, DecodeError>(
            decode_utf8(b),
        ),
        encode_utf8(decode_utf8(b)) == b,
{
    lemma_unmeta_plain(b);
    decode_utf8_encode_utf8(b);
}

/// Under the meta strategy, the meta-quoted form of `s` reads as `s` does; where
/// `s` is valid UTF-8 the text encodes back to `s` exactly.
pub proof fn lemma_meta_decode_metafied(s: Seq<u8>, quoted: Set<u8>)
    requires
        quoted.contains(META),
        !quoted.contains(0xA3u8),
    ensures
        decoded_text(metafy(s, quoted), DecodeStrategy::MetaUnescape) == Ok::<
            Seq<char>,
            DecodeError,
        >(utf8_text(s)),
        valid_utf8(s) ==> encode_utf8(utf8_text(s)) == s,
{
    lemma_unmeta_metafy(s, quoted);
    if valid_utf8(s) {
        decode_utf8_encode_utf8(s);
    }
}

/// Under the meta strategy, where the unquoted bytes are valid UTF-8, the text
/// is their UTF-8 reading and its encoding is one byte shorter than the input
/// for each `META` byte.
pub proof fn lemma_meta_decode_len(b: Seq<u8>)
    requires
        valid_utf8(unmeta(b)),
    ensures
        decoded_text(b, DecodeStrategy::MetaUnescape) == Ok::<Seq<char>, DecodeError>(
            decode_utf8(unmeta(b)),
        ),
        encode_utf8(decode_utf8(unmeta(b))).len() == b.len() - sentinel_count(b),
{
    lemma_unmeta_len(b);
    decode_utf8_encode_utf8(unmeta(b));
}

/// Under the meta strategy, decoding splits over a cut that does not follow a
/// `META` byte, where each part unquotes to valid UTF-8.
pub proof fn lemma_meta_decode_concat(b1: Seq<u8>, b2: Seq<u8>)
    requires
        b1.len() == 0 || b1.last() != META,
        valid_utf8(unmeta(b1)),
        valid_utf8(unmeta(b2)),
    ensures
        decoded_text(b1 + b2, DecodeStrategy::MetaUnescape) == Ok::<Seq<char>, DecodeError>(
            utf8_text(unmeta(b1)) + utf8_text(unmeta(b2)),
        ),
{
    lemma_unmeta_concat(b1, b2);
    lemma_decode_concat(unmeta(b1), unmeta(b2));
}

} // verus!
