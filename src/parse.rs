//! Parsing of CHATHISTORY arguments: numbers, message references and
//! subcommand names.
use vstd::prelude::*;
use crate::text::{bytes_eq, copy_bytes, push_all};

verus! {

pub open spec fn is_digit(b: u8) -> bool {
    48 <= b <= 57
}

pub open spec fn all_digits(s: Seq<u8>) -> bool {
    forall|i: int| 0 <= i < s.len() ==> is_digit(#[trigger] s[i])
}

/// The number that a string of decimal digits spells.
pub open spec fn digits_value(s: Seq<u8>) -> int
    decreases s.len(),
{
    if s.len() == 0 {
        0
    } else {
        digits_value(s.drop_last()) * 10 + (s.last() - 48)
    }
}

/// The value of a non-empty string of digits, if it fits in a `u64`.
pub open spec fn u64_value(s: Seq<u8>) -> Option<int> {
    if s.len() > 0 && all_digits(s) && digits_value(s) <= u64::MAX {
        Some(digits_value(s))
    } else {
        None
    }
}

/// A limit: an optional `+` and decimal digits, fitting in a `usize`.
pub open spec fn limit_value(s: Seq<u8>) -> Option<int> {
    let d = if s.len() > 0 && s[0] == 43 { s.drop_first() } else { s };
    match u64_value(d) {
        Some(v) => if v <= usize::MAX { Some(v) } else { None },
        None => None,
    }
}

/// A timestamp: an optional `-` and decimal digits, fitting in an `i64`.
pub open spec fn timestamp_value(s: Seq<u8>) -> Option<int> {
    if s.len() > 0 && s[0] == 45 {
        match u64_value(s.drop_first()) {
            Some(v) => if v <= 0x8000_0000_0000_0000 { Some(-v) } else { None },
            None => None,
        }
    } else {
        match u64_value(s) {
            Some(v) => if v <= i64::MAX { Some(v) } else { None },
            None => None,
        }
    }
}

proof fn lemma_digits_monotone(s: Seq<u8>, i: int)
    requires
        all_digits(s),
        0 <= i <= s.len(),
    ensures
        digits_value(s) >= digits_value(s.take(i)),
        digits_value(s.take(i)) >= 0,
    decreases s.len(),
{
    if i == s.len() {
        assert(s.take(i) =~= s);
        if s.len() > 0 {
            lemma_digits_monotone(s.drop_last(), i - 1);
        }
    } else {
        let t = s.drop_last();
        assert(all_digits(t));
        lemma_digits_monotone(t, i);
        assert(t.take(i) =~= s.take(i));
        lemma_digits_monotone(t, t.len() as int);
        assert(t.take(t.len() as int) =~= t);
    }
}

/// Parses a non-empty string of digits into a `u64`.
pub fn parse_u64(s: &[u8]) -> (r: Option<u64>)
    ensures
        r matches Some(v) ==> u64_value(s@) == Some(v as int),
        r is None ==> u64_value(s@) is None,
{
    if s.len() == 0 {
        return None;
    }
    let mut acc: u64 = 0;
    let mut i: usize = 0;
    while i < s.len()
        invariant
            i <= s@.len(),
            all_digits(s@.take(i as int)),
            acc as int == digits_value(s@.take(i as int)),
        decreases s@.len() - i,
    {
        let b = s[i];
        if b < 48 || b > 57 {
            assert(!is_digit(s@[i as int]));
            return None;
        }
        let d = (b - 48) as u64;
        proof {
            assert(s@.take(i + 1).drop_last() =~= s@.take(i as int));
            assert(all_digits(s@.take(i + 1)));
        }
        if acc > (u64::MAX - d) / 10 {
            proof {
                assert(digits_value(s@.take(i + 1)) == acc * 10 + d);
                assert(acc * 10 + d > u64::MAX) by (nonlinear_arith)
                    requires
                        acc > (u64::MAX - d) / 10,
                        0 <= d <= 9,
                ;
                if all_digits(s@) {
                    lemma_digits_monotone(s@, i + 1);
                }
            }
            return None;
        }
        proof {
            assert(acc * 10 + d <= u64::MAX) by (nonlinear_arith)
                requires
                    acc <= (u64::MAX - d) / 10,
                    0 <= d <= 9,
            ;
        }
        acc = acc * 10 + d;
        i = i + 1;
    }
    assert(s@.take(s@.len() as int) =~= s@);
    Some(acc)
}

/// Parses a limit.
pub fn parse_limit(s: &[u8]) -> (r: Option<usize>)
    ensures
        r matches Some(v) ==> limit_value(s@) == Some(v as int),
        r is None ==> limit_value(s@) is None,
{
    let parsed = if s.len() > 0 && s[0] == 43 {
        let rest = sub_bytes(s, 1, s.len());
        assert(rest@ =~= s@.drop_first());
        parse_u64(rest.as_slice())
    } else {
        parse_u64(s)
    };
    match parsed {
        Some(v) => if v <= usize::MAX as u64 {
            Some(v as usize)
        } else {
            None
        },
        None => None,
    }
}

/// Parses a timestamp.
pub fn parse_timestamp(s: &[u8]) -> (r: Option<i64>)
    ensures
        r matches Some(v) ==> timestamp_value(s@) == Some(v as int),
        r is None ==> timestamp_value(s@) is None,
{
    if s.len() > 0 && s[0] == 45 {
        let rest = sub_bytes(s, 1, s.len());
        assert(rest@ =~= s@.drop_first());
        match parse_u64(rest.as_slice()) {
            Some(v) => if v < 0x8000_0000_0000_0000u64 {
                Some(-(v as i64))
            } else if v == 0x8000_0000_0000_0000u64 {
                Some(i64::MIN)
            } else {
                None
            },
            None => None,
        }
    } else {
        match parse_u64(s) {
            Some(v) => if v <= i64::MAX as u64 {
                Some(v as i64)
            } else {
                None
            },
            None => None,
        }
    }
}

/// The bytes of `s` from `a` to `b`.
pub fn sub_bytes(s: &[u8], a: usize, b: usize) -> (r: Vec<u8>)
    requires
        a <= b <= s@.len(),
    ensures
        r@ == s@.subrange(a as int, b as int),
{
    let mut r: Vec<u8> = Vec::new();
    let mut i: usize = a;
    while i < b
        invariant
            a <= i <= b,
            b <= s@.len(),
            r@ == s@.subrange(a as int, i as int),
        decreases b - i,
    {
        r.push(s[i]);
        i = i + 1;
        assert(r@ =~= s@.subrange(a as int, i as int));
    }
    r
}

/// The first index at or after `i` that holds `b`, or the length.
pub open spec fn find_from(s: Seq<u8>, b: u8, i: int) -> int
    decreases s.len() - i,
{
    if i >= s.len() {
        s.len() as int
    } else if s[i] == b {
        i
    } else {
        find_from(s, b, i + 1)
    }
}

/// The first index that holds `b`, or the length.
pub fn find_byte(s: &[u8], b: u8) -> (r: usize)
    ensures
        r as int == find_from(s@, b, 0),
{
    let mut i: usize = 0;
    while i < s.len()
        invariant
            i <= s@.len(),
            find_from(s@, b, 0) == find_from(s@, b, i as int),
        decreases s@.len() - i,
    {
        if s[i] == b {
            return i;
        }
        i = i + 1;
    }
    i
}

/// ASCII upper case of one byte.
pub open spec fn upper_byte(b: u8) -> u8 {
    if 97 <= b <= 122 {
        (b - 32) as u8
    } else {
        b
    }
}

pub open spec fn upper(s: Seq<u8>) -> Seq<u8> {
    s.map_values(|b: u8| upper_byte(b))
}

/// Does `s`, in ASCII upper case, equal `word`?
pub fn is_word_upper(s: &[u8], word: &[u8]) -> (r: bool)
    ensures
        r == (upper(s@) == word@),
{
    if s.len() != word.len() {
        assert(upper(s@).len() != word@.len());
        return false;
    }
    let mut i: usize = 0;
    while i < s.len()
        invariant
            s@.len() == word@.len(),
            i <= s@.len(),
            forall|j: int| 0 <= j < i ==> upper_byte(s@[j]) == word@[j],
        decreases s@.len() - i,
    {
        let c = s[i];
        let u = if 97 <= c && c <= 122 { c - 32 } else { c };
        if u != word[i] {
            assert(upper(s@)[i as int] != word@[i as int]);
            return false;
        }
        i = i + 1;
    }
    assert(upper(s@) =~= word@);
    true
}

pub open spec fn word_timestamp() -> Seq<u8> {
    seq![116u8, 105, 109, 101, 115, 116, 97, 109, 112]
}

/// Why a request was refused.
#[derive(Clone, Copy, Debug, PartialEq, Eq, Structural)]
pub enum FailCode {
    InvalidParams,
    InvalidMsgrefType,
    InvalidTarget,
}

/// A refusal to send to the client: the code, its context and a description
/// for people.
#[derive(Debug)]
pub struct HistoryFail {
    pub code: FailCode,
    pub context: Vec<u8>,
    pub description: Vec<u8>,
}

/// The context of a refused message reference: the subcommand, and the target
/// after a space where there is one.
pub open spec fn msgref_context(sub: Seq<u8>, target: Option<Seq<u8>>) -> Seq<u8> {
    match target {
        Some(t) => sub + seq![32u8] + t,
        None => sub,
    }
}

/// The text "Invalid timestamp".
pub open spec fn text_invalid_timestamp() -> Seq<u8> {
    seq![73u8, 110, 118, 97, 108, 105, 100, 32, 116, 105, 109, 101, 115, 116, 97, 109, 112]
}

/// The text "msgid-based history requests are not supported yet".
pub open spec fn text_msgid_unsupported() -> Seq<u8> {
    seq![109u8, 115, 103, 105, 100, 45, 98, 97, 115, 101, 100, 32, 104, 105, 115, 116, 111, 114, 121, 32, 114, 101, 113, 117, 101, 115, 116, 115, 32, 97, 114, 101, 32, 110, 111, 116, 32, 115, 117, 112, 112, 111, 114, 116, 101, 100, 32, 121, 101, 116]
}

/// The text " is not a valid message reference".
pub open spec fn text_not_a_reference() -> Seq<u8> {
    seq![32u8, 105, 115, 32, 110, 111, 116, 32, 97, 32, 118, 97, 108, 105, 100, 32, 109, 101, 115, 115, 97, 103, 101, 32, 114, 101, 102, 101, 114, 101, 110, 99, 101]
}

/// The text "Invalid limit".
pub open spec fn text_invalid_limit() -> Seq<u8> {
    seq![73u8, 110, 118, 97, 108, 105, 100, 32, 108, 105, 109, 105, 116]
}

/// The text "Invalid subcommand".
pub open spec fn text_invalid_subcommand() -> Seq<u8> {
    seq![73u8, 110, 118, 97, 108, 105, 100, 32, 115, 117, 98, 99, 111, 109, 109, 97, 110, 100]
}

/// The text "Cannot fetch history from ".
pub open spec fn text_cannot_fetch() -> Seq<u8> {
    seq![67u8, 97, 110, 110, 111, 116, 32, 102, 101, 116, 99, 104, 32, 104, 105, 115, 116, 111, 114, 121, 32, 102, 114, 111, 109, 32]
}

/// A new vector holding `text_invalid_timestamp()`.
pub fn make_text_invalid_timestamp() -> (r: Vec<u8>)
    ensures
        r@ == text_invalid_timestamp(),
{
    let d: [u8; 17] = [73, 110, 118, 97, 108, 105, 100, 32, 116, 105, 109, 101, 115, 116, 97, 109, 112];
    assert(d@ =~= text_invalid_timestamp());
    copy_bytes(d.as_slice())
}

/// A new vector holding `text_msgid_unsupported()`.
pub fn make_text_msgid_unsupported() -> (r: Vec<u8>)
    ensures
        r@ == text_msgid_unsupported(),
{
    let d: [u8; 50] = [109, 115, 103, 105, 100, 45, 98, 97, 115, 101, 100, 32, 104, 105, 115, 116, 111, 114, 121, 32, 114, 101, 113, 117, 101, 115, 116, 115, 32, 97, 114, 101, 32, 110, 111, 116, 32, 115, 117, 112, 112, 111, 114, 116, 101, 100, 32, 121, 101, 116];
    assert(d@ =~= text_msgid_unsupported());
    copy_bytes(d.as_slice())
}

/// A new vector holding `text_not_a_reference()`.
pub fn make_text_not_a_reference() -> (r: Vec<u8>)
    ensures
        r@ == text_not_a_reference(),
{
    let d: [u8; 33] = [32, 105, 115, 32, 110, 111, 116, 32, 97, 32, 118, 97, 108, 105, 100, 32, 109, 101, 115, 115, 97, 103, 101, 32, 114, 101, 102, 101, 114, 101, 110, 99, 101];
    assert(d@ =~= text_not_a_reference());
    copy_bytes(d.as_slice())
}

/// A new vector holding `text_invalid_limit()`.
pub fn make_text_invalid_limit() -> (r: Vec<u8>)
    ensures
        r@ == text_invalid_limit(),
{
    let d: [u8; 13] = [73, 110, 118, 97, 108, 105, 100, 32, 108, 105, 109, 105, 116];
    assert(d@ =~= text_invalid_limit());
    copy_bytes(d.as_slice())
}

/// A new vector holding `text_invalid_subcommand()`.
pub fn make_text_invalid_subcommand() -> (r: Vec<u8>)
    ensures
        r@ == text_invalid_subcommand(),
{
    let d: [u8; 18] = [73, 110, 118, 97, 108, 105, 100, 32, 115, 117, 98, 99, 111, 109, 109, 97, 110, 100];
    assert(d@ =~= text_invalid_subcommand());
    copy_bytes(d.as_slice())
}

/// A new vector holding `text_cannot_fetch()`.
pub fn make_text_cannot_fetch() -> (r: Vec<u8>)
    ensures
        r@ == text_cannot_fetch(),
{
    let d: [u8; 26] = [67, 97, 110, 110, 111, 116, 32, 102, 101, 116, 99, 104, 32, 104, 105, 115, 116, 111, 114, 121, 32, 102, 114, 111, 109, 32];
    assert(d@ =~= text_cannot_fetch());
    copy_bytes(d.as_slice())
}

/// A hexadecimal digit, lower case.
pub open spec fn hex_digit(v: u8) -> u8 {
    if v < 10 {
        (48 + v) as u8
    } else {
        (87 + v) as u8
    }
}

/// How one byte appears inside a quoted string: quote, backslash, newline,
/// return, tab and NUL by a backslash escape, other control bytes as
/// `\u{..}` in hexadecimal, the rest as they are.
pub open spec fn escape_byte(b: u8) -> Seq<u8> {
    if b == 34 {
        seq![92u8, 34]
    } else if b == 92 {
        seq![92u8, 92]
    } else if b == 10 {
        seq![92u8, 110]
    } else if b == 13 {
        seq![92u8, 114]
    } else if b == 9 {
        seq![92u8, 116]
    } else if b == 0 {
        seq![92u8, 48]
    } else if b < 32 || b == 127 {
        seq![92u8, 117, 123] + (if b < 16 { seq![hex_digit(b)] } else { seq![hex_digit(b / 16), hex_digit(b % 16)] })
            + seq![125u8]
    } else {
        seq![b]
    }
}

/// The bytes of `s`, each escaped.
pub open spec fn escaped(s: Seq<u8>) -> Seq<u8>
    decreases s.len(),
{
    if s.len() == 0 {
        Seq::empty()
    } else {
        escaped(s.drop_last()) + escape_byte(s.last())
    }
}

/// `s` between double quotes, escaped.
pub open spec fn quoted(s: Seq<u8>) -> Seq<u8> {
    seq![34u8] + escaped(s) + seq![34u8]
}

fn hex_digit_exec(v: u8) -> (r: u8)
    requires
        v < 16,
    ensures
        r == hex_digit(v),
{
    if v < 10 {
        48 + v
    } else {
        87 + v
    }
}

/// Appends `s`, quoted and escaped.
pub fn push_quoted(out: &mut Vec<u8>, s: &[u8])
    ensures
        final(out)@ == old(out)@ + quoted(s@),
{
    let ghost start = old(out)@;
    out.push(34);
    let mut i: usize = 0;
    while i < s.len()
        invariant
            i <= s@.len(),
            start == old(out)@,
            out@ == start + seq![34u8] + escaped(s@.take(i as int)),
        decreases s@.len() - i,
    {
        let b = s[i];
        let ghost before = out@;
        if b == 34 {
            out.push(92);
            out.push(34);
        } else if b == 92 {
            out.push(92);
            out.push(92);
        } else if b == 10 {
            out.push(92);
            out.push(110);
        } else if b == 13 {
            out.push(92);
            out.push(114);
        } else if b == 9 {
            out.push(92);
            out.push(116);
        } else if b == 0 {
            out.push(92);
            out.push(48);
        } else if b < 32 || b == 127 {
            out.push(92);
            out.push(117);
            out.push(123);
            if b >= 16 {
                out.push(hex_digit_exec(b / 16));
            }
            out.push(hex_digit_exec(b % 16));
            out.push(125);
        } else {
            out.push(b);
        }
        assert(out@ =~= before + escape_byte(b));
        assert(s@.take(i + 1).drop_last() =~= s@.take(i as int));
        i = i + 1;
        assert(out@ =~= start + seq![34u8] + escaped(s@.take(i as int)));
    }
    assert(s@.take(s@.len() as int) =~= s@);
    out.push(34);
    assert(final(out)@ =~= old(out)@ + quoted(s@));
}

pub open spec fn word_msgid() -> Seq<u8> {
    seq![109u8, 115, 103, 105, 100]
}

/// What `parse_msgref` makes of `msgref`, as a value or as the code, context
/// and description of a refusal. The part before the first `=` decides:
/// `timestamp` gives the timestamp after it, refused with `InvalidParams`
/// where that is no timestamp; `msgid` is refused as not supported; anything
/// else, `=` or not, is refused as no valid reference.
pub open spec fn msgref_outcome(sub: Seq<u8>, target: Option<Seq<u8>>, m: Seq<u8>) -> Result<int, (FailCode, Seq<u8>, Seq<u8>)> {
    let k = find_from(m, 61, 0);
    if k < m.len() && m.take(k) == word_timestamp() {
        match timestamp_value(m.skip(k + 1)) {
            Some(t) => Ok(t),
            None => Err((FailCode::InvalidParams, sub, text_invalid_timestamp())),
        }
    } else if k < m.len() && m.take(k) == word_msgid() {
        Err((FailCode::InvalidMsgrefType, msgref_context(sub, target), text_msgid_unsupported()))
    } else {
        Err((FailCode::InvalidMsgrefType, msgref_context(sub, target), quoted(m) + text_not_a_reference()))
    }
}

/// Reads a message reference of a CHATHISTORY request.
pub fn parse_msgref(subcommand: &[u8], target: Option<&[u8]>, msgref: &[u8]) -> (r: Result<i64, HistoryFail>)
    ensures
        match (r, msgref_outcome(subcommand@, match target { Some(t) => Some(t@), None => None }, msgref@)) {
            (Ok(t), Ok(v)) => t as int == v,
            (Err(f), Err((code, ctx, d))) => f.code == code && f.context@ == ctx && f.description@ == d,
            _ => false,
        },
{
    let k = find_byte(msgref, 61);
    let ghost tv = match target { Some(t) => Some(t@), None => None::<Seq<u8>> };
    let mut is_msgid = false;
    if k < msgref.len() {
        let key = sub_bytes(msgref, 0, k);
        let value = sub_bytes(msgref, k + 1, msgref.len());
        assert(key@ =~= msgref@.take(k as int));
        assert(value@ =~= msgref@.skip(k + 1));
        let w: [u8; 9] = [116, 105, 109, 101, 115, 116, 97, 109, 112];
        assert(w@ =~= word_timestamp());
        if bytes_eq(key.as_slice(), w.as_slice()) {
            return match parse_timestamp(value.as_slice()) {
                Some(t) => Ok(t),
                None => Err(
                    HistoryFail {
                        code: FailCode::InvalidParams,
                        context: copy_bytes(subcommand),
                        description: make_text_invalid_timestamp(),
                    },
                ),
            };
        }
        let w2: [u8; 5] = [109, 115, 103, 105, 100];
        assert(w2@ =~= word_msgid());
        is_msgid = bytes_eq(key.as_slice(), w2.as_slice());
    }
    let mut context = copy_bytes(subcommand);
    match target {
        Some(t) => {
            context.push(32);
            push_all(&mut context, t);
        },
        None => {},
    }
    assert(context@ =~= msgref_context(subcommand@, tv));
    if is_msgid {
        return Err(HistoryFail { code: FailCode::InvalidMsgrefType, context, description: make_text_msgid_unsupported() });
    }
    let mut description: Vec<u8> = Vec::new();
    push_quoted(&mut description, msgref);
    let tail = make_text_not_a_reference();
    push_all(&mut description, tail.as_slice());
    assert(description@ =~= quoted(msgref@) + text_not_a_reference());
    Err(HistoryFail { code: FailCode::InvalidMsgrefType, context, description })
}

} // verus!
