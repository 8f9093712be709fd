//! The LSP wire format: the length of a message from its header block, and
//! the fields of a message from its JSON body.
use vstd::prelude::*;
use vstd::string::*;
use crate::server::Message;
use crate::text::{chars_of, has_prefix, lines_of, lines_str, starts_with, trim_str, trimmed};

verus! {

/// An ASCII decimal digit.
pub open spec fn is_digit(c: char) -> bool {
    48 <= (c as u32) <= 57
}

/// The value of a string of decimal digits (0 for the empty string).
pub open spec fn digits_value(s: Seq<char>) -> nat
    decreases s.len(),
{
    if s.len() == 0 {
        0
    } else {
        digits_value(s.drop_last()) * 10 + ((s.last() as u32) - 48) as nat
    }
}

/// The text after an optional leading `+`.
pub open spec fn unsigned_digits(s: Seq<char>) -> Seq<char> {
    if s.len() > 0 && s[0] == '+' {
        s.drop_first()
    } else {
        s
    }
}

/// `usize::from_str`: an optional `+`, then at least one decimal digit, with a
/// value that fits in `usize`.
pub open spec fn parse_usize(s: Seq<char>) -> Option<nat> {
    let d = unsigned_digits(s);
    if d.len() > 0 && (forall|i: int| 0 <= i < d.len() ==> is_digit(#[trigger] d[i]))
        && digits_value(d) <= usize::MAX {
        Some(digits_value(d))
    } else {
        None
    }
}

/// The header name that gives a message's length.
pub open spec fn length_header() -> Seq<char> {
    "Content-Length:"@
}

/// The length that header lines give: that of the last line beginning with
/// `Content-Length:`, its rest trimmed and read as a decimal number (0 where
/// it is no number), or 0 where there is no such line.
pub open spec fn last_length(lines: Seq<Seq<char>>) -> nat
    decreases lines.len(),
{
    if lines.len() == 0 {
        0
    } else if starts_with(lines.last(), length_header()) {
        match parse_usize(trimmed(lines.last().skip(length_header().len() as int))) {
            Some(n) => n,
            None => 0,
        }
    } else {
        last_length(lines.drop_last())
    }
}

/// Header lines other than `Content-Length:` never change the announced
/// length; a `Content-Length:` line sets it to its own value, whatever came
/// before.
pub proof fn law_only_length_lines_set_the_length(lines: Seq<Seq<char>>, x: Seq<char>)
    ensures
        !(x.len() >= 15 && x.subrange(0, 15) == "Content-Length:"@) ==> last_length(lines.push(x))
            == last_length(lines),
        (x.len() >= 15 && x.subrange(0, 15) == "Content-Length:"@) ==> last_length(lines.push(x))
            == match parse_usize(trimmed(x.skip(15))) {
            Some(n) => n,
            None => 0,
        },
{
    reveal_strlit("Content-Length:");
    assert(length_header().len() == 15);
    assert(lines.push(x).drop_last() == lines);
    assert(lines.push(x).last() == x);
}

/// The length of the message body that a header block announces.
pub open spec fn header_content_length(headers: Seq<char>) -> nat {
    last_length(lines_of(headers))
}

proof fn lemma_digits_prefix(d: Seq<char>, k: int)
    requires
        0 <= k <= d.len(),
        forall|i: int| 0 <= i < d.len() ==> is_digit(#[trigger] d[i]),
    ensures
        digits_value(d.take(k)) <= digits_value(d),
    decreases d.len(),
{
    if k == d.len() {
        assert(d.take(k) =~= d);
    } else {
        let e = d.drop_last();
        assert forall|i: int| 0 <= i < e.len() implies is_digit(#[trigger] e[i]) by {
            assert(e[i] == d[i]);
        }
        lemma_digits_prefix(e, k);
        assert(e.take(k) =~= d.take(k));
    }
}

/// Reads a number as `usize::from_str` does.
pub fn parse_decimal(s: &str) -> (r: Option<usize>)
    ensures
        match r {
            Some(v) => parse_usize(s@) == Some(v as nat),
            None => parse_usize(s@) is None,
        },
{
    let chars = chars_of(s);
    let n = chars.len();
    let start: usize = if n > 0 && chars[0] == '+' {
        1
    } else {
        0
    };
    let ghost d = unsigned_digits(s@);
    assert(d =~= s@.skip(start as int));
    if start == n {
        return None;
    }
    let mut i: usize = start;
    while i < n
        invariant
            chars@ == s@,
            n == s@.len(),
            start <= i <= n,
            d == s@.skip(start as int),
            d == unsigned_digits(s@),
            forall|k: int| start <= k < i ==> is_digit(#[trigger] s@[k]),
        decreases n - i,
    {
        let code = chars[i] as u32;
        if code < 48 || code > 57 {
            assert(d[i - start] == s@[i as int]);
            assert(!is_digit(d[i - start]));
            return None;
        }
        i = i + 1;
    }
    assert forall|k: int| 0 <= k < d.len() implies is_digit(#[trigger] d[k]) by {
        assert(d[k] == s@[k + start]);
    }
    let mut v: usize = 0;
    let mut j: usize = start;
    while j < n
        invariant
            chars@ == s@,
            n == s@.len(),
            start <= j <= n,
            d == s@.skip(start as int),
            d == unsigned_digits(s@),
            forall|k: int| 0 <= k < d.len() ==> is_digit(#[trigger] d[k]),
            v as nat == digits_value(d.take(j - start)),
        decreases n - j,
    {
        let c = chars[j];
        proof {
            assert(d[j - start] == s@[j as int]);
            assert(d.take(j - start + 1).drop_last() =~= d.take(j - start));
            assert(d.take(j - start + 1).last() == c);
            assert(is_digit(d[j - start]));
            lemma_digits_prefix(d, j - start + 1);
        }
        let digit: usize = (c as u32 - 48) as usize;
        assert(digits_value(d.take(j - start + 1)) == v * 10 + digit);
        match v.checked_mul(10) {
            Some(t) => match t.checked_add(digit) {
                Some(w) => {
                    v = w;
                },
                None => {
                    return None;
                },
            },
            None => {
                assert(digits_value(d.take(j - start + 1)) >= v * 10);
                return None;
            },
        }
        j = j + 1;
    }
    assert(d.take(n - start) =~= d);
    Some(v)
}

/// The length of the message body that a header block announces:
/// `header_content_length`.
pub fn content_length(headers: &str) -> (n: usize)
    ensures
        n == header_content_length(headers@),
{
    let lines = lines_str(headers);
    let ghost ls = lines_of(headers@);
    let name = "Content-Length:";
    proof {
        reveal_strlit("Content-Length:");
        assert(name@.len() == 15);
    }
    let mut n: usize = 0;
    let mut i: usize = 0;
    assert(ls.take(0) =~= Seq::<Seq<char>>::empty());
    while i < lines.len()
        invariant
            lines@.len() == ls.len(),
            forall|k: int| 0 <= k < lines@.len() ==> (#[trigger] lines@[k])@ == ls[k],
            i <= lines@.len(),
            name@ == length_header(),
            length_header().len() == 15,
            n == last_length(ls.take(i as int)),
        decreases lines@.len() - i,
    {
        let line = lines[i];
        assert(ls.take(i + 1).drop_last() =~= ls.take(i as int));
        assert(ls.take(i + 1).last() == line@);
        if has_prefix(line, name) {
            let rest = line.substring_char(15, line.unicode_len());
            assert(rest@ =~= line@.skip(15));
            n = match parse_decimal(trim_str(rest)) {
                Some(v) => v,
                None => 0,
            };
        }
        i = i + 1;
    }
    assert(ls.take(ls.len() as int) =~= ls);
    n
}

/// The message that a JSON body holds, as `decode_message` reads it: `None`
/// where the body is not one JSON value.
pub uninterp spec fn message_of_body(body: Seq<u8>) -> Option<Message>;

/// `serde_json::from_slice` into a `serde_json::Value`, then the fields the
/// server reads: `method` (empty where it is no string), whether `id` is
/// present and not null, `params.textDocument.uri` and `.text`, the `text` of
/// the first element of the array `params.contentChanges`, and
/// `params.position.line` and `.character` (each `None` where it is missing
/// or of another JSON type). The result is a function of the bytes alone;
/// what it is on given bytes is left to serde_json's parser.
#[verifier::external_body]
pub(crate) fn decode_message(body: &[u8]) -> (m: Option<Message>)
    ensures
        m == message_of_body(body@),
{
    let v: serde_json::Value = serde_json::from_slice(body).ok()?;
    let (p, pos) = (&v["params"], &v["params"]["position"]);
    Some(Message {
        method: v["method"].as_str().unwrap_or("").to_string(),
        has_id: !v["id"].is_null(),
        uri: p["textDocument"]["uri"].as_str().map(String::from),
        open_text: p["textDocument"]["text"].as_str().map(String::from),
        change_text: p["contentChanges"].as_array().and_then(|a| a.first()).and_then(|c| c["text"].as_str()).map(String::from),
        line: pos["line"].as_u64().map(|n| n as usize),
        character: pos["character"].as_u64().map(|n| n as usize),
    })
}

} // verus!
