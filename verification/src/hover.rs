//! Hover: describe the menu path, property, flag or verb under the cursor.
use vstd::prelude::*;
use vstd::slice::slice_subrange;
use vstd::string::*;
use vstd::utf8::*;
use crate::menus::{
    find_argument, find_flag, first_argument, first_flag, is_standard_verb, standard_verbs,
    ArgEntry, FlagEntry, MenuData, MenuEntry,
};
use crate::script::{
    before_cursor_fits, before_cursor_text, build_before_cursor, cursor_in_bounds,
    line_model, parse_line, path_of, tokenizable,
};
use crate::text::utf8_str;

verus! {

/// A byte that can be part of a hovered word: ASCII letters and digits, `/`, `-`, `_`.
pub open spec fn is_word_byte(b: u8) -> bool {
    ||| 0x30 <= b <= 0x39
    ||| 0x41 <= b <= 0x5A
    ||| 0x61 <= b <= 0x7A
    ||| b == 0x2F
    ||| b == 0x2D
    ||| b == 0x5F
}

fn word_byte(b: u8) -> (r: bool)
    ensures
        r == is_word_byte(b),
{
    (0x30 <= b && b <= 0x39) || (0x41 <= b && b <= 0x5A) || (0x61 <= b && b <= 0x7A) || b == 0x2F
        || b == 0x2D || b == 0x5F
}

/// A position clamped to the length of the bytes.
pub open spec fn clamp(bytes: Seq<u8>, pos: int) -> int {
    if pos < bytes.len() {
        pos
    } else {
        bytes.len() as int
    }
}

/// `start` is where the word around `p` begins: every byte from `start` up to
/// `p` is a word byte, and the byte before `start`, if any, is not.
pub open spec fn is_word_start(bytes: Seq<u8>, p: int, start: int) -> bool {
    &&& 0 <= start <= p <= bytes.len()
    &&& forall|k: int| start <= k < p ==> is_word_byte(#[trigger] bytes[k])
    &&& start > 0 ==> !is_word_byte(bytes[start - 1])
}

/// `end` is where the word around `p` ends: every byte from `p` up to `end`
/// is a word byte, and the byte at `end`, if any, is not.
pub open spec fn is_word_end(bytes: Seq<u8>, p: int, end: int) -> bool {
    &&& 0 <= p <= end <= bytes.len()
    &&& forall|k: int| p <= k < end ==> is_word_byte(#[trigger] bytes[k])
    &&& end < bytes.len() ==> !is_word_byte(bytes[end])
}

/// Walking left from `i` over word bytes: where the word begins.
pub open spec fn word_start_at(bytes: Seq<u8>, i: int) -> int
    decreases i,
{
    if 0 < i <= bytes.len() && is_word_byte(bytes[i - 1]) {
        word_start_at(bytes, i - 1)
    } else {
        i
    }
}

/// Walking right from `i` over word bytes: where the word ends.
pub open spec fn word_end_at(bytes: Seq<u8>, i: int) -> int
    decreases bytes.len() - i,
{
    if 0 <= i < bytes.len() && is_word_byte(bytes[i]) {
        word_end_at(bytes, i + 1)
    } else {
        i
    }
}

/// Finds where the word (letters, digits, `/`, `-`, `_`) that reaches the
/// byte position `pos` starts.
pub fn find_word_start(line: &str, pos: usize) -> (start: usize)
    ensures
        is_word_start(line.spec_bytes(), clamp(line.spec_bytes(), pos as int), start as int),
        start == word_start_at(line.spec_bytes(), clamp(line.spec_bytes(), pos as int)),
{
    let bytes = line.as_bytes();
    let p = if pos < bytes.len() {
        pos
    } else {
        bytes.len()
    };
    let mut i = p;
    while i > 0
        invariant
            bytes@ == line.spec_bytes(),
            p == clamp(bytes@, pos as int),
            i <= p,
            forall|k: int| i <= k < p ==> is_word_byte(#[trigger] bytes@[k]),
            word_start_at(bytes@, i as int) == word_start_at(bytes@, p as int),
        ensures
            i > 0 ==> !is_word_byte(bytes@[i - 1]),
        decreases i,
    {
        if !word_byte(bytes[i - 1]) {
            break;
        }
        i = i - 1;
    }
    i
}

/// Finds where the word (letters, digits, `/`, `-`, `_`) that starts at or
/// runs through the byte position `pos` ends.
pub fn find_word_end(line: &str, pos: usize) -> (end: usize)
    ensures
        is_word_end(line.spec_bytes(), clamp(line.spec_bytes(), pos as int), end as int),
        end == word_end_at(line.spec_bytes(), clamp(line.spec_bytes(), pos as int)),
{
    let bytes = line.as_bytes();
    let p = if pos < bytes.len() {
        pos
    } else {
        bytes.len()
    };
    let mut i = p;
    while i < bytes.len()
        invariant
            bytes@ == line.spec_bytes(),
            p == clamp(bytes@, pos as int),
            p <= i <= bytes@.len(),
            forall|k: int| p <= k < i ==> is_word_byte(#[trigger] bytes@[k]),
            word_end_at(bytes@, i as int) == word_end_at(bytes@, p as int),
        ensures
            i < bytes@.len() ==> !is_word_byte(bytes@[i as int]),
        decreases bytes@.len() - i,
    {
        if !word_byte(bytes[i]) {
            break;
        }
        i = i + 1;
    }
    i
}

proof fn lemma_word_start_run(b: Seq<u8>, i: int, s: int)
    requires
        0 <= s <= i <= b.len(),
        forall|k: int| s <= k < i ==> is_word_byte(#[trigger] b[k]),
        s == 0 || !is_word_byte(b[s - 1]),
    ensures
        word_start_at(b, i) == s,
    decreases i,
{
    if i > s {
        lemma_word_start_run(b, i - 1, s);
    }
}

proof fn lemma_word_end_run(b: Seq<u8>, i: int, e: int)
    requires
        0 <= i <= e <= b.len(),
        forall|k: int| i <= k < e ==> is_word_byte(#[trigger] b[k]),
        e == b.len() || !is_word_byte(b[e]),
    ensures
        word_end_at(b, i) == e,
    decreases b.len() - i,
{
    if i < e {
        lemma_word_end_run(b, i + 1, e);
    }
}

/// The hovered word is the whole run of ASCII letters, digits, `/`, `-` and
/// `_` around the cursor: when the bytes from `s` to `e` are all such bytes,
/// the bytes just outside them are not, and the cursor lies in between, the
/// word is exactly those bytes.
pub proof fn law_hover_word_is_the_whole_run(line: Seq<char>, pos: int, s: int, e: int)
    requires
        0 <= s <= pos <= e <= encode_utf8(line).len(),
        forall|k: int|
            s <= k < e ==> {
                let x = #[trigger] encode_utf8(line)[k];
                ||| 0x30 <= x <= 0x39
                ||| 0x41 <= x <= 0x5A
                ||| 0x61 <= x <= 0x7A
                ||| x == 0x2F || x == 0x2D || x == 0x5F
            },
        s > 0 ==> {
            let x = encode_utf8(line)[s - 1];
            !(0x30 <= x <= 0x39 || 0x41 <= x <= 0x5A || 0x61 <= x <= 0x7A || x == 0x2F || x
                == 0x2D || x == 0x5F)
        },
        e < encode_utf8(line).len() ==> {
            let x = encode_utf8(line)[e];
            !(0x30 <= x <= 0x39 || 0x41 <= x <= 0x5A || 0x61 <= x <= 0x7A || x == 0x2F || x
                == 0x2D || x == 0x5F)
        },
    ensures
        word_bytes(line, pos) == encode_utf8(line).subrange(s, e),
        hover_word(line, pos) == decode_utf8(encode_utf8(line).subrange(s, e)),
{
    let b = encode_utf8(line);
    assert(clamp(b, pos) == pos);
    lemma_word_start_run(b, pos, s);
    lemma_word_end_run(b, pos, e);
}

/// The contents of a hover: a markup kind and the text.
pub struct HoverContents {
    pub kind: String,
    pub value: String,
}

/// A hover answer.
pub struct Hover {
    pub contents: HoverContents,
}

/// `s`, or `default` when `s` is empty.
pub open spec fn or_default(s: Seq<char>, default: Seq<char>) -> Seq<char> {
    if s.len() == 0 {
        default
    } else {
        s
    }
}

/// One markdown line per argument: its name and type.
pub open spec fn argument_lines(args: Seq<ArgEntry>) -> Seq<char>
    decreases args.len(),
{
    if args.len() == 0 {
        Seq::empty()
    } else {
        argument_lines(args.drop_last()) + "\n  "@ + args.last().name@ + ": "@ + or_default(
            args.last().arg_type@,
            "(any)"@,
        )
    }
}

/// One markdown line per flag: its name and description.
pub open spec fn flag_lines(flags: Seq<FlagEntry>) -> Seq<char>
    decreases flags.len(),
{
    if flags.len() == 0 {
        Seq::empty()
    } else {
        flag_lines(flags.drop_last()) + "\n  "@ + flags.last().name@ + " — "@
            + flags.last().description@
    }
}

/// The hover text of a menu path: its type, then its arguments and flags when it has any.
pub open spec fn menu_markdown(word: Seq<char>, menu: MenuEntry) -> Seq<char> {
    let head = "### "@ + word + "\n\n**Type:** "@ + or_default(menu.menu_type@, "Directory"@);
    let with_args = if menu.arguments@.len() == 0 {
        head
    } else {
        head + "\n\n**Arguments:**"@ + argument_lines(menu.arguments@)
    };
    if menu.flags@.len() == 0 {
        with_args
    } else {
        with_args + "\n\n**Flags:**"@ + flag_lines(menu.flags@)
    }
}

/// The hover text of a property.
pub open spec fn argument_markdown(arg: ArgEntry) -> Seq<char> {
    "**"@ + arg.name@ + "**\n\nType: `"@ + or_default(arg.arg_type@, "any"@) + "`"@
}

/// The hover text of a flag.
pub open spec fn flag_markdown(flag: FlagEntry) -> Seq<char> {
    "**"@ + flag.name@ + "**\n\n"@ + flag.description@
}

/// The hover text of a standard verb.
pub open spec fn verb_markdown(word: Seq<char>) -> Seq<char> {
    "**"@ + word + "**\n\nStandard RouterOS command."@
}

/// The bytes of the word around the clamped position.
pub open spec fn word_bytes(line: Seq<char>, pos: int) -> Seq<u8> {
    let b = encode_utf8(line);
    let p = clamp(b, pos);
    b.subrange(word_start_at(b, p), word_end_at(b, p))
}

/// The word under the cursor.
pub open spec fn hover_word(line: Seq<char>, pos: int) -> Seq<char> {
    decode_utf8(word_bytes(line, pos))
}

/// Whether the word is a menu path that the table knows.
pub open spec fn is_known_path(data: MenuData, word: Seq<char>) -> bool {
    word.len() > 0 && word[0] == '/' && data.menu(word) is Some
}

/// The hover text for the word under the cursor: a known menu path; else a
/// property or flag of the menu of the command under the cursor; else a
/// standard verb; else nothing.
pub open spec fn hover_text(
    data: MenuData,
    line: Seq<char>,
    pos: int,
    doc: Seq<char>,
    line_idx: int,
) -> Option<Seq<char>> {
    let w = hover_word(line, pos);
    if w.len() == 0 {
        None
    } else if is_known_path(data, w) {
        Some(menu_markdown(w, data.menu(w)->0))
    } else {
        let m = line_model(data, before_cursor_text(doc, line_idx, pos));
        let menu = data.menu(path_of(m.parts));
        if menu is Some && first_argument(menu->0.arguments@, w) is Some {
            Some(argument_markdown(first_argument(menu->0.arguments@, w)->0))
        } else if menu is Some && first_flag(menu->0.flags@, w) is Some {
            Some(flag_markdown(first_flag(menu->0.flags@, w)->0))
        } else if standard_verbs().contains(w) {
            Some(verb_markdown(w))
        } else {
            None
        }
    }
}

/// The inputs on which hovering does not panic: an empty word lies on a
/// character boundary (else slicing the line panics), and when the word is not
/// a known menu path, the cursor position fits the document and the command
/// text before it can be tokenized.
pub open spec fn hover_defined(
    data: MenuData,
    line: Seq<char>,
    pos: int,
    doc: Seq<char>,
    line_idx: int,
) -> bool {
    let b = encode_utf8(line);
    let p = clamp(b, pos);
    let w = hover_word(line, pos);
    &&& word_start_at(b, p) == word_end_at(b, p) ==> is_char_boundary(b, p)
    &&& (w.len() > 0 && !is_known_path(data, w)) ==> {
        &&& cursor_in_bounds(doc, line_idx, pos)
        &&& tokenizable(before_cursor_text(doc, line_idx, pos))
    }
}

/// Bytes below 0x80 are valid UTF-8 and decode to one character each.
proof fn lemma_ascii_bytes(b: Seq<u8>)
    requires
        forall|k: int| 0 <= k < b.len() ==> b[k] < 0x80,
    ensures
        valid_utf8(b),
        decode_utf8(b).len() == b.len(),
        forall|k: int| 0 <= k < b.len() ==> (#[trigger] decode_utf8(b)[k]) == b[k] as char,
{
    let c = Seq::new(b.len(), |k: int| b[k] as char);
    assert forall|k: int| 0 <= k < c.len() implies '\0' <= #[trigger] c[k] <= '\u{7f}' by {
        assert(b[k] < 0x80);
    }
    is_ascii_chars_encode_utf8(c);
    assert forall|k: int| 0 <= k < b.len() implies encode_utf8(c)[k] == b[k] by {
        let x = b[k];
        assert((x as char) as u8 == x);
    }
    assert(encode_utf8(c) =~= b);
    encode_utf8_valid_utf8(c);
    encode_utf8_decode_utf8(c);
}

fn with_default<'a>(s: &'a str, default: &'a str) -> (r: &'a str)
    ensures
        r@ == or_default(s@, default@),
{
    if s.unicode_len() == 0 {
        default
    } else {
        s
    }
}

fn menu_markdown_text(word: &str, menu: &MenuEntry) -> (md: String)
    ensures
        md@ == menu_markdown(word@, *menu),
{
    let mut md = String::from_str("### ");
    md.append(word);
    md.append("\n\n**Type:** ");
    md.append(with_default(menu.menu_type.as_str(), "Directory"));
    if menu.arguments.len() > 0 {
        md.append("\n\n**Arguments:**");
        let ghost head = md@;
        let mut i: usize = 0;
        while i < menu.arguments.len()
            invariant
                i <= menu.arguments@.len(),
                md@ == head + argument_lines(menu.arguments@.take(i as int)),
            decreases menu.arguments@.len() - i,
        {
            let arg = &menu.arguments[i];
            assert(menu.arguments@.take(i + 1).drop_last() == menu.arguments@.take(i as int));
            md.append("\n  ");
            md.append(arg.name.as_str());
            md.append(": ");
            md.append(with_default(arg.arg_type.as_str(), "(any)"));
            i = i + 1;
        }
        assert(menu.arguments@.take(i as int) == menu.arguments@);
    }
    if menu.flags.len() > 0 {
        md.append("\n\n**Flags:**");
        let ghost head = md@;
        let mut i: usize = 0;
        while i < menu.flags.len()
            invariant
                i <= menu.flags@.len(),
                md@ == head + flag_lines(menu.flags@.take(i as int)),
            decreases menu.flags@.len() - i,
        {
            let flag = &menu.flags[i];
            assert(menu.flags@.take(i + 1).drop_last() == menu.flags@.take(i as int));
            md.append("\n  ");
            md.append(flag.name.as_str());
            md.append(" — ");
            md.append(flag.description.as_str());
            i = i + 1;
        }
        assert(menu.flags@.take(i as int) == menu.flags@);
    }
    md
}

fn markdown(value: String) -> (h: Hover)
    ensures
        h.contents.kind@ == "markdown"@,
        h.contents.value@ == value@,
{
    Hover { contents: HoverContents { kind: String::from_str("markdown"), value } }
}

/// Describes the word under the cursor (byte position `pos` of `line`, which
/// is line `line_idx` of `full_doc`): a known menu path with its type,
/// arguments and flags; a property or flag of the command's menu; or a
/// standard verb.
pub fn compute_hover(
    data: &MenuData,
    line: &str,
    pos: usize,
    full_doc: &str,
    line_idx: usize,
) -> (r: Option<Hover>)
    requires
        hover_defined(*data, line@, pos as int, full_doc@, line_idx as int),
    ensures
        match r {
            Some(h) => {
                &&& hover_text(*data, line@, pos as int, full_doc@, line_idx as int) == Some(
                    h.contents.value@,
                )
                &&& h.contents.kind@ == "markdown"@
            },
            None => hover_text(*data, line@, pos as int, full_doc@, line_idx as int) is None,
        },
{
    let word_start = find_word_start(line, pos);
    let word_end = find_word_end(line, pos);
    if word_start == word_end {
        proof {
            assert(word_bytes(line@, pos as int).len() == 0);
        }
        return None;
    }
    let bytes = line.as_bytes();
    let slice = slice_subrange(bytes, word_start, word_end);
    proof {
        lemma_ascii_bytes(slice@);
    }
    let word = match utf8_str(slice) {
        Some(w) => w,
        None => {
            return None;
        },
    };
    proof {
        assert(word@ == decode_utf8(word.spec_bytes())) by {
            broadcast use encode_utf8_decode_utf8;
        }
        assert(word@ == hover_word(line@, pos as int));
    }
    if word.get_char(0) == '/' {
        if let Some(menu) = data.menu_by_path(word) {
            return Some(markdown(menu_markdown_text(word, menu)));
        }
    }
    let before_cursor = build_before_cursor(full_doc, line_idx, pos);
    let context = parse_line(data, before_cursor.as_str());
    if let Some(menu) = data.menu_by_path(context.path.as_str()) {
        if let Some(arg) = find_argument(&menu.arguments, word) {
            let mut md = String::from_str("**");
            md.append(arg.name.as_str());
            md.append("**\n\nType: `");
            md.append(with_default(arg.arg_type.as_str(), "any"));
            md.append("`");
            return Some(markdown(md));
        }
        if let Some(flag) = find_flag(&menu.flags, word) {
            let mut md = String::from_str("**");
            md.append(flag.name.as_str());
            md.append("**\n\n");
            md.append(flag.description.as_str());
            return Some(markdown(md));
        }
    }
    if is_standard_verb(word) {
        let mut md = String::from_str("**");
        md.append(word);
        md.append("**\n\nStandard RouterOS command.");
        return Some(markdown(md));
    }
    None
}

/// Whether `compute_hover` can run on these inputs (`hover_defined`).
pub fn can_hover(data: &MenuData, line: &str, pos: usize, full_doc: &str, line_idx: usize) -> (b:
    bool)
    ensures
        b == hover_defined(*data, line@, pos as int, full_doc@, line_idx as int),
{
    let word_start = find_word_start(line, pos);
    let word_end = find_word_end(line, pos);
    let bytes = line.as_bytes();
    if word_start == word_end {
        let p = if pos < bytes.len() {
            pos
        } else {
            bytes.len()
        };
        proof {
            assert(word_bytes(line@, pos as int).len() == 0);
            assert(hover_word(line@, pos as int).len() == 0);
        }
        return line.is_char_boundary(p);
    }
    let slice = slice_subrange(bytes, word_start, word_end);
    proof {
        lemma_ascii_bytes(slice@);
    }
    let word = match utf8_str(slice) {
        Some(w) => w,
        None => {
            return false;
        },
    };
    proof {
        assert(word@ == decode_utf8(word.spec_bytes())) by {
            broadcast use encode_utf8_decode_utf8;
        }
        assert(word@ == hover_word(line@, pos as int));
    }
    if word.get_char(0) == '/' {
        if data.menu_by_path(word).is_some() {
            return true;
        }
    }
    before_cursor_fits(full_doc, line_idx, pos)
}

} // verus!
