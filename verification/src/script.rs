//! Reading the command under the cursor: tokens, the command's lines, its structure.
use vstd::prelude::*;
use vstd::string::*;
use crate::menus::{is_command, is_command_child, ChildEntry, LineContext, MenuData};
use crate::string_map::StringMap;
use crate::text::{
    ascii_space, chars_of, find_char, find_in, lemma_find_char, is_ascii_space, join, join_strings,
    is_white_space, join_strs, lemma_trimmed_shape, lines_of, lines_str, str_eq, trim_start_char,
    trim_start_matching, trim_str, trimmed,
};
use vstd::utf8::*;

verus! {

/// The end of a quoted string whose body starts at `j`: just past the closing
/// `"`, or the end of the text. A backslash skips the character after it; one
/// that is the last character of the text ends the scan one past the end.
pub open spec fn quote_scan(s: Seq<char>, j: int) -> int
    decreases s.len() - j,
{
    if j < 0 || j >= s.len() {
        j
    } else if s[j] == '\\' {
        if j + 1 >= s.len() {
            j + 2
        } else {
            quote_scan(s, j + 2)
        }
    } else if s[j] == '"' {
        j + 1
    } else {
        quote_scan(s, j + 1)
    }
}

/// The end of the bare word that continues at `j`: it runs up to white
/// space, and a `"` inside it opens a quoted part that may hold white space
/// (so `key="a b"` is one word); a quoted part left open ends the word at the
/// end of the text.
pub open spec fn word_scan(s: Seq<char>, j: int) -> int
    decreases s.len() - j,
{
    if 0 <= j < s.len() && !is_ascii_space(s[j]) {
        if s[j] == '"' {
            let q = quote_scan(s, j + 1);
            proof {
                lemma_quote_scan_grows(s, j + 1);
            }
            if q >= s.len() {
                s.len() as int
            } else {
                word_scan(s, q)
            }
        } else {
            word_scan(s, j + 1)
        }
    } else {
        j
    }
}

/// The end of the run of non-space characters that continues at `j`.
pub open spec fn plain_scan(s: Seq<char>, j: int) -> int
    decreases s.len() - j,
{
    if 0 <= j < s.len() && !is_ascii_space(s[j]) {
        plain_scan(s, j + 1)
    } else {
        j
    }
}

/// The end of the token that starts at `i`: a quoted string, a `/`-prefixed
/// path segment (a run of non-space characters), or a bare word.
pub open spec fn token_end(s: Seq<char>, i: int) -> int {
    if s[i] == '"' {
        quote_scan(s, i + 1)
    } else if s[i] == '/' {
        plain_scan(s, i)
    } else {
        word_scan(s, i)
    }
}

pub proof fn lemma_plain_scan_grows(s: Seq<char>, j: int)
    requires
        0 <= j <= s.len(),
    ensures
        j <= plain_scan(s, j) <= s.len(),
        forall|k: int| j <= k < plain_scan(s, j) ==> !is_ascii_space(#[trigger] s[k]),
        plain_scan(s, j) < s.len() ==> is_ascii_space(s[plain_scan(s, j)]),
    decreases s.len() - j,
{
    if j < s.len() && !is_ascii_space(s[j]) {
        lemma_plain_scan_grows(s, j + 1);
    }
}

pub proof fn lemma_quote_scan_grows(s: Seq<char>, j: int)
    requires
        0 <= j,
    ensures
        quote_scan(s, j) >= j,
        j <= s.len() ==> quote_scan(s, j) <= s.len() + 1,
    decreases s.len() - j,
{
    if j < s.len() && s[j] == '\\' && j + 1 < s.len() {
        lemma_quote_scan_grows(s, j + 2);
    } else if j < s.len() && s[j] != '\\' && s[j] != '"' {
        lemma_quote_scan_grows(s, j + 1);
    }
}

pub proof fn lemma_word_scan_grows(s: Seq<char>, j: int)
    requires
        0 <= j <= s.len(),
    ensures
        j <= word_scan(s, j) <= s.len(),
        word_scan(s, j) < s.len() ==> is_ascii_space(s[word_scan(s, j)]),
    decreases s.len() - j,
{
    if j < s.len() && !is_ascii_space(s[j]) {
        lemma_quote_scan_grows(s, j + 1);
        if s[j] == '"' {
            let q = quote_scan(s, j + 1);
            if q < s.len() {
                lemma_word_scan_grows(s, q);
            }
        } else {
            lemma_word_scan_grows(s, j + 1);
        }
    }
}

/// The tokens of `s` from position `i` on, as `tokenize` produces them; `None`
/// where a quoted token would end past the text (a trailing backslash inside
/// quotes), on which the slicing of the token panics.
pub open spec fn tokens_from(s: Seq<char>, i: int) -> Option<Seq<Seq<char>>>
    decreases s.len() - i,
{
    if i < 0 || i >= s.len() {
        Some(Seq::empty())
    } else if is_ascii_space(s[i]) {
        tokens_from(s, i + 1)
    } else {
        let e = token_end(s, i);
        proof {
            lemma_quote_scan_grows(s, i + 1);
            lemma_word_scan_grows(s, i);
            lemma_plain_scan_grows(s, i);
        }
        if e > s.len() {
            None
        } else {
            match tokens_from(s, e) {
                Some(rest) => Some(seq![s.subrange(i, e)] + rest),
                None => None,
            }
        }
    }
}

/// The tokens of a line: quoted strings (kept with their quotes),
/// `/`-prefixed path segments and bare words (which may hold quoted parts),
/// separated by ASCII white space.
pub open spec fn tokens(s: Seq<char>) -> Option<Seq<Seq<char>>> {
    tokens_from(s, 0)
}

/// The text can be tokenized without running past its end.
pub open spec fn tokenizable(s: Seq<char>) -> bool {
    tokens(s) is Some
}

fn quote_end(v: &Vec<char>, j0: usize) -> (e: usize)
    requires
        j0 <= v@.len(),
        quote_scan(v@, j0 as int) <= v@.len(),
    ensures
        e == quote_scan(v@, j0 as int),
{
    let n = v.len();
    let mut j = j0;
    while j < n
        invariant
            n == v@.len(),
            j0 <= j <= n,
            quote_scan(v@, j as int) == quote_scan(v@, j0 as int),
            quote_scan(v@, j0 as int) <= n,
        decreases n - j,
    {
        if v[j] == '\\' {
            j = j + 2;
        } else if v[j] == '"' {
            return j + 1;
        } else {
            j = j + 1;
        }
    }
    j
}

fn plain_end(v: &Vec<char>, j0: usize) -> (e: usize)
    requires
        j0 <= v@.len(),
    ensures
        e == plain_scan(v@, j0 as int),
{
    let n = v.len();
    let mut j = j0;
    while j < n && !ascii_space(v[j])
        invariant
            n == v@.len(),
            j0 <= j <= n,
            plain_scan(v@, j as int) == plain_scan(v@, j0 as int),
        decreases n - j,
    {
        j = j + 1;
    }
    j
}

fn word_end(v: &Vec<char>, j0: usize) -> (e: usize)
    requires
        j0 <= v@.len(),
    ensures
        e == word_scan(v@, j0 as int),
{
    let n = v.len();
    let mut j = j0;
    while j < n && !ascii_space(v[j])
        invariant
            n == v@.len(),
            j0 <= j <= n,
            word_scan(v@, j as int) == word_scan(v@, j0 as int),
        decreases n - j,
    {
        if v[j] == '"' {
            proof {
                lemma_quote_scan_grows(v@, j + 1);
            }
            match quote_end_checked(v, j + 1) {
                Some(q) => {
                    if q >= n {
                        j = n;
                    } else {
                        j = q;
                    }
                },
                None => {
                    j = n;
                },
            }
        } else {
            j = j + 1;
        }
    }
    j
}

/// Splits a line into tokens: quoted strings, `/`-prefixed paths, or bare
/// words (a bare word keeps a quoted value with spaces, as in `key="a b"`).
pub fn tokenize(text: &str) -> (toks: Vec<String>)
    requires
        tokenizable(text@),
    ensures
        toks@.len() == tokens(text@)->0.len(),
        forall|k: int| 0 <= k < toks@.len() ==> (#[trigger] toks@[k])@ == tokens(text@)->0[k],
{
    let chars = chars_of(text);
    let n = chars.len();
    let mut toks: Vec<String> = Vec::new();
    let mut i: usize = 0;
    let ghost all = tokens(text@)->0;
    while i < n
        invariant
            n == chars@.len(),
            chars@ == text@,
            i <= n,
            tokens_from(text@, i as int) is Some,
            all == tokens(text@)->0,
            all == toks@.map_values(|t: String| t@) + tokens_from(text@, i as int)->0,
        decreases n - i,
    {
        if ascii_space(chars[i]) {
            i = i + 1;
        } else {
            proof {
                lemma_quote_scan_grows(text@, i + 1);
                lemma_word_scan_grows(text@, i as int);
            }
            proof {
                lemma_plain_scan_grows(text@, i as int);
            }
            let end = if chars[i] == '"' {
                quote_end(&chars, i + 1)
            } else if chars[i] == '/' {
                plain_end(&chars, i)
            } else {
                word_end(&chars, i)
            };
            let piece = text.substring_char(i, end);
            let tok = String::from_str(piece);
            let ghost before = toks@.map_values(|t: String| t@);
            toks.push(tok);
            proof {
                assert(toks@.map_values(|t: String| t@) == before.push(tok@));
                let rest = tokens_from(text@, end as int)->0;
                assert(tokens_from(text@, i as int)->0 == seq![text@.subrange(i as int, end as int)] + rest);
                assert(before + (seq![tok@] + rest) == before.push(tok@) + rest);
            }
            i = end;
        }
    }
    proof {
        assert(all == toks@.map_values(|t: String| t@));
    }
    toks
}

/// What `parse_line` has gathered after some tokens.
pub struct LineModel {
    pub parts: Seq<Seq<char>>,
    pub command: Option<Seq<char>>,
    pub properties: Map<Seq<char>, Seq<char>>,
}

/// The menu path of some path segments: `/` and the segments joined by `/`,
/// or empty when there are none.
pub open spec fn path_of(parts: Seq<Seq<char>>) -> Seq<char> {
    if parts.len() == 0 {
        Seq::empty()
    } else {
        "/"@ + join(parts, "/"@)
    }
}

/// Whether some child in `children` that is not an action command has the
/// name `word`.
pub open spec fn has_sub_menu_named(children: Option<Seq<ChildEntry>>, word: Seq<char>) -> bool {
    &&& children is Some
    &&& exists|i: int|
        0 <= i < children->0.len() && (#[trigger] children->0[i]).name@ == word && !is_command(
            children->0[i],
        )
}

/// One token's effect:
/// - a `/`-prefixed token adds a path segment, without its leading slashes;
///   a lone `/` before any path adds none and leaves the root path;
/// - a token with `=` sets the property before the first `=` to what follows it;
/// - once there is a command, any other word is one of its arguments;
/// - after a path, a word that names a child of the path that is not an action
///   command (a sub-menu, whatever its type) extends the path;
/// - any other word (an action command, a verb, a global command such as
///   `:put`) becomes the command.
pub open spec fn parse_step(data: MenuData, st: LineModel, tok: Seq<char>) -> LineModel {
    if tok.len() > 0 && tok[0] == '/' {
        if tok == seq!['/'] && st.parts.len() == 0 {
            st
        } else {
            LineModel { parts: st.parts.push(trim_start_char(tok, '/')), ..st }
        }
    } else if find_char(tok, '=') is Some {
        let e = find_char(tok, '=')->0;
        LineModel { properties: st.properties.insert(tok.take(e), tok.skip(e + 1)), ..st }
    } else if st.command is Some {
        st
    } else if st.parts.len() > 0 && has_sub_menu_named(data.children(path_of(st.parts)), tok) {
        LineModel { parts: st.parts.push(tok), ..st }
    } else {
        LineModel { command: Some(tok), ..st }
    }
}

/// The effect of a sequence of tokens, from nothing.
pub open spec fn parse_tokens(data: MenuData, toks: Seq<Seq<char>>) -> LineModel
    decreases toks.len(),
{
    if toks.len() == 0 {
        LineModel { parts: Seq::empty(), command: None, properties: Map::empty() }
    } else {
        parse_step(data, parse_tokens(data, toks.drop_last()), toks.last())
    }
}

/// The model of a whole line of text.
pub open spec fn line_model(data: MenuData, text: Seq<char>) -> LineModel {
    parse_tokens(data, tokens(text)->0)
}

/// The last token of a line of text, or empty.
pub open spec fn last_token_of(text: Seq<char>) -> Seq<char> {
    let t = tokens(text)->0;
    if t.len() == 0 {
        Seq::empty()
    } else {
        t.last()
    }
}

/// Whether a `LineContext` is the one that `parse_line` gives for `text`.
pub open spec fn context_of(data: MenuData, text: Seq<char>, ctx: LineContext) -> bool {
    let m = line_model(data, text);
    &&& ctx.path@ == path_of(m.parts)
    &&& match ctx.command {
        Some(c) => m.command == Some(c@),
        None => m.command is None,
    }
    &&& ctx.properties@ == m.properties
    &&& ctx.last_token@ == last_token_of(text)
}

fn path_string(parts: &Vec<String>) -> (p: String)
    ensures
        p@ == path_of(parts@.map_values(|x: String| x@)),
{
    if parts.len() == 0 {
        String::new()
    } else {
        let joined = join_strings(parts, "/");
        String::from_str("/").concat(joined.as_str())
    }
}

fn names_sub_menu(c: &Vec<ChildEntry>, name: &str) -> (b: bool)
    ensures
        b == has_sub_menu_named(Some(c@), name@),
{
    let mut i: usize = 0;
    while i < c.len()
        invariant
            i <= c@.len(),
            forall|j: int| 0 <= j < i ==> !((#[trigger] c@[j]).name@ == name@ && !is_command(c@[j])),
        decreases c@.len() - i,
    {
        if str_eq(c[i].name.as_str(), name) && !is_command_child(&c[i]) {
            let ghost found = Some(c@);
            assert(found->0[i as int].name@ == name@ && !is_command(found->0[i as int]));
            return true;
        }
        i = i + 1;
    }
    false
}

/// Parses a line of RouterOS script into its menu path, command, properties
/// and last token.
pub fn parse_line(data: &MenuData, before_cursor: &str) -> (ctx: LineContext)
    requires
        tokenizable(before_cursor@),
    ensures
        context_of(*data, before_cursor@, ctx),
{
    let toks = tokenize(before_cursor);
    let ghost tv = tokens(before_cursor@)->0;
    let mut path_parts: Vec<String> = Vec::new();
    let mut command: Option<String> = None;
    let mut properties = StringMap::new();
    let last_token = if toks.len() > 0 {
        toks[toks.len() - 1].clone()
    } else {
        String::new()
    };
    let mut k: usize = 0;
    while k < toks.len()
        invariant
            k <= toks@.len(),
            toks@.len() == tv.len(),
            forall|i: int| 0 <= i < toks@.len() ==> (#[trigger] toks@[i])@ == tv[i],
            ({
                let m = parse_tokens(*data, tv.take(k as int));
                &&& path_parts@.map_values(|x: String| x@) == m.parts
                &&& match command {
                    Some(c) => m.command == Some(c@),
                    None => m.command is None,
                }
                &&& properties@ == m.properties
            }),
        decreases toks@.len() - k,
    {
        let token = &toks[k];
        let ghost before = parse_tokens(*data, tv.take(k as int));
        assert(tv.take(k + 1).drop_last() == tv.take(k as int));
        assert(tv.take(k + 1).last() == token@);
        let chars = chars_of(token.as_str());
        if chars.len() > 0 && chars[0] == '/' {
            let seg = trim_start_matching(token.as_str(), '/');
            if chars.len() == 1 && path_parts.len() == 0 {
                assert(token@ =~= seq!['/']);
            } else {
                let ghost old_parts = path_parts@;
                path_parts.push(seg);
                assert(path_parts@.map_values(|x: String| x@) == old_parts.map_values(
                    |x: String| x@,
                ).push(seg@));
            }
        } else {
            match find_in(&chars, '=') {
                Some(eq_idx) => {
                    proof {
                        lemma_find_char(chars@, '=');
                    }
                    let n = chars.len();
                    let key = String::from_str(token.as_str().substring_char(0, eq_idx));
                    let value = String::from_str(token.as_str().substring_char(eq_idx + 1, n));
                    assert(token@.take(eq_idx as int) == token@.subrange(0, eq_idx as int));
                    assert(token@.skip(eq_idx + 1) == token@.subrange(eq_idx + 1, n as int));
                    properties.insert(key, value);
                },
                None => {
                    if command.is_some() {
                    } else if path_parts.len() > 0 {
                        let current_path = path_string(&path_parts);
                        let children = data.children_of(current_path.as_str());
                        let is_sub_menu = match children {
                            Some(c) => names_sub_menu(c, token.as_str()),
                            None => false,
                        };
                        if is_sub_menu {
                            let ghost old_parts = path_parts@;
                            path_parts.push(token.clone());
                            assert(path_parts@.map_values(|x: String| x@) == old_parts.map_values(
                                |x: String| x@,
                            ).push(token@));
                        } else {
                            command = Some(token.clone());
                        }
                    } else {
                        command = Some(token.clone());
                    }
                },
            }
        }
        k = k + 1;
    }
    assert(tv.take(toks@.len() as int) == tv);
    let path = path_string(&path_parts);
    LineContext { path, command, properties, last_token }
}

/// The byte offset at which the cursor cuts its line: the cursor's column,
/// at most the line's length in bytes.
pub open spec fn cut_offset(line: Seq<char>, cursor_char: int) -> int {
    let len = encode_utf8(line).len() as int;
    if cursor_char < len {
        cursor_char
    } else {
        len
    }
}

/// The part of a line before the cursor (bytes up to the cut offset).
pub open spec fn before_cut(line: Seq<char>, cursor_char: int) -> Seq<char> {
    decode_utf8(encode_utf8(line).subrange(0, cut_offset(line, cursor_char)))
}

/// The cursor position can be used: when it is on a line of the document,
/// the cut falls on a character boundary (else slicing the line panics).
pub open spec fn cursor_in_bounds(doc: Seq<char>, cursor_line: int, cursor_char: int) -> bool {
    let lines = lines_of(doc);
    0 <= cursor_line < lines.len() ==> is_char_boundary(
        encode_utf8(lines[cursor_line]),
        cut_offset(lines[cursor_line], cursor_char),
    )
}

/// Whether a trimmed line starts a new command (a menu path or a global command).
pub open spec fn starts_command(t: Seq<char>) -> bool {
    t.len() > 0 && (t[0] == '/' || t[0] == ':')
}

/// Walking back from line `i`, the first line that belongs to the command:
/// the walk stops after a line that starts a command and before a blank one.
pub open spec fn command_start(lines: Seq<Seq<char>>, i: int) -> int
    decreases i + 1,
{
    if i < 0 || i >= lines.len() {
        0
    } else if trimmed(lines[i]).len() == 0 {
        i + 1
    } else if starts_command(trimmed(lines[i])) {
        i
    } else {
        command_start(lines, i - 1)
    }
}

/// The first line of the command under the cursor: the cursor's line when
/// its text before the cursor starts a command, else the walk back from the
/// line above.
pub open spec fn command_first_line(lines: Seq<Seq<char>>, cursor_line: int, current: Seq<char>) -> int {
    if starts_command(trimmed(current)) {
        cursor_line
    } else {
        command_start(lines, cursor_line - 1)
    }
}

/// The text of the command under the cursor: the lines of the command
/// before the cursor's line (none when that line starts a command), then
/// that line up to the cursor, joined by
/// spaces and trimmed; empty when the cursor is past the last line or only
/// white space precedes it on its line.
pub open spec fn before_cursor_text(doc: Seq<char>, cursor_line: int, cursor_char: int) -> Seq<
    char,
> {
    let lines = lines_of(doc);
    if cursor_line < 0 || cursor_line >= lines.len() {
        Seq::empty()
    } else {
        let current = before_cut(lines[cursor_line], cursor_char);
        if trimmed(current).len() == 0 {
            Seq::empty()
        } else {
            let start = command_first_line(lines, cursor_line, current);
            trimmed(join(lines.subrange(start, cursor_line).push(current), " "@))
        }
    }
}

proof fn lemma_command_start_range(lines: Seq<Seq<char>>, i: int)
    requires
        -1 <= i < lines.len(),
    ensures
        0 <= command_start(lines, i) <= i + 1,
    decreases i + 1,
{
    if i >= 0 && trimmed(lines[i]).len() != 0 && !starts_command(trimmed(lines[i])) {
        lemma_command_start_range(lines, i - 1);
    }
}

proof fn lemma_command_start_at(lines: Seq<Seq<char>>, i: int, j: int)
    requires
        0 <= j <= i < lines.len(),
        trimmed(lines[j]).len() > 0,
        trimmed(lines[j])[0] == '/' || trimmed(lines[j])[0] == ':',
        forall|k: int|
            j < k <= i ==> trimmed(#[trigger] lines[k]).len() > 0 && trimmed(lines[k])[0] != '/'
                && trimmed(lines[k])[0] != ':',
    ensures
        command_start(lines, i) == j,
    decreases i,
{
    if i > j {
        lemma_command_start_at(lines, i - 1, j);
    }
}

/// A command line above the cursor starts the command, however it is
/// indented: when line `j` above the cursor's line, trimmed, begins with `/`
/// or `:`, the lines between are neither blank nor such lines, and the text
/// before the cursor does not begin a command itself, the command text is
/// lines `j` up to the cursor's line, then the text before the cursor, joined
/// by spaces and trimmed; so it begins with line `j`'s trimmed text.
pub proof fn law_indented_command_line_starts_the_command(
    doc: Seq<char>,
    cursor_line: int,
    cursor_char: int,
    j: int,
)
    requires
        0 <= j < cursor_line < lines_of(doc).len(),
        trimmed(lines_of(doc)[j]).len() > 0,
        trimmed(lines_of(doc)[j])[0] == '/' || trimmed(lines_of(doc)[j])[0] == ':',
        forall|k: int|
            j < k < cursor_line ==> trimmed(#[trigger] lines_of(doc)[k]).len() > 0 && trimmed(
                lines_of(doc)[k],
            )[0] != '/' && trimmed(lines_of(doc)[k])[0] != ':',
        trimmed(before_cut(lines_of(doc)[cursor_line], cursor_char)).len() > 0,
        trimmed(before_cut(lines_of(doc)[cursor_line], cursor_char))[0] != '/',
        trimmed(before_cut(lines_of(doc)[cursor_line], cursor_char))[0] != ':',
    ensures
        before_cursor_text(doc, cursor_line, cursor_char) == trimmed(
            join(
                lines_of(doc).subrange(j, cursor_line).push(
                    before_cut(lines_of(doc)[cursor_line], cursor_char),
                ),
                " "@,
            ),
        ),
{
    lemma_command_start_at(lines_of(doc), cursor_line - 1, j);
}

proof fn lemma_command_start_after_blank(lines: Seq<Seq<char>>, i: int, j: int)
    requires
        0 <= j <= i < lines.len(),
        trimmed(lines[j]).len() == 0,
        forall|k: int|
            j < k <= i ==> trimmed(#[trigger] lines[k]).len() > 0 && trimmed(lines[k])[0] != '/'
                && trimmed(lines[k])[0] != ':',
    ensures
        command_start(lines, i) == j + 1,
    decreases i,
{
    if i > j {
        lemma_command_start_after_blank(lines, i - 1, j);
    }
}

/// A blank line ends the command above it: when line `j` above the cursor's
/// line is blank, the lines between are neither blank nor command lines, and
/// the text before the cursor does not begin a command, the command text is
/// the lines after `j` up to the cursor's line, then the text before the
/// cursor, joined by spaces and trimmed.
pub proof fn law_blank_line_ends_the_command_above(
    doc: Seq<char>,
    cursor_line: int,
    cursor_char: int,
    j: int,
)
    requires
        0 <= j < cursor_line < lines_of(doc).len(),
        trimmed(lines_of(doc)[j]).len() == 0,
        forall|k: int|
            j < k < cursor_line ==> trimmed(#[trigger] lines_of(doc)[k]).len() > 0 && trimmed(
                lines_of(doc)[k],
            )[0] != '/' && trimmed(lines_of(doc)[k])[0] != ':',
        trimmed(before_cut(lines_of(doc)[cursor_line], cursor_char)).len() > 0,
        trimmed(before_cut(lines_of(doc)[cursor_line], cursor_char))[0] != '/',
        trimmed(before_cut(lines_of(doc)[cursor_line], cursor_char))[0] != ':',
    ensures
        before_cursor_text(doc, cursor_line, cursor_char) == trimmed(
            join(
                lines_of(doc).subrange(j + 1, cursor_line).push(
                    before_cut(lines_of(doc)[cursor_line], cursor_char),
                ),
                " "@,
            ),
        ),
{
    lemma_command_start_after_blank(lines_of(doc), cursor_line - 1, j);
}

fn first_char_is(s: &str, a: char, b: char) -> (r: bool)
    ensures
        r == (s@.len() > 0 && (s@[0] == a || s@[0] == b)),
{
    if s.unicode_len() == 0 {
        false
    } else {
        let c = s.get_char(0);
        c == a || c == b
    }
}

/// Builds the text of the command under the cursor across lines: RouterOS
/// commands can continue over several lines, so the lines before the cursor's
/// line are taken back to the line that starts the command.
pub fn build_before_cursor(doc: &str, cursor_line: usize, cursor_char: usize) -> (r: String)
    requires
        cursor_in_bounds(doc@, cursor_line as int, cursor_char as int),
    ensures
        r@ == before_cursor_text(doc@, cursor_line as int, cursor_char as int),
{
    broadcast use encode_utf8_decode_utf8, encode_utf8_valid_utf8;

    let lines = lines_str(doc);
    let ghost lv = lines_of(doc@);
    if cursor_line >= lines.len() {
        return String::new();
    }
    let line = lines[cursor_line];
    let byte_len = line.as_bytes().len();
    let cut = if cursor_char < byte_len {
        cursor_char
    } else {
        byte_len
    };
    proof {
        assert(line@ == lv[cursor_line as int]);
        assert(line.spec_bytes() == encode_utf8(lv[cursor_line as int]));
        assert(cut as int == cut_offset(lv[cursor_line as int], cursor_char as int));
        assert(is_char_boundary(line.spec_bytes(), cut as int));
    }
    let (current_part, _) = line.split_at(cut);
    proof {
        assert(current_part@ == decode_utf8(current_part.spec_bytes()));
    }
    let current_trimmed = trim_str(current_part);
    if current_trimmed.unicode_len() == 0 {
        return String::new();
    }
    let mut parts: Vec<&str> = Vec::new();
    parts.push(current_part);
    if first_char_is(current_trimmed, '/', ':') {
        assert(lv.subrange(cursor_line as int, cursor_line as int).push(current_part@)
            =~= parts@.map_values(|x: &str| x@));
        let joined = join_strs(&parts, " ");
        return String::from_str(trim_str(joined.as_str()));
    }
    let mut i: usize = cursor_line;
    let mut start: usize = cursor_line;
    let ghost goal = command_start(lv, cursor_line - 1);
    proof {
        lemma_command_start_range(lv, cursor_line - 1);
    }
    while i > 0
        invariant_except_break
            command_start(lv, i - 1) == goal,
            start == i,
        invariant
            i <= cursor_line < lines@.len(),
            lines@.len() == lv.len(),
            forall|k: int| 0 <= k < lines@.len() ==> (#[trigger] lines@[k])@ == lv[k],
            goal <= start <= cursor_line,
            parts@.map_values(|x: &str| x@) == lv.subrange(start as int, cursor_line as int).push(
                current_part@,
            ),
        ensures
            start == goal,
            parts@.map_values(|x: &str| x@) == lv.subrange(start as int, cursor_line as int).push(
                current_part@,
            ),
        decreases i,
    {
        let l = lines[i - 1];
        let t = trim_str(l);
        if t.unicode_len() == 0 {
            break;
        }
        let ghost old_parts = parts@;
        parts.insert(0, l);
        proof {
            lemma_command_start_range(lv, i - 2);
            let nv = parts@.map_values(|x: &str| x@);
            let want = lv.subrange(i - 1, cursor_line as int).push(current_part@);
            let ov = old_parts.map_values(|x: &str| x@);
            assert(parts@ == old_parts.insert(0, l));
            assert(start == i);
            assert(ov.len() == old_parts.len());
            assert(ov == lv.subrange(i as int, cursor_line as int).push(current_part@));
            assert(nv.len() == want.len());
            assert forall|k: int| 0 <= k < nv.len() implies nv[k] == want[k] by {
                if k > 0 {
                    assert(nv[k] == ov[k - 1]);
                }
            }
            assert(nv =~= want);
        }
        start = i - 1;
        if first_char_is(t, '/', ':') {
            break;
        }
        i = i - 1;
    }
    let joined = join_strs(&parts, " ");
    String::from_str(trim_str(joined.as_str()))
}

/// The number of bytes equal to `x` in `b`.
pub open spec fn count_byte(b: Seq<u8>, x: u8) -> nat
    decreases b.len(),
{
    if b.len() == 0 {
        0
    } else {
        count_byte(b.drop_last(), x) + if b.last() == x {
            1nat
        } else {
            0nat
        }
    }
}

/// The number of newline bytes in `doc` before the byte position `pos`
/// (at most the document's length).
pub open spec fn newlines_before(doc: Seq<u8>, pos: int) -> nat {
    let p = if pos < doc.len() {
        pos
    } else {
        doc.len() as int
    };
    count_byte(doc.take(p), 0x0A)
}

/// Counts the newlines in a document up to a byte position.
pub fn count_newlines(doc: &str, pos: usize) -> (n: usize)
    ensures
        n == newlines_before(doc.spec_bytes(), pos as int),
{
    let bytes = doc.as_bytes();
    let p = if pos < bytes.len() {
        pos
    } else {
        bytes.len()
    };
    let mut n: usize = 0;
    let mut i: usize = 0;
    while i < p
        invariant
            bytes@ == doc.spec_bytes(),
            p <= bytes@.len(),
            i <= p,
            n <= i,
            n == count_byte(bytes@.take(i as int), 0x0A),
        decreases p - i,
    {
        assert(bytes@.take(i + 1).drop_last() == bytes@.take(i as int));
        if bytes[i] == 0x0A {
            n = n + 1;
        }
        i = i + 1;
    }
    n
}

fn quote_end_checked(v: &Vec<char>, j0: usize) -> (r: Option<usize>)
    requires
        j0 <= v@.len(),
    ensures
        match r {
            Some(e) => e == quote_scan(v@, j0 as int) && e <= v@.len(),
            None => quote_scan(v@, j0 as int) > v@.len(),
        },
{
    let n = v.len();
    let mut j = j0;
    while j < n
        invariant
            n == v@.len(),
            j0 <= j <= n,
            quote_scan(v@, j as int) == quote_scan(v@, j0 as int),
        decreases n - j,
    {
        if v[j] == '\\' {
            if j + 1 >= n {
                return None;
            }
            j = j + 2;
        } else if v[j] == '"' {
            return Some(j + 1);
        } else {
            j = j + 1;
        }
    }
    Some(j)
}

/// Whether `tokenize` can run on the text (no quoted token runs past its end).
pub fn can_tokenize(text: &str) -> (b: bool)
    ensures
        b == tokenizable(text@),
{
    let chars = chars_of(text);
    let n = chars.len();
    let mut i: usize = 0;
    while i < n
        invariant
            n == chars@.len(),
            chars@ == text@,
            i <= n,
            tokenizable(text@) == (tokens_from(text@, i as int) is Some),
        decreases n - i,
    {
        if ascii_space(chars[i]) {
            i = i + 1;
        } else {
            proof {
                lemma_quote_scan_grows(text@, i + 1);
                lemma_word_scan_grows(text@, i as int);
            }
            let end = if chars[i] == '"' {
                match quote_end_checked(&chars, i + 1) {
                    Some(e) => e,
                    None => {
                        return false;
                    },
                }
            } else if chars[i] == '/' {
                proof {
                    lemma_plain_scan_grows(text@, i as int);
                }
                plain_end(&chars, i)
            } else {
                word_end(&chars, i)
            };
            i = end;
        }
    }
    true
}

/// Whether the cursor position can be used on the document (`cursor_in_bounds`).
pub fn cursor_fits(doc: &str, cursor_line: usize, cursor_char: usize) -> (b: bool)
    ensures
        b == cursor_in_bounds(doc@, cursor_line as int, cursor_char as int),
{
    broadcast use encode_utf8_valid_utf8;

    let lines = lines_str(doc);
    if cursor_line >= lines.len() {
        return true;
    }
    let line = lines[cursor_line];
    let byte_len = line.as_bytes().len();
    let cut = if cursor_char < byte_len {
        cursor_char
    } else {
        byte_len
    };
    assert(line@ == lines_of(doc@)[cursor_line as int]);
    line.is_char_boundary(cut)
}

/// Whether the command text before the cursor can be built and tokenized.
pub fn before_cursor_fits(doc: &str, cursor_line: usize, cursor_char: usize) -> (b: bool)
    ensures
        b == (cursor_in_bounds(doc@, cursor_line as int, cursor_char as int) && tokenizable(
            before_cursor_text(doc@, cursor_line as int, cursor_char as int),
        )),
{
    if !cursor_fits(doc, cursor_line, cursor_char) {
        return false;
    }
    let text = build_before_cursor(doc, cursor_line, cursor_char);
    can_tokenize(text.as_str())
}

proof fn lemma_quote_scan_plain(s: Seq<char>, j: int, e: int)
    requires
        0 <= j <= e < s.len(),
        s[e] == '"',
        forall|k: int| j <= k < e ==> s[k] != '"' && s[k] != '\\',
    ensures
        quote_scan(s, j) == e + 1,
    decreases e - j,
{
    if j < e {
        lemma_quote_scan_plain(s, j + 1, e);
    }
}

proof fn lemma_word_scan_plain(s: Seq<char>, j: int, e: int)
    requires
        0 <= j <= e <= s.len(),
        forall|k: int| j <= k < e ==> !is_ascii_space(s[k]) && s[k] != '"',
    ensures
        word_scan(s, j) == word_scan(s, e),
    decreases e - j,
{
    if j < e {
        lemma_word_scan_plain(s, j + 1, e);
    }
}

/// A property with a quoted value stays one token, white space in the value
/// and all: `key="value with spaces"` is a single token (a key that starts
/// with `/` is a path segment, which ends at white space).
pub proof fn law_quoted_value_is_one_token(key: Seq<char>, value: Seq<char>)
    requires
        forall|i: int| 0 <= i < key.len() ==> !is_ascii_space(#[trigger] key[i]) && key[i] != '"',
        forall|i: int| 0 <= i < value.len() ==> #[trigger] value[i] != '"' && value[i] != '\\',
        key.len() == 0 || key[0] != '/',
    ensures
        tokens(key + seq!['=', '"'] + value + seq!['"']) == Some(
            seq![key + seq!['=', '"'] + value + seq!['"']],
        ),
{
    let s = key + seq!['=', '"'] + value + seq!['"'];
    let q: int = key.len() as int + 1;
    let e: int = s.len() - 1;
    assert forall|k: int| 0 <= k < q implies !is_ascii_space(s[k]) && s[k] != '"' by {
        if k < key.len() {
            assert(s[k] == key[k]);
        } else {
            assert(s[k] == '=');
        }
    }
    assert forall|k: int| q + 1 <= k < e implies s[k] != '"' && s[k] != '\\' by {
        assert(s[k] == value[k - q - 1]);
    }
    assert(s[q] == '"');
    assert(s[e] == '"');
    lemma_word_scan_plain(s, 0, q);
    lemma_quote_scan_plain(s, q + 1, e);
    assert(word_scan(s, q) == s.len());
    assert(s[0] != '"' && s[0] != '/' && !is_ascii_space(s[0]));
    assert(token_end(s, 0) == s.len());
    assert(tokens_from(s, s.len() as int) == Some(Seq::<Seq<char>>::empty()));
    assert(s.subrange(0, s.len() as int) == s);
    assert(seq![s] + Seq::<Seq<char>>::empty() == seq![s]);
}

/// The command text before the cursor neither begins nor ends with white space.
pub proof fn law_before_cursor_is_trimmed(doc: Seq<char>, cursor_line: int, cursor_char: int)
    ensures
        ({
            let t = before_cursor_text(doc, cursor_line, cursor_char);
            t.len() == 0 || (!is_white_space(t[0]) && !is_white_space(t.last()))
        }),
{
    let lines = lines_of(doc);
    if 0 <= cursor_line < lines.len() {
        let current = before_cut(lines[cursor_line], cursor_char);
        let start = command_first_line(lines, cursor_line, current);
        lemma_trimmed_shape(join(lines.subrange(start, cursor_line).push(current), " "@));
    }
}

/// The pieces of `s` between ASCII white-space characters (`str::split`
/// with `u8::is_ascii_whitespace`); there is always at least one.
pub open spec fn split_ascii_space(s: Seq<char>) -> Seq<Seq<char>>
    decreases s.len(),
{
    if s.len() == 0 {
        seq![Seq::<char>::empty()]
    } else {
        let rest = split_ascii_space(s.drop_first());
        if is_ascii_space(s[0]) {
            seq![Seq::<char>::empty()] + rest
        } else {
            rest.update(0, seq![s[0]] + rest[0])
        }
    }
}

/// The non-empty pieces, in order.
pub open spec fn non_empty(pieces: Seq<Seq<char>>) -> Seq<Seq<char>>
    decreases pieces.len(),
{
    if pieces.len() == 0 {
        Seq::empty()
    } else {
        (if pieces[0].len() > 0 {
            seq![pieces[0]]
        } else {
            Seq::empty()
        }) + non_empty(pieces.drop_first())
    }
}

/// The words of `s` as `str::split_ascii_whitespace` gives them.
pub open spec fn ascii_words(s: Seq<char>) -> Seq<Seq<char>> {
    non_empty(split_ascii_space(s))
}

proof fn lemma_split_space_len(s: Seq<char>)
    ensures
        split_ascii_space(s).len() >= 1,
    decreases s.len(),
{
    if s.len() > 0 {
        lemma_split_space_len(s.drop_first());
    }
}

proof fn lemma_split_space_none(a: Seq<char>)
    requires
        forall|k: int| 0 <= k < a.len() ==> !is_ascii_space(a[k]),
    ensures
        split_ascii_space(a) == seq![a],
    decreases a.len(),
{
    if a.len() > 0 {
        let t = a.drop_first();
        assert forall|k: int| 0 <= k < t.len() implies !is_ascii_space(t[k]) by {
            assert(t[k] == a[k + 1]);
        }
        lemma_split_space_none(t);
        assert(seq![a[0]] + t =~= a);
        let rest = split_ascii_space(t);
        assert(rest.update(0, seq![a[0]] + rest[0]) =~= seq![a]);
    } else {
        assert(a =~= Seq::<char>::empty());
    }
}

/// Splitting at a white-space character splits the two sides apart.
proof fn lemma_split_space_concat(a: Seq<char>, c: char, b: Seq<char>)
    requires
        is_ascii_space(c),
    ensures
        split_ascii_space(a + seq![c] + b) == split_ascii_space(a) + split_ascii_space(b),
    decreases a.len(),
{
    let s = a + seq![c] + b;
    if a.len() == 0 {
        assert(s.drop_first() =~= b);
        assert(s[0] == c);
        assert(split_ascii_space(a) == seq![Seq::<char>::empty()]);
    } else {
        let t = a.drop_first();
        assert(s.drop_first() =~= t + seq![c] + b);
        assert(s[0] == a[0]);
        lemma_split_space_concat(t, c, b);
        lemma_split_space_len(t);
        let st = split_ascii_space(t);
        let sb = split_ascii_space(b);
        if is_ascii_space(a[0]) {
            assert(seq![Seq::<char>::empty()] + (st + sb) =~= (seq![Seq::<char>::empty()] + st)
                + sb);
        } else {
            assert((st + sb).update(0, seq![a[0]] + (st + sb)[0]) =~= st.update(
                0,
                seq![a[0]] + st[0],
            ) + sb);
        }
    }
}

proof fn lemma_non_empty_concat(x: Seq<Seq<char>>, y: Seq<Seq<char>>)
    ensures
        non_empty(x + y) == non_empty(x) + non_empty(y),
    decreases x.len(),
{
    if x.len() == 0 {
        assert(x + y =~= y);
    } else {
        assert((x + y).drop_first() =~= x.drop_first() + y);
        assert((x + y)[0] == x[0]);
        lemma_non_empty_concat(x.drop_first(), y);
        let h = if x[0].len() > 0 {
            seq![x[0]]
        } else {
            Seq::<Seq<char>>::empty()
        };
        assert(h + (non_empty(x.drop_first()) + non_empty(y)) =~= (h + non_empty(x.drop_first()))
            + non_empty(y));
    }
}

proof fn lemma_word_scan_no_quote(s: Seq<char>, j: int)
    requires
        0 <= j <= s.len(),
        forall|k: int| 0 <= k < s.len() ==> s[k] != '"',
    ensures
        word_scan(s, j) == plain_scan(s, j),
    decreases s.len() - j,
{
    if j < s.len() && !is_ascii_space(s[j]) {
        lemma_word_scan_no_quote(s, j + 1);
    }
}

proof fn lemma_tokens_are_words(s: Seq<char>, i: int)
    requires
        0 <= i <= s.len(),
        forall|k: int| 0 <= k < s.len() ==> s[k] != '"',
    ensures
        tokens_from(s, i) == Some(ascii_words(s.skip(i))),
    decreases s.len() - i,
{
    let rest = s.skip(i);
    if i == s.len() {
        assert(rest =~= Seq::<char>::empty());
        assert(split_ascii_space(rest) == seq![Seq::<char>::empty()]);
        let one = seq![Seq::<char>::empty()];
        assert(one.drop_first() =~= Seq::<Seq<char>>::empty());
        assert(non_empty(Seq::<Seq<char>>::empty()) == Seq::<Seq<char>>::empty());
        assert(non_empty(one) == Seq::<Seq<char>>::empty() + non_empty(one.drop_first()));
        assert(ascii_words(rest) =~= Seq::<Seq<char>>::empty());
    } else if is_ascii_space(s[i]) {
        lemma_tokens_are_words(s, i + 1);
        assert(rest =~= Seq::<char>::empty() + seq![s[i]] + s.skip(i + 1));
        lemma_split_space_concat(Seq::<char>::empty(), s[i], s.skip(i + 1));
        let sp = split_ascii_space(rest);
        assert(split_ascii_space(Seq::<char>::empty()) == seq![Seq::<char>::empty()]);
        assert(sp.drop_first() =~= split_ascii_space(s.skip(i + 1)));
        assert(sp[0].len() == 0);
        assert(non_empty(sp) =~= non_empty(sp.drop_first()));
    } else {
        lemma_plain_scan_grows(s, i);
        lemma_word_scan_no_quote(s, i);
        let e = plain_scan(s, i);
        assert(token_end(s, i) == e);
        let a = s.subrange(i, e);
        assert(e > i);
        assert forall|k: int| 0 <= k < a.len() implies !is_ascii_space(a[k]) by {
            assert(a[k] == s[i + k]);
        }
        lemma_split_space_none(a);
        assert(non_empty(seq![a]) =~= seq![a]) by {
            assert(seq![a].drop_first() =~= Seq::<Seq<char>>::empty());
            assert(non_empty(Seq::<Seq<char>>::empty()) == Seq::<Seq<char>>::empty());
            assert(a.len() > 0);
            assert(non_empty(seq![a]) == seq![a] + non_empty(seq![a].drop_first()));
        }
        if e == s.len() {
            assert(rest =~= a);
            assert(tokens_from(s, e) == Some(Seq::<Seq<char>>::empty()));
            assert(seq![a] + Seq::<Seq<char>>::empty() =~= seq![a]);
        } else {
            lemma_tokens_are_words(s, e + 1);
            assert(tokens_from(s, e) == tokens_from(s, e + 1));
            assert(rest =~= a + seq![s[e]] + s.skip(e + 1));
            lemma_split_space_concat(a, s[e], s.skip(e + 1));
            lemma_non_empty_concat(seq![a], split_ascii_space(s.skip(e + 1)));
        }
    }
}

/// On text without quotes, the tokens are the words of
/// `str::split_ascii_whitespace`.
pub proof fn law_tokens_without_quotes(text: Seq<char>)
    requires
        forall|k: int| 0 <= k < text.len() ==> text[k] != '"',
    ensures
        tokens(text) == Some(ascii_words(text)),
{
    lemma_tokens_are_words(text, 0);
    assert(text.skip(0) == text);
}

proof fn lemma_command_start_prefix(l1: Seq<Seq<char>>, l2: Seq<Seq<char>>, i: int)
    requires
        -1 <= i,
        i < l1.len(),
        i < l2.len(),
        l1.take(i + 1) == l2.take(i + 1),
    ensures
        command_start(l1, i) == command_start(l2, i),
    decreases i + 1,
{
    if i >= 0 {
        assert(l1[i] == l1.take(i + 1)[i]);
        assert(l2[i] == l2.take(i + 1)[i]);
        assert(l1.take(i) == l1.take(i + 1).take(i));
        assert(l2.take(i) == l2.take(i + 1).take(i));
        lemma_command_start_prefix(l1, l2, i - 1);
    }
}

/// The command text before the cursor depends only on the lines above the
/// cursor's line and on its line up to the cursor: text after the cursor and
/// lines below it never change it.
pub proof fn law_before_cursor_ignores_later_text(
    doc1: Seq<char>,
    doc2: Seq<char>,
    cursor_line: int,
    char1: int,
    char2: int,
)
    requires
        0 <= cursor_line < lines_of(doc1).len(),
        cursor_line < lines_of(doc2).len(),
        lines_of(doc1).take(cursor_line) == lines_of(doc2).take(cursor_line),
        before_cut(lines_of(doc1)[cursor_line], char1) == before_cut(
            lines_of(doc2)[cursor_line],
            char2,
        ),
    ensures
        before_cursor_text(doc1, cursor_line, char1) == before_cursor_text(
            doc2,
            cursor_line,
            char2,
        ),
{
    let l1 = lines_of(doc1);
    let l2 = lines_of(doc2);
    let current = before_cut(l1[cursor_line], char1);
    lemma_command_start_prefix(l1, l2, cursor_line - 1);
    let start = command_first_line(l1, cursor_line, current);
    assert(start == command_first_line(l2, cursor_line, current));
    lemma_command_start_range(l1, cursor_line - 1);
    assert(l1.subrange(start, cursor_line) =~= l1.take(cursor_line).subrange(start, cursor_line));
    assert(l2.subrange(start, cursor_line) =~= l2.take(cursor_line).subrange(start, cursor_line));
}

proof fn lemma_encode_concat(p: Seq<char>, s: Seq<char>)
    ensures
        encode_utf8(p + s) == encode_utf8(p) + encode_utf8(s),
    decreases p.len(),
{
    if p.len() == 0 {
        assert(p + s =~= s);
        assert(encode_utf8(p) + encode_utf8(s) =~= encode_utf8(s));
    } else {
        assert((p + s)[0] == p[0]);
        assert((p + s).drop_first() =~= p.drop_first() + s);
        lemma_encode_concat(p.drop_first(), s);
        assert(encode_scalar(p[0] as u32) + (encode_utf8(p.drop_first()) + encode_utf8(s))
            =~= encode_utf8(p) + encode_utf8(s));
    }
}

/// The same law with the cursor given as a byte offset: a document whose
/// cursor line is the text before the cursor followed by any text, with the
/// lines above unchanged and any lines below, gives the same command text
/// when its cursor sits just after that prefix.
pub proof fn law_before_cursor_ignores_text_after_cursor(
    doc1: Seq<char>,
    doc2: Seq<char>,
    cursor_line: int,
    cursor_char: int,
    rest: Seq<char>,
)
    requires
        0 <= cursor_line < lines_of(doc1).len(),
        cursor_line < lines_of(doc2).len(),
        lines_of(doc1).take(cursor_line) == lines_of(doc2).take(cursor_line),
        lines_of(doc2)[cursor_line] == before_cut(lines_of(doc1)[cursor_line], cursor_char) + rest,
    ensures
        before_cursor_text(
            doc2,
            cursor_line,
            encode_utf8(before_cut(lines_of(doc1)[cursor_line], cursor_char)).len() as int,
        ) == before_cursor_text(doc1, cursor_line, cursor_char),
{
    broadcast use encode_utf8_decode_utf8;

    let p = before_cut(lines_of(doc1)[cursor_line], cursor_char);
    let c2 = encode_utf8(p).len() as int;
    lemma_encode_concat(p, rest);
    let line2 = lines_of(doc2)[cursor_line];
    assert(cut_offset(line2, c2) == c2);
    assert(encode_utf8(line2).subrange(0, c2) =~= encode_utf8(p));
    assert(before_cut(line2, c2) == p);
    law_before_cursor_ignores_later_text(doc1, doc2, cursor_line, cursor_char, c2);
}

/// Every token of `s` from position `i` on ends before the end of `s`.
pub open spec fn tokens_end_inside(s: Seq<char>, i: int) -> bool
    decreases s.len() - i,
{
    if i < 0 || i >= s.len() {
        true
    } else if is_ascii_space(s[i]) {
        tokens_end_inside(s, i + 1)
    } else {
        let e = token_end(s, i);
        proof {
            lemma_quote_scan_grows(s, i + 1);
            lemma_word_scan_grows(s, i);
            lemma_plain_scan_grows(s, i);
        }
        e < s.len() && tokens_end_inside(s, e)
    }
}

/// The text does not end inside an open quoted part: once a space is
/// appended, no token runs into it.
pub open spec fn quotes_closed(s: Seq<char>) -> bool {
    tokens_end_inside(s + seq![' '], 0)
}

proof fn lemma_quote_scan_extend(p: Seq<char>, x: Seq<char>, j: int)
    requires
        0 <= j,
        quote_scan(p, j) < p.len(),
    ensures
        quote_scan(p + x, j) == quote_scan(p, j),
    decreases p.len() - j,
{
    let u = p + x;
    if j < p.len() {
        assert(u[j] == p[j]);
        if p[j] == '\\' {
            if j + 1 < p.len() {
                lemma_quote_scan_extend(p, x, j + 2);
            }
        } else if p[j] != '"' {
            lemma_quote_scan_extend(p, x, j + 1);
        }
    }
}

proof fn lemma_quote_scan_shrink(p: Seq<char>, x: Seq<char>, j: int)
    requires
        0 <= j,
        x.len() > 0,
        quote_scan(p + x, j) <= p.len(),
    ensures
        quote_scan(p, j) == quote_scan(p + x, j),
    decreases p.len() - j,
{
    let u = p + x;
    lemma_quote_scan_grows(u, j);
    if j >= p.len() {
        if j < u.len() {
            lemma_quote_scan_grows(u, j + 1);
            lemma_quote_scan_grows(u, j + 2);
        }
    } else {
        assert(u[j] == p[j]);
        if p[j] == '\\' {
            lemma_quote_scan_grows(u, j + 2);
            lemma_quote_scan_shrink(p, x, j + 2);
        } else if p[j] != '"' {
            lemma_quote_scan_shrink(p, x, j + 1);
        }
    }
}

proof fn lemma_plain_scan_extend(p: Seq<char>, x: Seq<char>, j: int)
    requires
        0 <= j,
        plain_scan(p, j) < p.len(),
    ensures
        plain_scan(p + x, j) == plain_scan(p, j),
    decreases p.len() - j,
{
    if j < p.len() {
        assert((p + x)[j] == p[j]);
        if !is_ascii_space(p[j]) {
            lemma_plain_scan_extend(p, x, j + 1);
        }
    }
}

proof fn lemma_plain_scan_shrink(p: Seq<char>, x: Seq<char>, j: int)
    requires
        0 <= j <= p.len(),
        x.len() > 0,
        plain_scan(p + x, j) <= p.len(),
    ensures
        plain_scan(p, j) == plain_scan(p + x, j),
    decreases p.len() - j,
{
    let u = p + x;
    if j == p.len() {
        assert(u[j] == x[0]);
        if !is_ascii_space(x[0]) {
            lemma_plain_scan_grows(u, j + 1);
        }
    } else {
        assert(u[j] == p[j]);
        if !is_ascii_space(p[j]) {
            lemma_plain_scan_shrink(p, x, j + 1);
        }
    }
}

proof fn lemma_word_scan_extend(p: Seq<char>, x: Seq<char>, j: int)
    requires
        0 <= j,
        word_scan(p, j) < p.len(),
    ensures
        word_scan(p + x, j) == word_scan(p, j),
    decreases p.len() - j,
{
    let u = p + x;
    if j < p.len() {
        assert(u[j] == p[j]);
        if !is_ascii_space(p[j]) {
            if p[j] == '"' {
                let q = quote_scan(p, j + 1);
                lemma_quote_scan_grows(p, j + 1);
                if q < p.len() {
                    lemma_quote_scan_extend(p, x, j + 1);
                    lemma_word_scan_extend(p, x, q);
                }
            } else {
                lemma_word_scan_extend(p, x, j + 1);
            }
        }
    }
}

proof fn lemma_word_scan_shrink(p: Seq<char>, x: Seq<char>, j: int)
    requires
        0 <= j <= p.len(),
        x.len() > 0,
        word_scan(p + x, j) <= p.len(),
    ensures
        word_scan(p, j) == word_scan(p + x, j),
    decreases p.len() - j,
{
    let u = p + x;
    if j == p.len() {
        assert(u[j] == x[0]);
        if !is_ascii_space(x[0]) {
            lemma_quote_scan_grows(u, j + 1);
            if x[0] == '"' {
                let q = quote_scan(u, j + 1);
                if q < u.len() {
                    lemma_word_scan_grows(u, q);
                }
            } else {
                lemma_word_scan_grows(u, j + 1);
            }
        }
    } else {
        assert(u[j] == p[j]);
        if !is_ascii_space(p[j]) {
            if p[j] == '"' {
                let q = quote_scan(u, j + 1);
                lemma_quote_scan_grows(u, j + 1);
                if q < u.len() {
                    lemma_word_scan_grows(u, q);
                    lemma_quote_scan_shrink(p, x, j + 1);
                    if q < p.len() {
                        lemma_word_scan_shrink(p, x, q);
                    }
                }
            } else {
                lemma_word_scan_shrink(p, x, j + 1);
            }
        }
    }
}

proof fn lemma_token_end_extend(p: Seq<char>, x: Seq<char>, i: int)
    requires
        0 <= i < p.len(),
        token_end(p, i) < p.len(),
    ensures
        token_end(p + x, i) == token_end(p, i),
{
    assert((p + x)[i] == p[i]);
    if p[i] == '"' {
        lemma_quote_scan_extend(p, x, i + 1);
    } else if p[i] == '/' {
        lemma_plain_scan_extend(p, x, i);
    } else {
        lemma_word_scan_extend(p, x, i);
    }
}

proof fn lemma_token_end_shrink(p: Seq<char>, x: Seq<char>, i: int)
    requires
        0 <= i < p.len(),
        x.len() > 0,
        token_end(p + x, i) <= p.len(),
    ensures
        token_end(p, i) == token_end(p + x, i),
{
    assert((p + x)[i] == p[i]);
    if p[i] == '"' {
        lemma_quote_scan_shrink(p, x, i + 1);
    } else if p[i] == '/' {
        lemma_plain_scan_shrink(p, x, i);
    } else {
        lemma_word_scan_shrink(p, x, i);
    }
}

/// Where every token from `i` on ends inside `p`, appending `x` only adds the
/// tokens that start in `x`.
proof fn lemma_tokens_extend(p: Seq<char>, x: Seq<char>, i: int)
    requires
        0 <= i <= p.len(),
        tokens_end_inside(p, i),
    ensures
        tokens_from(p, i) is Some,
        tokens_from(p + x, i) == (match tokens_from(p + x, p.len() as int) {
            Some(rest) => Some(tokens_from(p, i)->0 + rest),
            None => None,
        }),
    decreases p.len() - i,
{
    let u = p + x;
    if i == p.len() {
        assert(tokens_from(p, i) == Some(Seq::<Seq<char>>::empty()));
        if let Some(rest) = tokens_from(u, i) {
            assert(Seq::<Seq<char>>::empty() + rest =~= rest);
        }
    } else {
        assert(u[i] == p[i]);
        if is_ascii_space(p[i]) {
            lemma_tokens_extend(p, x, i + 1);
        } else {
            let e = token_end(p, i);
            lemma_token_end_extend(p, x, i);
            lemma_quote_scan_grows(p, i + 1);
            lemma_word_scan_grows(p, i);
            lemma_plain_scan_grows(p, i);
            lemma_tokens_extend(p, x, e);
            assert(u.subrange(i, e) =~= p.subrange(i, e));
            if let Some(rest) = tokens_from(u, p.len() as int) {
                let a = tokens_from(p, e)->0;
                assert(seq![p.subrange(i, e)] + (a + rest) =~= (seq![p.subrange(i, e)] + a)
                    + rest);
            }
        }
    }
}

/// Where no token of `p` from `i` on runs into an appended space, that space
/// changes no token.
proof fn lemma_tokens_space(p: Seq<char>, i: int)
    requires
        0 <= i <= p.len(),
        tokens_end_inside(p + seq![' '], i),
    ensures
        tokens_from(p + seq![' '], i) == tokens_from(p, i),
    decreases p.len() - i,
{
    let u = p + seq![' '];
    if i == p.len() {
        assert(u[i] == ' ');
        assert(is_ascii_space(' '));
        assert(tokens_from(u, i + 1) == Some(Seq::<Seq<char>>::empty()));
    } else {
        assert(u[i] == p[i]);
        if is_ascii_space(p[i]) {
            lemma_tokens_space(p, i + 1);
        } else {
            let e = token_end(u, i);
            lemma_token_end_shrink(p, seq![' '], i);
            lemma_quote_scan_grows(u, i + 1);
            lemma_word_scan_grows(u, i);
            lemma_plain_scan_grows(u, i);
            lemma_tokens_space(p, e);
            assert(u.subrange(i, e) =~= p.subrange(i, e));
        }
    }
}

/// A word without white space or quotes at the end of the text is one token.
proof fn lemma_tokens_last_word(p: Seq<char>, w: Seq<char>)
    requires
        w.len() > 0,
        forall|k: int| 0 <= k < w.len() ==> w[k] != '"' && !is_ascii_space(w[k]),
    ensures
        tokens_from(p + w, p.len() as int) == Some(seq![w]),
{
    let u = p + w;
    let n = p.len() as int;
    assert forall|k: int| n <= k < u.len() implies u[k] != '"' && !is_ascii_space(u[k]) by {
        assert(u[k] == w[k - n]);
    }
    lemma_scans_reach_end(u, n);
    assert(u[n] == w[0]);
    assert(token_end(u, n) == u.len());
    assert(u.subrange(n, u.len() as int) =~= w);
    assert(tokens_from(u, u.len() as int) == Some(Seq::<Seq<char>>::empty()));
    assert(seq![w] + Seq::<Seq<char>>::empty() =~= seq![w]);
}

proof fn lemma_scans_reach_end(u: Seq<char>, j: int)
    requires
        0 <= j <= u.len(),
        forall|k: int| j <= k < u.len() ==> u[k] != '"' && !is_ascii_space(u[k]),
    ensures
        plain_scan(u, j) == u.len(),
        word_scan(u, j) == u.len(),
    decreases u.len() - j,
{
    if j < u.len() {
        lemma_scans_reach_end(u, j + 1);
    }
}

proof fn lemma_quote_scan_shift(u: Seq<char>, w: Seq<char>, j: int)
    requires
        0 <= j,
    ensures
        quote_scan(u + w, j + u.len()) == quote_scan(w, j) + u.len(),
    decreases w.len() - j,
{
    if j < w.len() {
        assert((u + w)[j + u.len()] == w[j]);
        if w[j] == '\\' {
            if j + 1 < w.len() {
                lemma_quote_scan_shift(u, w, j + 2);
            }
        } else if w[j] != '"' {
            lemma_quote_scan_shift(u, w, j + 1);
        }
    }
}

proof fn lemma_plain_scan_shift(u: Seq<char>, w: Seq<char>, j: int)
    requires
        0 <= j,
    ensures
        plain_scan(u + w, j + u.len()) == plain_scan(w, j) + u.len(),
    decreases w.len() - j,
{
    if j < w.len() {
        assert((u + w)[j + u.len()] == w[j]);
        if !is_ascii_space(w[j]) {
            lemma_plain_scan_shift(u, w, j + 1);
        }
    }
}

proof fn lemma_word_scan_shift(u: Seq<char>, w: Seq<char>, j: int)
    requires
        0 <= j,
    ensures
        word_scan(u + w, j + u.len()) == word_scan(w, j) + u.len(),
    decreases w.len() - j,
{
    if j < w.len() {
        assert((u + w)[j + u.len()] == w[j]);
        if !is_ascii_space(w[j]) {
            if w[j] == '"' {
                lemma_quote_scan_shift(u, w, j + 1);
                lemma_quote_scan_grows(w, j + 1);
                let q = quote_scan(w, j + 1);
                if q < w.len() {
                    lemma_word_scan_shift(u, w, q);
                }
            } else {
                lemma_word_scan_shift(u, w, j + 1);
            }
        }
    }
}

/// The tokens of `u + w` that start inside `w` are those of `w` alone.
proof fn lemma_tokens_shift(u: Seq<char>, w: Seq<char>, i: int)
    requires
        0 <= i,
    ensures
        tokens_from(u + w, i + u.len()) == tokens_from(w, i),
    decreases w.len() - i,
{
    let t = u + w;
    let n = u.len() as int;
    if i < w.len() {
        assert(t[i + n] == w[i]);
        if is_ascii_space(w[i]) {
            lemma_tokens_shift(u, w, i + 1);
        } else {
            lemma_quote_scan_shift(u, w, i + 1);
            lemma_plain_scan_shift(u, w, i);
            lemma_word_scan_shift(u, w, i);
            let e = token_end(w, i);
            assert(token_end(t, i + n) == e + n);
            lemma_quote_scan_grows(w, i + 1);
            lemma_word_scan_grows(w, i);
            lemma_plain_scan_grows(w, i);
            if e <= w.len() {
                lemma_tokens_shift(u, w, e);
                assert(t.subrange(i + n, e + n) =~= w.subrange(i, e));
            }
        }
    }
}

/// A word without white space or quotes is one token.
pub proof fn lemma_plain_word_is_one_token(w: Seq<char>)
    requires
        w.len() > 0,
        forall|k: int| 0 <= k < w.len() ==> w[k] != '"' && !is_ascii_space(w[k]),
    ensures
        tokens(w) == Some(seq![w]),
{
    lemma_tokens_last_word(Seq::empty(), w);
    assert(Seq::<char>::empty() + w =~= w);
}

/// On text that does not end inside an open quoted part, text that is one
/// token on its own, appended after a space, becomes one more token.
pub proof fn lemma_tokens_append_word(text: Seq<char>, w: Seq<char>)
    requires
        quotes_closed(text),
        tokens(w) == Some(seq![w]),
    ensures
        tokens(text) is Some,
        tokens(text + seq![' '] + w) == Some(tokens(text)->0.push(w)),
{
    let u = text + seq![' '];
    lemma_tokens_space(text, 0);
    lemma_tokens_extend(u, w, 0);
    lemma_tokens_shift(u, w, 0);
    assert(tokens(text)->0 + seq![w] =~= tokens(text)->0.push(w));
}

/// Text without quotes never ends inside an open quoted part.
pub proof fn lemma_quotes_closed_without_quotes(text: Seq<char>)
    requires
        forall|k: int| 0 <= k < text.len() ==> text[k] != '"',
    ensures
        quotes_closed(text),
{
    let u = text + seq![' '];
    assert forall|k: int| 0 <= k < u.len() implies u[k] != '"' by {
        if k < text.len() {
            assert(u[k] == text[k]);
        }
    }
    lemma_end_inside_without_quotes(u, 0);
}

proof fn lemma_end_inside_without_quotes(u: Seq<char>, i: int)
    requires
        0 <= i <= u.len(),
        u.len() > 0,
        is_ascii_space(u.last()),
        forall|k: int| 0 <= k < u.len() ==> u[k] != '"',
    ensures
        tokens_end_inside(u, i),
    decreases u.len() - i,
{
    if i < u.len() {
        if is_ascii_space(u[i]) {
            lemma_end_inside_without_quotes(u, i + 1);
        } else {
            lemma_plain_scan_grows(u, i);
            lemma_word_scan_no_quote(u, i);
            let e = token_end(u, i);
            assert(u.last() == u[u.len() - 1]);
            assert(e < u.len());
            lemma_end_inside_without_quotes(u, e);
        }
    }
}

} // verus!
