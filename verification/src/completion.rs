//! Completion: every candidate for the position (sub-menus, verbs, arguments),
//! left for the editor to filter; after `property=`, the property's values.
use vstd::prelude::*;
use vstd::string::*;
use crate::menus::{
    find_argument, first_argument, is_command, is_command_child, is_directory, is_directory_child,
    standard_verb_list, standard_verbs, ArgEntry, ChildEntry, FlagEntry, LineContext, MenuData,
};
use crate::script::{
    last_token_of, lemma_tokens_append_word, line_model, parse_line, parse_tokens, path_of,
    quotes_closed, tokenizable, tokens,
};
use crate::text::{
    chars_of, find_char, has_prefix, is_ascii_space, lemma_find_char, lemma_rfind_char, rfind_in, split_at_char, split_char, starts_with,
    str_eq, trim_str, trimmed,
};

verus! {

/// LSP `CompletionItemKind.Function`.
pub const KIND_FUNCTION: i32 = 3;

/// LSP `CompletionItemKind.Property`.
pub const KIND_PROPERTY: i32 = 5;

/// LSP `CompletionItemKind.Class`.
pub const KIND_CLASS: i32 = 9;

/// LSP `CompletionItemKind.EnumMember`.
pub const KIND_ENUM_MEMBER: i32 = 12;

/// LSP `CompletionItemKind.Constant`.
pub const KIND_CONSTANT: i32 = 14;

/// LSP `InsertTextFormat.PlainText`.
pub const FORMAT_PLAIN: i32 = 1;

/// LSP `InsertTextFormat.Snippet`.
pub const FORMAT_SNIPPET: i32 = 2;

/// A completion item, ready to be sent to the editor.
pub struct CompletionItem {
    pub label: String,
    pub kind: Option<i32>,
    pub detail: Option<String>,
    pub insert_text: Option<String>,
    pub insert_text_format: Option<i32>,
}

/// What a completion item says.
pub struct ItemModel {
    pub label: Seq<char>,
    pub kind: i32,
    pub detail: Seq<char>,
    pub insert_text: Seq<char>,
    pub format: i32,
}

/// An item model from its parts.
pub open spec fn model(
    label: Seq<char>,
    kind: i32,
    detail: Seq<char>,
    insert_text: Seq<char>,
    format: i32,
) -> ItemModel {
    ItemModel { label, kind, detail, insert_text, format }
}

/// The item says what the model says (every field is present).
pub open spec fn item_is(item: CompletionItem, m: ItemModel) -> bool {
    &&& item.label@ == m.label
    &&& item.kind == Some(m.kind)
    &&& item.detail is Some && item.detail->0@ == m.detail
    &&& item.insert_text is Some && item.insert_text->0@ == m.insert_text
    &&& item.insert_text_format == Some(m.format)
}

/// The items say, in order, what the models say.
pub open spec fn items_are(items: Seq<CompletionItem>, ms: Seq<ItemModel>) -> bool {
    &&& items.len() == ms.len()
    &&& forall|i: int| 0 <= i < items.len() ==> item_is(#[trigger] items[i], ms[i])
}

/// Root menus: labelled and inserted by their path.
pub open spec fn root_models(data: MenuData) -> Seq<ItemModel> {
    match data.children(Seq::empty()) {
        Some(roots) => Seq::new(
            roots.len(),
            |i: int|
                model(
                    roots[i].path@,
                    KIND_CLASS,
                    "root menu — "@ + roots[i].path@,
                    roots[i].path@,
                    FORMAT_PLAIN,
                ),
        ),
        None => Seq::empty(),
    }
}

/// The children of a path, or none.
pub open spec fn children_or_empty(data: MenuData, path: Seq<char>) -> Seq<ChildEntry> {
    match data.children(path) {
        Some(c) => c,
        None => Seq::empty(),
    }
}

/// Sub-menu items: the directory children, in order.
pub open spec fn sub_menu_models(cs: Seq<ChildEntry>) -> Seq<ItemModel>
    decreases cs.len(),
{
    if cs.len() == 0 {
        Seq::empty()
    } else {
        let prev = sub_menu_models(cs.drop_last());
        let c = cs.last();
        if is_directory(c) {
            prev.push(model(c.name@, KIND_CLASS, "sub-menu — "@ + c.path@, c.name@, FORMAT_PLAIN))
        } else {
            prev
        }
    }
}

/// Action-command items: the command children, in order.
pub open spec fn command_models(cs: Seq<ChildEntry>) -> Seq<ItemModel>
    decreases cs.len(),
{
    if cs.len() == 0 {
        Seq::empty()
    } else {
        let prev = command_models(cs.drop_last());
        let c = cs.last();
        if is_command(c) {
            prev.push(model(c.name@, KIND_FUNCTION, "action command"@, c.name@, FORMAT_PLAIN))
        } else {
            prev
        }
    }
}

/// The standard verbs as items.
pub open spec fn standard_verb_models() -> Seq<ItemModel> {
    Seq::new(
        standard_verbs().len(),
        |i: int|
            model(
                standard_verbs()[i],
                KIND_FUNCTION,
                standard_verbs()[i] + " — standard command"@,
                standard_verbs()[i],
                FORMAT_PLAIN,
            ),
    )
}

/// Verb items: the standard verbs, then the path's action commands.
pub open spec fn verb_models(data: MenuData, path: Seq<char>) -> Seq<ItemModel> {
    standard_verb_models() + command_models(children_or_empty(data, path))
}

/// The detail shown for an argument: its type, or `property` when it has none.
pub open spec fn arg_detail(arg: ArgEntry) -> Seq<char> {
    if arg.arg_type@.len() == 0 {
        "property"@
    } else {
        "type: "@ + arg.arg_type@
    }
}

/// The snippet inserted for an argument: `name=$1`, with the placeholder in
/// quotes for string arguments.
pub open spec fn arg_insert_text(arg: ArgEntry) -> Seq<char> {
    if arg.arg_type@ == "string"@ {
        arg.name@ + "=\""@ + "$1"@ + "\""@
    } else {
        arg.name@ + "="@ + "$1"@
    }
}

/// Argument items: the arguments whose property is not set yet.
pub open spec fn unused_arg_models(args: Seq<ArgEntry>, used: Map<Seq<char>, Seq<char>>) -> Seq<
    ItemModel,
>
    decreases args.len(),
{
    if args.len() == 0 {
        Seq::empty()
    } else {
        let prev = unused_arg_models(args.drop_last(), used);
        let a = args.last();
        if used.contains_key(a.name@) {
            prev
        } else {
            prev.push(
                model(a.name@, KIND_PROPERTY, arg_detail(a), arg_insert_text(a), FORMAT_SNIPPET),
            )
        }
    }
}

/// Flag items.
pub open spec fn flag_models(flags: Seq<FlagEntry>) -> Seq<ItemModel> {
    Seq::new(
        flags.len(),
        |i: int|
            model(
                flags[i].name@,
                KIND_CONSTANT,
                flags[i].name@ + ": "@ + flags[i].description@,
                flags[i].name@,
                FORMAT_PLAIN,
            ),
    )
}

/// Items after a verb: the unused arguments and the flags of the path's menu.
pub open spec fn arg_models(data: MenuData, path: Seq<char>, used: Map<Seq<char>, Seq<char>>) -> Seq<
    ItemModel,
> {
    match data.menu(path) {
        Some(menu) => unused_arg_models(menu.arguments@, used) + flag_models(menu.flags@),
        None => Seq::empty(),
    }
}

/// The values listed in an `enum(a|b|c)` type, trimmed; none for another type.
pub open spec fn enum_values(t: Seq<char>) -> Seq<Seq<char>> {
    if starts_with(t, "enum"@) {
        let rest = trimmed(t.skip("enum"@.len() as int));
        if rest.len() > 0 && rest[0] == '(' {
            let inner = rest.skip(1);
            if inner.len() > 0 && inner.last() == ')' {
                split_char(inner.drop_last(), '|').map_values(|p: Seq<char>| trimmed(p))
            } else {
                Seq::empty()
            }
        } else {
            Seq::empty()
        }
    } else {
        Seq::empty()
    }
}

/// Items for fixed values, all with the same detail.
pub open spec fn fixed_value_models(values: Seq<Seq<char>>, detail: Seq<char>) -> Seq<ItemModel> {
    Seq::new(
        values.len(),
        |i: int| model(values[i], KIND_ENUM_MEMBER, detail, values[i], FORMAT_PLAIN),
    )
}

/// Whether a type is an IP address or prefix.
pub open spec fn is_address_type(t: Seq<char>) -> bool {
    starts_with(t, "ipAddr"@) || starts_with(t, "ipPrefix"@) || t == "address"@
}

/// Value items for an argument: its enum values, the boolean words, common
/// interface names, or a sample address, by its type.
pub open spec fn value_models(arg: ArgEntry) -> Seq<ItemModel> {
    let t = arg.arg_type@;
    let enums = if starts_with(t, "enum"@) {
        fixed_value_models(enum_values(t), "enum value — "@ + t)
    } else {
        Seq::empty()
    };
    let bools = if t == "bool"@ || t == "boolean"@ {
        fixed_value_models(seq!["yes"@, "no"@, "true"@, "false"@], "bool value"@)
    } else {
        Seq::empty()
    };
    let ifaces = if starts_with(t, "iface_enum"@) {
        fixed_value_models(seq!["ether1"@, "bridge"@], "common interface name"@)
    } else {
        Seq::empty()
    };
    let addresses = if is_address_type(t) {
        fixed_value_models(seq!["0.0.0.0/0"@], "type: "@ + t)
    } else {
        Seq::empty()
    };
    enums + bools + ifaces + addresses
}

/// Value items for the property `key` of the path's menu.
pub open spec fn value_completion_models(data: MenuData, path: Seq<char>, key: Seq<char>) -> Seq<
    ItemModel,
> {
    match data.menu(path) {
        Some(menu) => match first_argument(menu.arguments@, key) {
            Some(arg) => value_models(arg),
            None => Seq::empty(),
        },
        None => Seq::empty(),
    }
}

/// The completions for the text before the cursor: root menus when there is
/// no path; the property's values right after `property=`; the arguments and
/// flags once a verb is typed; else the sub-menus and verbs of the path.
pub open spec fn completion_models(data: MenuData, text: Seq<char>) -> Seq<ItemModel> {
    let m = line_model(data, text);
    let path = path_of(m.parts);
    let last = last_token_of(text);
    if path.len() == 0 {
        root_models(data)
    } else if last.len() > 0 && last.last() == '=' {
        value_completion_models(data, path, last.drop_last())
    } else if m.command is Some {
        arg_models(data, path, m.properties)
    } else {
        sub_menu_models(children_or_empty(data, path)) + verb_models(data, path)
    }
}

fn item(label: String, kind: i32, detail: String, insert_text: String, format: i32) -> (it:
    CompletionItem)
    ensures
        item_is(it, model(label@, kind, detail@, insert_text@, format)),
{
    CompletionItem {
        label,
        kind: Some(kind),
        detail: Some(detail),
        insert_text: Some(insert_text),
        insert_text_format: Some(format),
    }
}

fn push_item(items: &mut Vec<CompletionItem>, it: CompletionItem, Ghost(ms): Ghost<Seq<ItemModel>>, Ghost(m): Ghost<ItemModel>)
    requires
        items_are(old(items)@, ms),
        item_is(it, m),
    ensures
        items_are(final(items)@, ms.push(m)),
{
    items.push(it);
    assert forall|i: int| 0 <= i < items@.len() implies item_is(#[trigger] items@[i], ms.push(m)[i]) by {
        if i < ms.len() {
            assert(items@[i] == old(items)@[i]);
        }
    }
}

fn append_items(items: &mut Vec<CompletionItem>, more: Vec<CompletionItem>, Ghost(ms): Ghost<Seq<ItemModel>>, Ghost(ns): Ghost<Seq<ItemModel>>)
    requires
        items_are(old(items)@, ms),
        items_are(more@, ns),
    ensures
        items_are(final(items)@, ms + ns),
{
    let mut more = more;
    let ghost added = more@;
    items.append(&mut more);
    assert forall|i: int| 0 <= i < items@.len() implies item_is(#[trigger] items@[i], (ms + ns)[i]) by {
        if i < ms.len() {
            assert(items@[i] == old(items)@[i]);
        } else {
            assert(items@[i] == added[i - ms.len()]);
        }
    }
}

fn labelled(prefix: &str, text: &str) -> (r: String)
    ensures
        r@ == prefix@ + text@,
{
    String::from_str(prefix).concat(text)
}

fn get_root_completion_items(data: &MenuData) -> (items: Vec<CompletionItem>)
    ensures
        items_are(items@, root_models(*data)),
{
    let root = "";
    proof {
        reveal_strlit("");
        assert(root@ =~= Seq::<char>::empty());
    }
    let mut items: Vec<CompletionItem> = Vec::new();
    match data.children_of(root) {
        Some(roots) => {
            let ghost ms = root_models(*data);
            let mut i: usize = 0;
            while i < roots.len()
                invariant
                    i <= roots@.len(),
                    data.children(Seq::empty()) == Some(roots@),
                    ms == root_models(*data),
                    items_are(items@, ms.take(i as int)),
                decreases roots@.len() - i,
            {
                let r = &roots[i];
                let it = item(
                    r.path.clone(),
                    KIND_CLASS,
                    labelled("root menu — ", r.path.as_str()),
                    r.path.clone(),
                    FORMAT_PLAIN,
                );
                assert(ms.take(i + 1) == ms.take(i as int).push(ms[i as int]));
                push_item(&mut items, it, Ghost(ms.take(i as int)), Ghost(ms[i as int]));
                i = i + 1;
            }
            assert(ms.take(roots@.len() as int) == ms);
        },
        None => {},
    }
    items
}

fn get_sub_menu_completion_items(data: &MenuData, ctx: &LineContext) -> (items: Vec<
    CompletionItem,
>)
    ensures
        items_are(items@, sub_menu_models(children_or_empty(*data, ctx.path@))),
{
    let mut items: Vec<CompletionItem> = Vec::new();
    match data.children_of(ctx.path.as_str()) {
        Some(children) => {
            let ghost cs = children@;
            let mut i: usize = 0;
            while i < children.len()
                invariant
                    i <= cs.len(),
                    cs == children@,
                    items_are(items@, sub_menu_models(cs.take(i as int))),
                decreases cs.len() - i,
            {
                let c = &children[i];
                assert(cs.take(i + 1).drop_last() == cs.take(i as int));
                assert(cs.take(i + 1).last() == *c);
                if is_directory_child(c) {
                    let it = item(
                        c.name.clone(),
                        KIND_CLASS,
                        labelled("sub-menu — ", c.path.as_str()),
                        c.name.clone(),
                        FORMAT_PLAIN,
                    );
                    push_item(
                        &mut items,
                        it,
                        Ghost(sub_menu_models(cs.take(i as int))),
                        Ghost(model(c.name@, KIND_CLASS, "sub-menu — "@ + c.path@, c.name@, FORMAT_PLAIN)),
                    );
                }
                i = i + 1;
            }
            assert(cs.take(cs.len() as int) == cs);
        },
        None => {},
    }
    items
}

fn get_verb_completion_items(data: &MenuData, ctx: &LineContext) -> (items: Vec<CompletionItem>)
    ensures
        items_are(items@, verb_models(*data, ctx.path@)),
{
    let verbs = standard_verb_list();
    let ghost vs = standard_verbs();
    let ghost ms = standard_verb_models();
    let mut items: Vec<CompletionItem> = Vec::new();
    let mut i: usize = 0;
    while i < verbs.len()
        invariant
            i <= verbs@.len(),
            verbs@.map_values(|s: String| s@) == vs,
            vs == standard_verbs(),
            ms == standard_verb_models(),
            items_are(items@, ms.take(i as int)),
        decreases verbs@.len() - i,
    {
        let verb = &verbs[i];
        assert(verb@ == vs[i as int]);
        let it = item(
            verb.clone(),
            KIND_FUNCTION,
            String::from_str(verb.as_str()).concat(" — standard command"),
            verb.clone(),
            FORMAT_PLAIN,
        );
        assert(ms.take(i + 1) == ms.take(i as int).push(ms[i as int]));
        push_item(&mut items, it, Ghost(ms.take(i as int)), Ghost(ms[i as int]));
        i = i + 1;
    }
    assert(ms.take(verbs@.len() as int) == ms);
    match data.children_of(ctx.path.as_str()) {
        Some(children) => {
            let ghost cs = children@;
            let mut k: usize = 0;
            while k < children.len()
                invariant
                    k <= cs.len(),
                    cs == children@,
                    items_are(items@, ms + command_models(cs.take(k as int))),
                decreases cs.len() - k,
            {
                let c = &children[k];
                assert(cs.take(k + 1).drop_last() == cs.take(k as int));
                assert(cs.take(k + 1).last() == *c);
                if is_command_child(c) {
                    let it = item(
                        c.name.clone(),
                        KIND_FUNCTION,
                        String::from_str("action command"),
                        c.name.clone(),
                        FORMAT_PLAIN,
                    );
                    let ghost m = model(c.name@, KIND_FUNCTION, "action command"@, c.name@, FORMAT_PLAIN);
                    push_item(&mut items, it, Ghost(ms + command_models(cs.take(k as int))), Ghost(m));
                    assert((ms + command_models(cs.take(k as int))).push(m) == ms + command_models(
                        cs.take(k + 1),
                    ));
                }
                k = k + 1;
            }
            assert(cs.take(cs.len() as int) == cs);
        },
        None => {
            assert(ms + Seq::<ItemModel>::empty() == ms);
        },
    }
    items
}

/// The snippet inserted for an argument.
pub fn get_insert_text(arg: &ArgEntry) -> (r: String)
    ensures
        r@ == arg_insert_text(*arg),
{
    if str_eq(arg.arg_type.as_str(), "string") {
        String::from_str(arg.name.as_str()).concat("=\"").concat("$1").concat("\"")
    } else {
        String::from_str(arg.name.as_str()).concat("=").concat("$1")
    }
}

/// The detail shown for an argument.
pub fn get_detail(arg: &ArgEntry) -> (r: String)
    ensures
        r@ == arg_detail(*arg),
{
    if arg.arg_type.as_str().unicode_len() == 0 {
        String::from_str("property")
    } else {
        String::from_str("type: ").concat(arg.arg_type.as_str())
    }
}

fn get_arg_completion_items(data: &MenuData, ctx: &LineContext) -> (items: Vec<CompletionItem>)
    ensures
        items_are(items@, arg_models(*data, ctx.path@, ctx.properties@)),
{
    let mut items: Vec<CompletionItem> = Vec::new();
    let menu = match data.menu_by_path(ctx.path.as_str()) {
        Some(m) => m,
        None => {
            return items;
        },
    };
    let ghost args = menu.arguments@;
    let ghost used = ctx.properties@;
    let mut i: usize = 0;
    while i < menu.arguments.len()
        invariant
            i <= args.len(),
            args == menu.arguments@,
            used == ctx.properties@,
            items_are(items@, unused_arg_models(args.take(i as int), used)),
        decreases args.len() - i,
    {
        let arg = &menu.arguments[i];
        assert(args.take(i + 1).drop_last() == args.take(i as int));
        assert(args.take(i + 1).last() == *arg);
        if !ctx.properties.contains_key(arg.name.as_str()) {
            let it = item(
                arg.name.clone(),
                KIND_PROPERTY,
                get_detail(arg),
                get_insert_text(arg),
                FORMAT_SNIPPET,
            );
            push_item(
                &mut items,
                it,
                Ghost(unused_arg_models(args.take(i as int), used)),
                Ghost(model(arg.name@, KIND_PROPERTY, arg_detail(*arg), arg_insert_text(*arg), FORMAT_SNIPPET)),
            );
        }
        i = i + 1;
    }
    assert(args.take(args.len() as int) == args);
    let ghost base = unused_arg_models(args, used);
    let ghost fs = flag_models(menu.flags@);
    let mut k: usize = 0;
    while k < menu.flags.len()
        invariant
            k <= menu.flags@.len(),
            fs == flag_models(menu.flags@),
            items_are(items@, base + fs.take(k as int)),
        decreases menu.flags@.len() - k,
    {
        let flag = &menu.flags[k];
        let detail = String::from_str(flag.name.as_str()).concat(": ").concat(
            flag.description.as_str(),
        );
        let it = item(flag.name.clone(), KIND_CONSTANT, detail, flag.name.clone(), FORMAT_PLAIN);
        push_item(&mut items, it, Ghost(base + fs.take(k as int)), Ghost(fs[k as int]));
        assert((base + fs.take(k as int)).push(fs[k as int]) == base + fs.take(k + 1));
        k = k + 1;
    }
    assert(fs.take(menu.flags@.len() as int) == fs);
    items
}

/// The values listed in an `enum(a|b|c)` type, each trimmed; none when the
/// type is not of that form.
pub fn parse_enum_values(type_str: &str) -> (values: Vec<String>)
    ensures
        values@.map_values(|v: String| v@) == enum_values(type_str@),
{
    let mut values: Vec<String> = Vec::new();
    if !has_prefix(type_str, "enum") {
        return values;
    }
    let n = type_str.unicode_len();
    let k = "enum".unicode_len();
    let rest = trim_str(type_str.substring_char(k, n));
    assert(type_str@.skip(k as int) == type_str@.subrange(k as int, n as int));
    let rn = rest.unicode_len();
    if rn == 0 || rest.get_char(0) != '(' {
        return values;
    }
    let inner = rest.substring_char(1, rn);
    assert(rest@.skip(1) == rest@.subrange(1, rn as int));
    let inner_len = rn - 1;
    if inner_len == 0 || inner.get_char(inner_len - 1) != ')' {
        return values;
    }
    let body = inner.substring_char(0, inner_len - 1);
    assert(inner@.drop_last() == inner@.subrange(0, inner_len - 1));
    let pieces = split_at_char(body, '|');
    let ghost pv = pieces@.map_values(|x: String| x@);
    let mut i: usize = 0;
    while i < pieces.len()
        invariant
            i <= pieces@.len(),
            pv == pieces@.map_values(|x: String| x@),
            values@.map_values(|v: String| v@) == pv.take(i as int).map_values(
                |p: Seq<char>| trimmed(p),
            ),
        decreases pieces@.len() - i,
    {
        let v = String::from_str(trim_str(pieces[i].as_str()));
        let ghost before = values@.map_values(|v: String| v@);
        values.push(v);
        assert(values@.map_values(|v: String| v@) == before.push(v@));
        assert(pv.take(i + 1).map_values(|p: Seq<char>| trimmed(p)) == pv.take(i as int).map_values(
            |p: Seq<char>| trimmed(p),
        ).push(trimmed(pv[i as int])));
        i = i + 1;
    }
    assert(pv.take(pieces@.len() as int) == pv);
    values
}

fn push_values(
    items: &mut Vec<CompletionItem>,
    values: &Vec<String>,
    detail: &str,
    Ghost(ms): Ghost<Seq<ItemModel>>,
)
    requires
        items_are(old(items)@, ms),
    ensures
        items_are(
            final(items)@,
            ms + fixed_value_models(values@.map_values(|v: String| v@), detail@),
        ),
{
    let ghost fs = fixed_value_models(values@.map_values(|v: String| v@), detail@);
    let mut i: usize = 0;
    assert(ms + fs.take(0) == ms);
    while i < values.len()
        invariant
            i <= values@.len(),
            fs == fixed_value_models(values@.map_values(|v: String| v@), detail@),
            items_are(items@, ms + fs.take(i as int)),
        decreases values@.len() - i,
    {
        let v = &values[i];
        let it = item(v.clone(), KIND_ENUM_MEMBER, String::from_str(detail), v.clone(), FORMAT_PLAIN);
        push_item(items, it, Ghost(ms + fs.take(i as int)), Ghost(fs[i as int]));
        assert((ms + fs.take(i as int)).push(fs[i as int]) == ms + fs.take(i + 1));
        i = i + 1;
    }
    assert(fs.take(values@.len() as int) == fs);
}

fn strings(words: Vec<&str>) -> (v: Vec<String>)
    ensures
        v@.map_values(|s: String| s@) == words@.map_values(|w: &str| w@),
{
    let mut v: Vec<String> = Vec::new();
    let mut i: usize = 0;
    while i < words.len()
        invariant
            i <= words@.len(),
            v@.map_values(|s: String| s@) == words@.take(i as int).map_values(|w: &str| w@),
        decreases words@.len() - i,
    {
        let ghost before = v@.map_values(|s: String| s@);
        v.push(String::from_str(words[i]));
        assert(v@.map_values(|s: String| s@) == before.push(words@[i as int]@));
        assert(words@.take(i + 1).map_values(|w: &str| w@) == words@.take(i as int).map_values(
            |w: &str| w@,
        ).push(words@[i as int]@));
        i = i + 1;
    }
    assert(words@.take(words@.len() as int) == words@);
    v
}

fn get_value_completions(data: &MenuData, ctx: &LineContext, property_key: &str) -> (items: Vec<
    CompletionItem,
>)
    ensures
        items_are(items@, value_completion_models(*data, ctx.path@, property_key@)),
{
    let mut items: Vec<CompletionItem> = Vec::new();
    let menu = match data.menu_by_path(ctx.path.as_str()) {
        Some(m) => m,
        None => {
            return items;
        },
    };
    let arg = match find_argument(&menu.arguments, property_key) {
        Some(a) => a,
        None => {
            return items;
        },
    };
    let t = arg.arg_type.as_str();
    let ghost empty = Seq::<ItemModel>::empty();
    let ghost enums = if starts_with(t@, "enum"@) {
        fixed_value_models(enum_values(t@), "enum value — "@ + t@)
    } else {
        Seq::empty()
    };
    if has_prefix(t, "enum") {
        let vals = parse_enum_values(t);
        let detail = String::from_str("enum value — ").concat(t);
        push_values(&mut items, &vals, detail.as_str(), Ghost(empty));
    }
    assert(empty + enums == enums);
    let ghost bools = if t@ == "bool"@ || t@ == "boolean"@ {
        fixed_value_models(seq!["yes"@, "no"@, "true"@, "false"@], "bool value"@)
    } else {
        Seq::empty()
    };
    if str_eq(t, "bool") || str_eq(t, "boolean") {
        let vals = strings(vec!["yes", "no", "true", "false"]);
        push_values(&mut items, &vals, "bool value", Ghost(enums));
    } else {
        assert(enums + bools == enums);
    }
    let ghost ifaces = if starts_with(t@, "iface_enum"@) {
        fixed_value_models(seq!["ether1"@, "bridge"@], "common interface name"@)
    } else {
        Seq::empty()
    };
    if has_prefix(t, "iface_enum") {
        let vals = strings(vec!["ether1", "bridge"]);
        push_values(&mut items, &vals, "common interface name", Ghost(enums + bools));
    } else {
        assert(enums + bools + ifaces == enums + bools);
    }
    let ghost addresses = if is_address_type(t@) {
        fixed_value_models(seq!["0.0.0.0/0"@], "type: "@ + t@)
    } else {
        Seq::empty()
    };
    if has_prefix(t, "ipAddr") || has_prefix(t, "ipPrefix") || str_eq(t, "address") {
        let vals = strings(vec!["0.0.0.0/0"]);
        let detail = String::from_str("type: ").concat(t);
        push_values(&mut items, &vals, detail.as_str(), Ghost(enums + bools + ifaces));
    } else {
        assert(enums + bools + ifaces + addresses == enums + bools + ifaces);
    }
    items
}

/// Computes the completions for the text before the cursor: root menus when
/// no path is typed; the property's values right after `property=`; the
/// arguments and flags once a verb is typed; else the sub-menus and verbs.
pub fn compute_completions(data: &MenuData, before_cursor: &str) -> (items: Vec<CompletionItem>)
    requires
        tokenizable(before_cursor@),
    ensures
        items_are(items@, completion_models(*data, before_cursor@)),
{
    let context = parse_line(data, before_cursor);
    if context.path.as_str().unicode_len() == 0 {
        return get_root_completion_items(data);
    }
    let last = chars_of(context.last_token.as_str());
    proof {
        lemma_rfind_char(last@, '=');
    }
    if let Some(eq_pos) = rfind_in(&last, '=') {
        if eq_pos == last.len() - 1 {
            let key = context.last_token.as_str().substring_char(0, eq_pos);
            assert(last@.drop_last() == last@.subrange(0, eq_pos as int));
            return get_value_completions(data, &context, key);
        }
    }
    if context.command.is_some() {
        return get_arg_completion_items(data, &context);
    }
    let mut items = get_sub_menu_completion_items(data, &context);
    let verbs = get_verb_completion_items(data, &context);
    append_items(
        &mut items,
        verbs,
        Ghost(sub_menu_models(children_or_empty(*data, context.path@))),
        Ghost(verb_models(*data, context.path@)),
    );
    items
}

proof fn lemma_unused_args_unused(args: Seq<ArgEntry>, used: Map<Seq<char>, Seq<char>>)
    ensures
        forall|i: int|
            0 <= i < unused_arg_models(args, used).len() ==> (#[trigger] unused_arg_models(
                args,
                used,
            )[i]).kind == KIND_PROPERTY && !used.contains_key(unused_arg_models(args, used)[i].label),
    decreases args.len(),
{
    if args.len() > 0 {
        lemma_unused_args_unused(args.drop_last(), used);
        let prev = unused_arg_models(args.drop_last(), used);
        let r = unused_arg_models(args, used);
        assert forall|i: int| 0 <= i < r.len() implies (#[trigger] r[i]).kind == KIND_PROPERTY
            && !used.contains_key(r[i].label) by {
            if i < prev.len() {
                assert(r[i] == prev[i]);
            }
        }
    }
}

proof fn lemma_sub_menu_kinds(cs: Seq<ChildEntry>)
    ensures
        forall|i: int|
            0 <= i < sub_menu_models(cs).len() ==> (#[trigger] sub_menu_models(cs)[i]).kind
                == KIND_CLASS,
    decreases cs.len(),
{
    if cs.len() > 0 {
        lemma_sub_menu_kinds(cs.drop_last());
        let prev = sub_menu_models(cs.drop_last());
        let r = sub_menu_models(cs);
        assert forall|i: int| 0 <= i < r.len() implies (#[trigger] r[i]).kind == KIND_CLASS by {
            if i < prev.len() {
                assert(r[i] == prev[i]);
            }
        }
    }
}

proof fn lemma_command_kinds(cs: Seq<ChildEntry>)
    ensures
        forall|i: int|
            0 <= i < command_models(cs).len() ==> (#[trigger] command_models(cs)[i]).kind
                == KIND_FUNCTION,
    decreases cs.len(),
{
    if cs.len() > 0 {
        lemma_command_kinds(cs.drop_last());
        let prev = command_models(cs.drop_last());
        let r = command_models(cs);
        assert forall|i: int| 0 <= i < r.len() implies (#[trigger] r[i]).kind == KIND_FUNCTION by {
            if i < prev.len() {
                assert(r[i] == prev[i]);
            }
        }
    }
}

/// A property that the line already sets is never offered again: every
/// property item names a property that the line does not set yet.
pub proof fn law_set_properties_not_offered(data: MenuData, text: Seq<char>)
    requires
        tokenizable(text),
    ensures
        forall|i: int|
            0 <= i < completion_models(data, text).len() && (#[trigger] completion_models(
                data,
                text,
            )[i]).kind == KIND_PROPERTY ==> !line_model(data, text).properties.contains_key(
                completion_models(data, text)[i].label,
            ),
{
    let m = line_model(data, text);
    let path = path_of(m.parts);
    let last = last_token_of(text);
    let r = completion_models(data, text);
    if path.len() == 0 {
    } else if last.len() > 0 && last.last() == '=' {
    } else if m.command is Some {
        if let Some(menu) = data.menu(path) {
            lemma_unused_args_unused(menu.arguments@, m.properties);
            let a = unused_arg_models(menu.arguments@, m.properties);
            assert forall|i: int| 0 <= i < r.len() && (#[trigger] r[i]).kind == KIND_PROPERTY
                implies !m.properties.contains_key(r[i].label) by {
                if i < a.len() {
                    assert(r[i] == a[i]);
                } else {
                    assert(r[i] == flag_models(menu.flags@)[i - a.len()]);
                }
            }
        }
    } else {
        let cs = children_or_empty(data, path);
        lemma_sub_menu_kinds(cs);
        lemma_command_kinds(cs);
        let sm = sub_menu_models(cs);
        let vm = verb_models(data, path);
        assert forall|i: int| 0 <= i < r.len() implies (#[trigger] r[i]).kind != KIND_PROPERTY by {
            if i < sm.len() {
                assert(r[i] == sm[i]);
            } else {
                let k = i - sm.len();
                assert(r[i] == vm[k]);
                let sv = standard_verb_models();
                if k < sv.len() {
                    assert(vm[k] == sv[k]);
                } else {
                    assert(vm[k] == command_models(cs)[k - sv.len()]);
                }
            }
        }
    }
}

/// Right after `property=` on a menu path, only values are offered: every
/// item is an enum member.
pub proof fn law_only_values_after_equals(data: MenuData, text: Seq<char>)
    requires
        tokenizable(text),
        path_of(line_model(data, text).parts).len() > 0,
        last_token_of(text).len() > 0,
        last_token_of(text).last() == '=',
    ensures
        forall|i: int|
            0 <= i < completion_models(data, text).len() ==> (#[trigger] completion_models(
                data,
                text,
            )[i]).kind == KIND_ENUM_MEMBER,
{
    let m = line_model(data, text);
    let path = path_of(m.parts);
    let key = last_token_of(text).drop_last();
    let r = completion_models(data, text);
    assert(r == value_completion_models(data, path, key));
    if let Some(menu) = data.menu(path) {
        if let Some(arg) = first_argument(menu.arguments@, key) {
            let t = arg.arg_type@;
            let e = if starts_with(t, "enum"@) {
                fixed_value_models(enum_values(t), "enum value — "@ + t)
            } else {
                Seq::empty()
            };
            let b = if t == "bool"@ || t == "boolean"@ {
                fixed_value_models(seq!["yes"@, "no"@, "true"@, "false"@], "bool value"@)
            } else {
                Seq::empty()
            };
            let f = if starts_with(t, "iface_enum"@) {
                fixed_value_models(seq!["ether1"@, "bridge"@], "common interface name"@)
            } else {
                Seq::empty()
            };
            let a = if is_address_type(t) {
                fixed_value_models(seq!["0.0.0.0/0"@], "type: "@ + t)
            } else {
                Seq::empty()
            };
            assert(r == e + b + f + a);
            assert forall|i: int| 0 <= i < r.len() implies (#[trigger] r[i]).kind
                == KIND_ENUM_MEMBER by {
                if i < e.len() {
                    assert(r[i] == e[i]);
                } else if i < e.len() + b.len() {
                    assert(r[i] == b[i - e.len()]);
                } else if i < e.len() + b.len() + f.len() {
                    assert(r[i] == f[i - e.len() - b.len()]);
                } else {
                    assert(r[i] == a[i - e.len() - b.len() - f.len()]);
                }
            }
        }
    }
}

/// Once a verb is typed after a menu path (and the last token is not
/// `property=`), only the menu's properties and flags are offered.
pub proof fn law_only_arguments_after_verb(data: MenuData, text: Seq<char>)
    requires
        tokenizable(text),
        path_of(line_model(data, text).parts).len() > 0,
        !(last_token_of(text).len() > 0 && last_token_of(text).last() == '='),
        line_model(data, text).command is Some,
    ensures
        forall|i: int|
            0 <= i < completion_models(data, text).len() ==> (#[trigger] completion_models(
                data,
                text,
            )[i]).kind == KIND_PROPERTY || completion_models(data, text)[i].kind == KIND_CONSTANT,
{
    let m = line_model(data, text);
    let path = path_of(m.parts);
    let r = completion_models(data, text);
    if let Some(menu) = data.menu(path) {
        lemma_unused_args_unused(menu.arguments@, m.properties);
        let a = unused_arg_models(menu.arguments@, m.properties);
        assert forall|i: int| 0 <= i < r.len() implies (#[trigger] r[i]).kind == KIND_PROPERTY
            || r[i].kind == KIND_CONSTANT by {
            if i < a.len() {
                assert(r[i] == a[i]);
            } else {
                assert(r[i] == flag_models(menu.flags@)[i - a.len()]);
            }
        }
    }
}

/// Without a menu path, only root menus are offered, one per root.
pub proof fn law_only_roots_without_path(data: MenuData, text: Seq<char>)
    requires
        tokenizable(text),
        path_of(line_model(data, text).parts).len() == 0,
    ensures
        completion_models(data, text).len() == children_or_empty(data, Seq::empty()).len(),
        forall|i: int|
            0 <= i < completion_models(data, text).len() ==> (#[trigger] completion_models(
                data,
                text,
            )[i]).kind == KIND_CLASS && completion_models(data, text)[i].label == children_or_empty(
                data,
                Seq::empty(),
            )[i].path@,
{
}

proof fn lemma_sub_menu_items(cs: Seq<ChildEntry>)
    ensures
        forall|i: int|
            0 <= i < sub_menu_models(cs).len() ==> {
                &&& (#[trigger] sub_menu_models(cs)[i]).kind == KIND_CLASS
                &&& sub_menu_models(cs)[i].insert_text == sub_menu_models(cs)[i].label
                &&& exists|j: int| 0 <= j < cs.len() && cs[j].name@ == sub_menu_models(cs)[i].label
            },
    decreases cs.len(),
{
    if cs.len() > 0 {
        let d = cs.drop_last();
        lemma_sub_menu_items(d);
        let r = sub_menu_models(cs);
        let p = sub_menu_models(d);
        assert forall|i: int| 0 <= i < r.len() implies {
            &&& (#[trigger] r[i]).kind == KIND_CLASS
            &&& r[i].insert_text == r[i].label
            &&& exists|j: int| 0 <= j < cs.len() && cs[j].name@ == r[i].label
        } by {
            if i < p.len() {
                assert(r[i] == p[i]);
                let j = choose|j: int| 0 <= j < d.len() && d[j].name@ == p[i].label;
                assert(cs[j] == d[j]);
            } else {
                assert(cs[cs.len() - 1].name@ == r[i].label);
            }
        }
    }
}

proof fn lemma_command_items(cs: Seq<ChildEntry>)
    ensures
        forall|i: int|
            0 <= i < command_models(cs).len() ==> (#[trigger] command_models(cs)[i]).kind
                == KIND_FUNCTION,
    decreases cs.len(),
{
    if cs.len() > 0 {
        lemma_command_items(cs.drop_last());
        let r = command_models(cs);
        let p = command_models(cs.drop_last());
        assert forall|i: int| 0 <= i < r.len() implies (#[trigger] r[i]).kind == KIND_FUNCTION by {
            if i < p.len() {
                assert(r[i] == p[i]);
            }
        }
    }
}

/// The sub-menus offered after a path are the children typed `Directory` or
/// `Settings Directory`, in the order of the table, each labelled with its name.
pub proof fn law_sub_menus_are_the_directory_children(cs: Seq<ChildEntry>)
    ensures
        sub_menu_models(cs).map_values(|m: ItemModel| m.label) == cs.filter_map(
            |c: ChildEntry|
                if c.menu_type@ == "Directory"@ || c.menu_type@ == "Settings Directory"@ {
                    Some(c.name@)
                } else {
                    None
                },
        ),
    decreases cs.len(),
{
    if cs.len() > 0 {
        law_sub_menus_are_the_directory_children(cs.drop_last());
        let p = sub_menu_models(cs.drop_last());
        let c = cs.last();
        if is_directory(c) {
            let m = model(c.name@, KIND_CLASS, "sub-menu — "@ + c.path@, c.name@, FORMAT_PLAIN);
            assert(p.push(m).map_values(|m: ItemModel| m.label) =~= p.map_values(
                |m: ItemModel| m.label,
            ) + seq![c.name@]);
        }
    } else {
        assert(sub_menu_models(cs).map_values(|m: ItemModel| m.label) =~= Seq::<Seq<char>>::empty());
    }
}

/// Every menu item (a root menu or a sub-menu) inserts exactly its label, so
/// accepting it adds one path segment; after a menu path, each sub-menu item
/// is labelled with the name of a child of that path.
pub proof fn law_menu_items_insert_their_label(data: MenuData, text: Seq<char>)
    requires
        tokenizable(text),
    ensures
        forall|i: int|
            0 <= i < completion_models(data, text).len() && (#[trigger] completion_models(
                data,
                text,
            )[i]).kind == KIND_CLASS ==> completion_models(data, text)[i].insert_text
                == completion_models(data, text)[i].label,
        path_of(line_model(data, text).parts).len() > 0 ==> forall|i: int|
            0 <= i < completion_models(data, text).len() && (#[trigger] completion_models(
                data,
                text,
            )[i]).kind == KIND_CLASS ==> exists|j: int|
                0 <= j < children_or_empty(data, path_of(line_model(data, text).parts)).len()
                    && children_or_empty(data, path_of(line_model(data, text).parts))[j].name@
                    == completion_models(data, text)[i].label,
{
    let m = line_model(data, text);
    let path = path_of(m.parts);
    let last = last_token_of(text);
    let r = completion_models(data, text);
    if path.len() == 0 {
    } else if last.len() > 0 && last.last() == '=' {
        law_only_values_after_equals(data, text);
    } else if m.command is Some {
        law_only_arguments_after_verb(data, text);
    } else {
        let cs = children_or_empty(data, path);
        let a = sub_menu_models(cs);
        let v = verb_models(data, path);
        lemma_sub_menu_items(cs);
        lemma_command_items(cs);
        assert(r == a + v);
        assert forall|i: int| 0 <= i < r.len() && (#[trigger] r[i]).kind == KIND_CLASS implies {
            &&& r[i].insert_text == r[i].label
            &&& exists|j: int| 0 <= j < cs.len() && cs[j].name@ == r[i].label
        } by {
            if i < a.len() {
                assert(r[i] == a[i]);
            } else {
                let k = i - a.len();
                assert(r[i] == v[k]);
                if k < standard_verb_models().len() {
                    assert(v[k] == standard_verb_models()[k]);
                } else {
                    assert(v[k] == command_models(cs)[k - standard_verb_models().len()]);
                }
            }
        }
    }
}

/// The models without the property items labelled `k`.
pub open spec fn without_property(ms: Seq<ItemModel>, k: Seq<char>) -> Seq<ItemModel>
    decreases ms.len(),
{
    if ms.len() == 0 {
        Seq::empty()
    } else {
        let prev = without_property(ms.drop_last(), k);
        if ms.last().kind == KIND_PROPERTY && ms.last().label == k {
            prev
        } else {
            prev.push(ms.last())
        }
    }
}

proof fn lemma_unused_args_insert(
    args: Seq<ArgEntry>,
    used: Map<Seq<char>, Seq<char>>,
    k: Seq<char>,
    v: Seq<char>,
)
    ensures
        unused_arg_models(args, used.insert(k, v)) == without_property(
            unused_arg_models(args, used),
            k,
        ),
    decreases args.len(),
{
    if args.len() > 0 {
        lemma_unused_args_insert(args.drop_last(), used, k, v);
        let a = args.last();
        let prev = unused_arg_models(args.drop_last(), used);
        if !used.contains_key(a.name@) {
            let m = model(a.name@, KIND_PROPERTY, arg_detail(a), arg_insert_text(a), FORMAT_SNIPPET);
            assert(prev.push(m).drop_last() == prev);
        }
    }
}

proof fn lemma_without_property_keeps(a: Seq<ItemModel>, f: Seq<ItemModel>, k: Seq<char>)
    requires
        forall|i: int| 0 <= i < f.len() ==> (#[trigger] f[i]).kind != KIND_PROPERTY,
    ensures
        without_property(a + f, k) == without_property(a, k) + f,
    decreases f.len(),
{
    if f.len() == 0 {
        assert(a + f =~= a);
        assert(without_property(a, k) + f =~= without_property(a, k));
    } else {
        let fd = f.drop_last();
        assert forall|i: int| 0 <= i < fd.len() implies (#[trigger] fd[i]).kind != KIND_PROPERTY by {
            assert(fd[i] == f[i]);
        }
        lemma_without_property_keeps(a, fd, k);
        assert((a + f).drop_last() =~= a + fd);
        assert((a + f).last() == f.last());
        assert(f.last().kind != KIND_PROPERTY);
        assert((without_property(a, k) + fd).push(f.last()) =~= without_property(a, k) + f);
    }
}

/// An argument given on the line (`k=v` after a verb) is no longer offered:
/// the completions lose exactly the property items labelled `k`, and every
/// other item stays, in the same order. This holds where the line before does
/// not end inside an open quoted part and `k=v` on its own is one token.
pub proof fn law_given_argument_not_offered_again(
    data: MenuData,
    before: Seq<char>,
    k: Seq<char>,
    v: Seq<char>,
)
    requires
        quotes_closed(before),
        path_of(line_model(data, before).parts).len() > 0,
        line_model(data, before).command is Some,
        !(last_token_of(before).len() > 0 && last_token_of(before).last() == '='),
        forall|i: int| 0 <= i < k.len() ==> k[i] != '=',
        k.len() == 0 || k[0] != '/',
        v.len() > 0,
        v.last() != '=',
        tokens(k + seq!['='] + v) == Some(seq![k + seq!['='] + v]),
    ensures
        completion_models(data, before + seq![' '] + (k + seq!['='] + v)) == without_property(
            completion_models(data, before),
            k,
        ),
{
    let kv = k + seq!['='] + v;
    let after = before + seq![' '] + kv;
    lemma_tokens_append_word(before, kv);
    let t1 = tokens(before)->0;
    let t2 = tokens(after)->0;
    assert(t2 == t1.push(kv));
    assert(t2.drop_last() == t1);
    let m1 = line_model(data, before);
    let m2 = line_model(data, after);
    assert(kv[0] != '/');
    lemma_find_char(kv, '=');
    assert(kv[k.len() as int] == '=');
    assert forall|i: int| 0 <= i < k.len() implies kv[i] != '=' by {
        assert(kv[i] == k[i]);
    }
    assert(find_char(kv, '=') == Some(k.len() as int));
    assert(kv.take(k.len() as int) =~= k);
    assert(kv.skip(k.len() as int + 1) =~= v);
    assert(m2.parts == m1.parts);
    assert(m2.command == m1.command);
    assert(m2.properties == m1.properties.insert(k, v));
    assert(last_token_of(after) == kv);
    assert(kv.last() == v.last());
    let path = path_of(m1.parts);
    if let Some(menu) = data.menu(path) {
        lemma_unused_args_insert(menu.arguments@, m1.properties, k, v);
        let f = flag_models(menu.flags@);
        lemma_without_property_keeps(unused_arg_models(menu.arguments@, m1.properties), f, k);
    } else {
        assert(without_property(Seq::<ItemModel>::empty(), k) == Seq::<ItemModel>::empty());
    }
}

} // verus!
