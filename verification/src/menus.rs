//! The command table: menus with their arguments and flags, the children of
//! each menu path, the standard verbs, and the structure of a parsed line.
use vstd::prelude::*;
use vstd::string::*;
use crate::string_map::StringMap;
use crate::text::str_eq;

verus! {

/// An argument (property) of a menu, with its type description
/// (such as `string`, `bool` or `enum(a|b)`), possibly empty.
pub struct ArgEntry {
    pub name: String,
    pub arg_type: String,
}

/// A flag of a menu, with its description.
pub struct FlagEntry {
    pub name: String,
    pub description: String,
}

/// A child of a menu path: its last path segment, its full path and its
/// type (`Directory`, `Settings Directory`, `Command`, ...).
pub struct ChildEntry {
    pub name: String,
    pub path: String,
    pub menu_type: String,
}

/// A menu of the command table, found by its full path.
pub struct MenuEntry {
    pub path: String,
    pub menu_type: String,
    pub arguments: Vec<ArgEntry>,
    pub flags: Vec<FlagEntry>,
}

/// The children of one parent path.
pub struct ChildList {
    pub parent: String,
    pub children: Vec<ChildEntry>,
}

/// The command table, with two maps keyed by path: menus by their path, and
/// children by their parent's path (the root menus under the empty path).
pub struct MenuData {
    menus: Vec<MenuEntry>,
    child_lists: Vec<ChildList>,
}

/// The menu that `menus` maps `path` to: the first one with that path.
pub open spec fn lookup_menu(menus: Seq<MenuEntry>, path: Seq<char>) -> Option<MenuEntry>
    decreases menus.len(),
{
    if menus.len() == 0 {
        None
    } else if menus[0].path@ == path {
        Some(menus[0])
    } else {
        lookup_menu(menus.drop_first(), path)
    }
}

/// The children that `lists` maps `parent` to: those of the first list for that parent.
pub open spec fn lookup_children(lists: Seq<ChildList>, parent: Seq<char>) -> Option<Seq<ChildEntry>>
    decreases lists.len(),
{
    if lists.len() == 0 {
        None
    } else if lists[0].parent@ == parent {
        Some(lists[0].children@)
    } else {
        lookup_children(lists.drop_first(), parent)
    }
}

/// `lookup_menu` is the first entry with the path.
proof fn lemma_lookup_menu_at(menus: Seq<MenuEntry>, path: Seq<char>, i: int)
    requires
        0 <= i < menus.len(),
        menus[i].path@ == path,
        forall|j: int| 0 <= j < i ==> (#[trigger] menus[j]).path@ != path,
    ensures
        lookup_menu(menus, path) == Some(menus[i]),
    decreases menus.len(),
{
    if i > 0 {
        let rest = menus.drop_first();
        assert forall|j: int| 0 <= j < i - 1 implies (#[trigger] rest[j]).path@ != path by {
            assert(rest[j] == menus[j + 1]);
        }
        lemma_lookup_menu_at(rest, path, i - 1);
    }
}

proof fn lemma_lookup_children_at(lists: Seq<ChildList>, parent: Seq<char>, i: int)
    requires
        0 <= i < lists.len(),
        lists[i].parent@ == parent,
        forall|j: int| 0 <= j < i ==> (#[trigger] lists[j]).parent@ != parent,
    ensures
        lookup_children(lists, parent) == Some(lists[i].children@),
    decreases lists.len(),
{
    if i > 0 {
        let rest = lists.drop_first();
        assert forall|j: int| 0 <= j < i - 1 implies (#[trigger] rest[j]).parent@ != parent by {
            assert(rest[j] == lists[j + 1]);
        }
        lemma_lookup_children_at(rest, parent, i - 1);
    }
}

proof fn lemma_lookup_children_none(lists: Seq<ChildList>, parent: Seq<char>)
    requires
        forall|j: int| 0 <= j < lists.len() ==> (#[trigger] lists[j]).parent@ != parent,
    ensures
        lookup_children(lists, parent) is None,
    decreases lists.len(),
{
    if lists.len() > 0 {
        let rest = lists.drop_first();
        assert forall|j: int| 0 <= j < rest.len() implies (#[trigger] rest[j]).parent@ != parent by {
            assert(rest[j] == lists[j + 1]);
        }
        lemma_lookup_children_none(rest, parent);
    }
}

proof fn lemma_lookup_menu_none(menus: Seq<MenuEntry>, path: Seq<char>)
    requires
        forall|j: int| 0 <= j < menus.len() ==> (#[trigger] menus[j]).path@ != path,
    ensures
        lookup_menu(menus, path) is None,
    decreases menus.len(),
{
    if menus.len() > 0 {
        let rest = menus.drop_first();
        assert forall|j: int| 0 <= j < rest.len() implies (#[trigger] rest[j]).path@ != path by {
            assert(rest[j] == menus[j + 1]);
        }
        lemma_lookup_menu_none(rest, path);
    }
}

impl MenuData {
    /// The menu that the table holds for `path`.
    pub closed spec fn menu(&self, path: Seq<char>) -> Option<MenuEntry> {
        lookup_menu(self.menus@, path)
    }

    /// The children that the table holds for the parent path `parent`.
    pub closed spec fn children(&self, parent: Seq<char>) -> Option<Seq<ChildEntry>> {
        lookup_children(self.child_lists@, parent)
    }

    /// The number of menu entries held.
    pub closed spec fn spec_menu_count(&self) -> nat {
        self.menus@.len()
    }

    /// An empty table.
    pub fn new() -> (data: MenuData)
        ensures
            forall|p: Seq<char>| data.menu(p) is None,
            forall|p: Seq<char>| data.children(p) is None,
            data.spec_menu_count() == 0,
    {
        MenuData { menus: Vec::new(), child_lists: Vec::new() }
    }

    /// The menu for `path`, like `HashMap::get`.
    pub fn menu_by_path(&self, path: &str) -> (r: Option<&MenuEntry>)
        ensures
            match r {
                Some(m) => self.menu(path@) == Some(*m),
                None => self.menu(path@) is None,
            },
    {
        let mut i: usize = 0;
        while i < self.menus.len()
            invariant
                i <= self.menus@.len(),
                forall|j: int| 0 <= j < i ==> (#[trigger] self.menus@[j]).path@ != path@,
            decreases self.menus@.len() - i,
        {
            if str_eq(self.menus[i].path.as_str(), path) {
                proof {
                    lemma_lookup_menu_at(self.menus@, path@, i as int);
                }
                return Some(&self.menus[i]);
            }
            i = i + 1;
        }
        proof {
            lemma_lookup_menu_none(self.menus@, path@);
        }
        None
    }

    /// The children of `parent`, like `HashMap::get`.
    pub fn children_of(&self, parent: &str) -> (r: Option<&Vec<ChildEntry>>)
        ensures
            match r {
                Some(c) => self.children(parent@) == Some(c@),
                None => self.children(parent@) is None,
            },
    {
        let mut i: usize = 0;
        while i < self.child_lists.len()
            invariant
                i <= self.child_lists@.len(),
                forall|j: int| 0 <= j < i ==> (#[trigger] self.child_lists@[j]).parent@ != parent@,
            decreases self.child_lists@.len() - i,
        {
            if str_eq(self.child_lists[i].parent.as_str(), parent) {
                proof {
                    lemma_lookup_children_at(self.child_lists@, parent@, i as int);
                }
                return Some(&self.child_lists[i].children);
            }
            i = i + 1;
        }
        proof {
            lemma_lookup_children_none(self.child_lists@, parent@);
        }
        None
    }

    /// Adds a menu, found from then on by its path (an earlier menu with the
    /// same path is no longer found).
    pub fn insert_menu(&mut self, entry: MenuEntry)
        ensures
            forall|p: Seq<char>| #[trigger]
                final(self).menu(p) == if p == entry.path@ {
                    Some(entry)
                } else {
                    old(self).menu(p)
                },
            forall|p: Seq<char>| #[trigger] final(self).children(p) == old(self).children(p),
            final(self).spec_menu_count() == old(self).spec_menu_count() + 1,
    {
        let ghost before = self.menus@;
        self.menus.insert(0, entry);
        assert(self.menus@.drop_first() == before);
    }

    /// Sets the children of a parent path (an earlier list for the same
    /// parent is no longer found).
    pub fn insert_children(&mut self, parent: String, children: Vec<ChildEntry>)
        ensures
            forall|p: Seq<char>| #[trigger]
                final(self).children(p) == if p == parent@ {
                    Some(children@)
                } else {
                    old(self).children(p)
                },
            forall|p: Seq<char>| #[trigger] final(self).menu(p) == old(self).menu(p),
            final(self).spec_menu_count() == old(self).spec_menu_count(),
    {
        let ghost before = self.child_lists@;
        self.child_lists.insert(0, ChildList { parent, children });
        assert(self.child_lists@.drop_first() == before);
    }

    /// The number of menu entries held.
    pub fn menu_count(&self) -> (n: usize)
        ensures
            n == self.spec_menu_count(),
    {
        self.menus.len()
    }
}

/// What a line says about the command under the cursor.
pub struct LineContext {
    /// The menu path, such as `/ip/address`, or empty when there is none.
    pub path: String,
    /// The last word that is neither a path segment nor a property.
    pub command: Option<String>,
    /// The `key=value` properties given so far.
    pub properties: StringMap,
    /// The last token, or empty.
    pub last_token: String,
}

/// The commands that every RouterOS menu understands, in the order they are offered.
pub open spec fn standard_verbs() -> Seq<Seq<char>> {
    seq![
        "add"@,
        "remove"@,
        "set"@,
        "get"@,
        "print"@,
        "export"@,
        "find"@,
        "enable"@,
        "disable"@,
        "comment"@,
        "edit"@,
        "move"@,
        "reset"@,
        "unset"@,
    ]
}

/// `standard_verbs` as strings.
pub fn standard_verb_list() -> (v: Vec<String>)
    ensures
        v@.map_values(|s: String| s@) == standard_verbs(),
{
    let mut v: Vec<String> = Vec::new();
    v.push(String::from_str("add"));
    v.push(String::from_str("remove"));
    v.push(String::from_str("set"));
    v.push(String::from_str("get"));
    v.push(String::from_str("print"));
    v.push(String::from_str("export"));
    v.push(String::from_str("find"));
    v.push(String::from_str("enable"));
    v.push(String::from_str("disable"));
    v.push(String::from_str("comment"));
    v.push(String::from_str("edit"));
    v.push(String::from_str("move"));
    v.push(String::from_str("reset"));
    v.push(String::from_str("unset"));
    assert(v@.map_values(|s: String| s@) =~= standard_verbs());
    v
}

/// Whether `word` is one of the standard verbs.
pub fn is_standard_verb(word: &str) -> (b: bool)
    ensures
        b == standard_verbs().contains(word@),
{
    let verbs = standard_verb_list();
    let ghost views = verbs@.map_values(|s: String| s@);
    let mut i: usize = 0;
    while i < verbs.len()
        invariant
            i <= verbs@.len(),
            views == verbs@.map_values(|s: String| s@),
            views == standard_verbs(),
            forall|j: int| 0 <= j < i ==> views[j] != word@,
        decreases verbs@.len() - i,
    {
        if str_eq(verbs[i].as_str(), word) {
            assert(views[i as int] == word@);
            return true;
        }
        i = i + 1;
    }
    false
}

/// The first argument named `name`.
pub open spec fn first_argument(args: Seq<ArgEntry>, name: Seq<char>) -> Option<ArgEntry>
    decreases args.len(),
{
    if args.len() == 0 {
        None
    } else if args[0].name@ == name {
        Some(args[0])
    } else {
        first_argument(args.drop_first(), name)
    }
}

/// The first flag named `name`.
pub open spec fn first_flag(flags: Seq<FlagEntry>, name: Seq<char>) -> Option<FlagEntry>
    decreases flags.len(),
{
    if flags.len() == 0 {
        None
    } else if flags[0].name@ == name {
        Some(flags[0])
    } else {
        first_flag(flags.drop_first(), name)
    }
}

/// The first argument named `name`, like `iter().find(..)`.
pub fn find_argument<'a>(args: &'a Vec<ArgEntry>, name: &str) -> (r: Option<&'a ArgEntry>)
    ensures
        match r {
            Some(a) => first_argument(args@, name@) == Some(*a),
            None => first_argument(args@, name@) is None,
        },
{
    let mut i: usize = 0;
    assert(args@.skip(0) == args@);
    while i < args.len()
        invariant
            i <= args@.len(),
            first_argument(args@, name@) == first_argument(args@.skip(i as int), name@),
        decreases args@.len() - i,
    {
        assert(args@.skip(i as int).drop_first() == args@.skip(i + 1));
        if str_eq(args[i].name.as_str(), name) {
            return Some(&args[i]);
        }
        i = i + 1;
    }
    None
}

/// The first flag named `name`, like `iter().find(..)`.
pub fn find_flag<'a>(flags: &'a Vec<FlagEntry>, name: &str) -> (r: Option<&'a FlagEntry>)
    ensures
        match r {
            Some(f) => first_flag(flags@, name@) == Some(*f),
            None => first_flag(flags@, name@) is None,
        },
{
    let mut i: usize = 0;
    assert(flags@.skip(0) == flags@);
    while i < flags.len()
        invariant
            i <= flags@.len(),
            first_flag(flags@, name@) == first_flag(flags@.skip(i as int), name@),
        decreases flags@.len() - i,
    {
        assert(flags@.skip(i as int).drop_first() == flags@.skip(i + 1));
        if str_eq(flags[i].name.as_str(), name) {
            return Some(&flags[i]);
        }
        i = i + 1;
    }
    None
}

/// A child that is an action command.
pub open spec fn is_command(c: ChildEntry) -> bool {
    c.menu_type@ == "Command"@
}

/// Checks `is_command`.
pub fn is_command_child(c: &ChildEntry) -> (b: bool)
    ensures
        b == is_command(*c),
{
    str_eq(c.menu_type.as_str(), "Command")
}

/// A child that completion offers as a sub-menu: a directory or a settings
/// directory.
pub open spec fn is_directory(c: ChildEntry) -> bool {
    c.menu_type@ == "Directory"@ || c.menu_type@ == "Settings Directory"@
}

/// Checks `is_directory`.
pub fn is_directory_child(c: &ChildEntry) -> (b: bool)
    ensures
        b == is_directory(*c),
{
    str_eq(c.menu_type.as_str(), "Directory") || str_eq(c.menu_type.as_str(), "Settings Directory")
}

} // verus!
