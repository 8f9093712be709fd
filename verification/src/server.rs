//! The language server's decisions: one incoming message and the open
//! documents give the next documents and the reply to send, if any.
use vstd::prelude::*;
use vstd::string::*;
use crate::completion::{compute_completions, completion_models, items_are, CompletionItem};
use crate::hover::{can_hover, compute_hover, hover_defined, hover_text, Hover};
use crate::menus::MenuData;
use crate::script::{before_cursor_fits, before_cursor_text, build_before_cursor, cursor_in_bounds, tokenizable};
use crate::string_map::StringMap;
use crate::text::{lines_of, lines_str, str_eq};
use crate::wire::{decode_message, message_of_body};

verus! {

/// An incoming message, with the fields that the server reads; a field is
/// `None` when the message lacks it or it has another JSON type.
pub struct Message {
    /// The method name.
    pub method: String,
    /// Whether the message has a non-null `id`.
    pub has_id: bool,
    /// `params.textDocument.uri`.
    pub uri: Option<String>,
    /// `params.textDocument.text` (sent on open).
    pub open_text: Option<String>,
    /// `params.contentChanges[0].text` (sent on change).
    pub change_text: Option<String>,
    /// `params.position.line`.
    pub line: Option<usize>,
    /// `params.position.character`.
    pub character: Option<usize>,
}

/// What to send back (the message's `id` goes with it).
pub enum Reply {
    /// The result of `initialize`: the server's capabilities and name.
    Capabilities,
    /// A null result (for `shutdown`).
    Null,
    /// No reply; the process ends with status 0.
    Exit,
    /// The completion list.
    Completions(Vec<CompletionItem>),
    /// The hover result, possibly null.
    Hover(Option<Hover>),
    /// The error "method not found" for the named method.
    MethodNotFound(String),
}

/// What became of one message body.
pub enum Received {
    /// The body is not a JSON value: it is skipped.
    NotJson,
    /// The message names a position or holds text that the computation cannot
    /// slice: it is refused.
    Refused(Message),
    /// The message was handled, with the reply to send, if any.
    Handled(Message, Option<Reply>),
}

/// The server's state: the command table and the open documents by URI.
pub struct Server {
    data: MenuData,
    docs: StringMap,
}

/// The text of line `idx` of a document, or empty past its end.
pub open spec fn line_text(doc: Seq<char>, idx: int) -> Seq<char> {
    if 0 <= idx < lines_of(doc).len() {
        lines_of(doc)[idx]
    } else {
        Seq::empty()
    }
}

/// The documents after a message: opening or changing a document stores its
/// text, closing it forgets it; anything else leaves them as they are.
pub open spec fn next_docs(docs: Map<Seq<char>, Seq<char>>, msg: Message) -> Map<
    Seq<char>,
    Seq<char>,
> {
    let m = msg.method@;
    if m == "textDocument/didOpen"@ && msg.uri is Some && msg.open_text is Some {
        docs.insert(msg.uri->0@, msg.open_text->0@)
    } else if m == "textDocument/didChange"@ && msg.uri is Some && msg.change_text is Some {
        docs.insert(msg.uri->0@, msg.change_text->0@)
    } else if m == "textDocument/didClose"@ && msg.uri is Some {
        docs.remove(msg.uri->0@)
    } else {
        docs
    }
}

/// The position of a request on an open document: its text, line and column.
pub open spec fn request_target(docs: Map<Seq<char>, Seq<char>>, msg: Message) -> Option<
    (Seq<char>, int, int),
> {
    if msg.uri is Some && msg.line is Some && msg.character is Some && docs.contains_key(
        msg.uri->0@,
    ) {
        Some((docs[msg.uri->0@], msg.line->0 as int, msg.character->0 as int))
    } else {
        None
    }
}

/// The messages that the server can handle without panicking: a completion
/// or hover request on an open document must meet the requirements of
/// `compute_completions` or `compute_hover`.
pub open spec fn can_handle_spec(data: MenuData, docs: Map<Seq<char>, Seq<char>>, msg: Message) -> bool {
    let m = msg.method@;
    match request_target(docs, msg) {
        Some((doc, l, c)) => {
            &&& m == "textDocument/completion"@ ==> cursor_in_bounds(doc, l, c) && tokenizable(
                before_cursor_text(doc, l, c),
            )
            &&& m == "textDocument/hover"@ ==> hover_defined(data, line_text(doc, l), c, doc, l)
        },
        None => true,
    }
}

/// The reply to a message, given the documents before it.
pub open spec fn reply_is(
    data: MenuData,
    docs: Map<Seq<char>, Seq<char>>,
    msg: Message,
    r: Option<Reply>,
) -> bool {
    let m = msg.method@;
    if m == "initialize"@ {
        r matches Some(Reply::Capabilities)
    } else if m == "shutdown"@ {
        r matches Some(Reply::Null)
    } else if m == "exit"@ {
        r matches Some(Reply::Exit)
    } else if m == "textDocument/didOpen"@ || m == "textDocument/didChange"@ || m
        == "textDocument/didClose"@ {
        r is None
    } else if m == "textDocument/completion"@ {
        match request_target(docs, msg) {
            Some((doc, l, c)) => r matches Some(Reply::Completions(items)) && items_are(
                items@,
                crate::completion::completion_models(data, before_cursor_text(doc, l, c)),
            ),
            None => r is None,
        }
    } else if m == "textDocument/hover"@ {
        match request_target(docs, msg) {
            Some((doc, l, c)) => r matches Some(Reply::Hover(h)) && match h {
                Some(h) => {
                    &&& hover_text(data, line_text(doc, l), c, doc, l) == Some(h.contents.value@)
                    &&& h.contents.kind@ == "markdown"@
                },
                None => hover_text(data, line_text(doc, l), c, doc, l) is None,
            },
            None => r is None,
        }
    } else if msg.has_id {
        r matches Some(Reply::MethodNotFound(name)) && name@ == m
    } else {
        r is None
    }
}

impl Server {
    /// The command table.
    pub closed spec fn table(&self) -> MenuData {
        self.data
    }

    /// The open documents: URI to text.
    pub closed spec fn documents(&self) -> Map<Seq<char>, Seq<char>> {
        self.docs@
    }

    /// A server with the given command table and no open document.
    pub fn new(data: MenuData) -> (s: Server)
        ensures
            s.table() == data,
            s.documents() == Map::<Seq<char>, Seq<char>>::empty(),
    {
        Server { data, docs: StringMap::new() }
    }

    /// The command table.
    pub fn menus(&self) -> (d: &MenuData)
        ensures
            *d == self.table(),
    {
        &self.data
    }

    /// The text of an open document.
    pub fn document(&self, uri: &str) -> (r: Option<&String>)
        ensures
            match r {
                Some(t) => self.documents().contains_key(uri@) && self.documents()[uri@] == t@,
                None => !self.documents().contains_key(uri@),
            },
    {
        self.docs.get(uri)
    }

    fn target<'a>(&'a self, msg: &Message) -> (r: Option<(&'a String, usize, usize)>)
        ensures
            match r {
                Some((doc, l, c)) => request_target(self.documents(), *msg) == Some(
                    (doc@, l as int, c as int),
                ),
                None => request_target(self.documents(), *msg) is None,
            },
    {
        match (&msg.uri, msg.line, msg.character) {
            (Some(uri), Some(l), Some(c)) => match self.docs.get(uri.as_str()) {
                Some(doc) => Some((doc, l, c)),
                None => None,
            },
            _ => None,
        }
    }

    fn current_line<'a>(doc: &'a str, l: usize) -> (r: &'a str)
        ensures
            r@ == line_text(doc@, l as int),
    {
        let lines = lines_str(doc);
        if l < lines.len() {
            lines[l]
        } else {
            let empty = "";
            proof {
                reveal_strlit("");
                assert(empty@ =~= Seq::<char>::empty());
            }
            empty
        }
    }

    /// Whether `handle` can take the message (`can_handle_spec`): else the
    /// request would make the computation panic.
    pub fn can_handle(&self, msg: &Message) -> (b: bool)
        ensures
            b == can_handle_spec(self.table(), self.documents(), *msg),
    {
        match self.target(msg) {
            None => true,
            Some((doc, l, c)) => {
                if str_eq(msg.method.as_str(), "textDocument/completion") {
                    before_cursor_fits(doc.as_str(), l, c)
                } else if str_eq(msg.method.as_str(), "textDocument/hover") {
                    let line = Self::current_line(doc.as_str(), l);
                    can_hover(&self.data, line, c, doc.as_str(), l)
                } else {
                    true
                }
            },
        }
    }

    /// Takes one message body: decodes it, and handles the message where it
    /// can be handled. A body that is no JSON value, or a refused message,
    /// leaves the server as it was.
    pub fn receive(&mut self, body: &[u8]) -> (r: Received)
        ensures
            final(self).table() == old(self).table(),
            match message_of_body(body@) {
                None => r is NotJson && final(self).documents() == old(self).documents(),
                Some(msg) => if can_handle_spec(old(self).table(), old(self).documents(), msg) {
                    &&& r matches Received::Handled(m, reply)
                    &&& m == msg
                    &&& final(self).documents() == next_docs(old(self).documents(), msg)
                    &&& reply_is(old(self).table(), old(self).documents(), msg, reply)
                } else {
                    &&& r matches Received::Refused(m)
                    &&& m == msg
                    &&& final(self).documents() == old(self).documents()
                },
            },
            (message_of_body(body@) matches Some(msg) && msg.method@ != "textDocument/didOpen"@
                && msg.method@ != "textDocument/didChange"@ && msg.method@
                != "textDocument/didClose"@) ==> final(self).documents() == old(self).documents(),
    {
        match decode_message(body) {
            None => Received::NotJson,
            Some(msg) => {
                if self.can_handle(&msg) {
                    let reply = self.handle_message(&msg);
                    Received::Handled(msg, reply)
                } else {
                    Received::Refused(msg)
                }
            },
        }
    }

    /// Handles one message: updates the open documents and gives the reply.
    pub fn handle_message(&mut self, msg: &Message) -> (r: Option<Reply>)
        requires
            can_handle_spec(old(self).table(), old(self).documents(), *msg),
        ensures
            final(self).table() == old(self).table(),
            final(self).documents() == next_docs(old(self).documents(), *msg),
            reply_is(old(self).table(), old(self).documents(), *msg, r),
    {
        proof {
            reveal_strlit("initialize");
            reveal_strlit("shutdown");
            reveal_strlit("exit");
            reveal_strlit("textDocument/didOpen");
            reveal_strlit("textDocument/didChange");
            reveal_strlit("textDocument/didClose");
            assert("initialize"@.len() == 10);
            assert("shutdown"@.len() == 8);
            assert("exit"@.len() == 4);
            assert("textDocument/didOpen"@.len() == 20);
            assert("textDocument/didChange"@.len() == 22);
            assert("textDocument/didClose"@.len() == 21);
        }
        let method = msg.method.as_str();
        if str_eq(method, "initialize") {
            return Some(Reply::Capabilities);
        }
        if str_eq(method, "shutdown") {
            return Some(Reply::Null);
        }
        if str_eq(method, "exit") {
            return Some(Reply::Exit);
        }
        if str_eq(method, "textDocument/didOpen") {
            if let (Some(uri), Some(text)) = (&msg.uri, &msg.open_text) {
                self.docs.insert(uri.clone(), text.clone());
            }
            return None;
        }
        if str_eq(method, "textDocument/didChange") {
            if let (Some(uri), Some(text)) = (&msg.uri, &msg.change_text) {
                self.docs.insert(uri.clone(), text.clone());
            }
            return None;
        }
        if str_eq(method, "textDocument/didClose") {
            if let Some(uri) = &msg.uri {
                self.docs.remove(uri.as_str());
            }
            return None;
        }
        if str_eq(method, "textDocument/completion") {
            return match self.target(msg) {
                Some((doc, l, c)) => {
                    let before_cursor = build_before_cursor(doc.as_str(), l, c);
                    Some(Reply::Completions(compute_completions(&self.data, before_cursor.as_str())))
                },
                None => None,
            };
        }
        if str_eq(method, "textDocument/hover") {
            return match self.target(msg) {
                Some((doc, l, c)) => {
                    let line = Self::current_line(doc.as_str(), l);
                    Some(Reply::Hover(compute_hover(&self.data, line, c, doc.as_str(), l)))
                },
                None => None,
            };
        }
        if msg.has_id {
            Some(Reply::MethodNotFound(msg.method.clone()))
        } else {
            None
        }
    }
}

/// A document that was opened reads back with the text it was opened with.
pub proof fn law_open_then_read(docs: Map<Seq<char>, Seq<char>>, msg: Message)
    requires
        msg.method@ == "textDocument/didOpen"@,
        msg.uri is Some,
        msg.open_text is Some,
    ensures
        next_docs(docs, msg).contains_key(msg.uri->0@),
        next_docs(docs, msg)[msg.uri->0@] == msg.open_text->0@,
{
}

/// A change replaces a document's text with the changed text, whatever it held.
pub proof fn law_change_replaces(docs: Map<Seq<char>, Seq<char>>, msg: Message)
    requires
        msg.method@ == "textDocument/didChange"@,
        msg.uri is Some,
        msg.change_text is Some,
    ensures
        next_docs(docs, msg).contains_key(msg.uri->0@),
        next_docs(docs, msg)[msg.uri->0@] == msg.change_text->0@,
{
    reveal_strlit("textDocument/didOpen");
    reveal_strlit("textDocument/didChange");
    assert("textDocument/didOpen"@.len() != "textDocument/didChange"@.len());
}

/// A closed document is no longer held.
pub proof fn law_close_forgets(docs: Map<Seq<char>, Seq<char>>, msg: Message)
    requires
        msg.method@ == "textDocument/didClose"@,
        msg.uri is Some,
    ensures
        !next_docs(docs, msg).contains_key(msg.uri->0@),
{
    reveal_strlit("textDocument/didOpen");
    reveal_strlit("textDocument/didChange");
    reveal_strlit("textDocument/didClose");
    assert("textDocument/didOpen"@.len() != "textDocument/didClose"@.len());
    assert("textDocument/didChange"@.len() != "textDocument/didClose"@.len());
}

/// Messages other than opening, changing and closing a document leave the
/// documents exactly as they are.
pub proof fn law_other_messages_keep_documents(docs: Map<Seq<char>, Seq<char>>, msg: Message)
    requires
        msg.method@ != "textDocument/didOpen"@,
        msg.method@ != "textDocument/didChange"@,
        msg.method@ != "textDocument/didClose"@,
    ensures
        next_docs(docs, msg) == docs,
{
}

/// A message never touches a document other than the one it names.
pub proof fn law_documents_untouched(
    docs: Map<Seq<char>, Seq<char>>,
    msg: Message,
    other: Seq<char>,
)
    requires
        msg.uri is Some ==> other != msg.uri->0@,
    ensures
        next_docs(docs, msg).contains_key(other) == docs.contains_key(other),
        docs.contains_key(other) ==> next_docs(docs, msg)[other] == docs[other],
{
}

/// A hover request at line `l`, character `c` of an open document is answered
/// from line `l` (empty past the last line): the reply holds exactly the hover
/// text of that line at `c`, so text on other lines never decides the word.
pub proof fn law_hover_reads_the_requested_line(
    data: MenuData,
    docs: Map<Seq<char>, Seq<char>>,
    msg: Message,
    r: Option<Reply>,
)
    requires
        msg.method@ == "textDocument/hover"@,
        msg.uri is Some,
        msg.line is Some,
        msg.character is Some,
        docs.contains_key(msg.uri->0@),
        reply_is(data, docs, msg, r),
    ensures
        ({
            let doc = docs[msg.uri->0@];
            let l = msg.line->0 as int;
            let c = msg.character->0 as int;
            let line = if l < lines_of(doc).len() {
                lines_of(doc)[l]
            } else {
                Seq::<char>::empty()
            };
            &&& r matches Some(Reply::Hover(h))
            &&& match h {
                Some(h) => hover_text(data, line, c, doc, l) == Some(h.contents.value@),
                None => hover_text(data, line, c, doc, l) is None,
            }
        }),
{
    reveal_strlit("initialize");
    reveal_strlit("shutdown");
    reveal_strlit("exit");
    reveal_strlit("textDocument/didOpen");
    reveal_strlit("textDocument/didChange");
    reveal_strlit("textDocument/didClose");
    reveal_strlit("textDocument/completion");
    reveal_strlit("textDocument/hover");
    assert("initialize"@.len() != "textDocument/hover"@.len());
    assert("shutdown"@.len() != "textDocument/hover"@.len());
    assert("exit"@.len() != "textDocument/hover"@.len());
    assert("textDocument/didOpen"@.len() != "textDocument/hover"@.len());
    assert("textDocument/didChange"@.len() != "textDocument/hover"@.len());
    assert("textDocument/didClose"@.len() != "textDocument/hover"@.len());
    assert("textDocument/completion"@.len() != "textDocument/hover"@.len());
}

/// A completion or hover request on a document that was just opened works
/// on the text it was opened with.
pub proof fn law_request_sees_opened_text(
    docs: Map<Seq<char>, Seq<char>>,
    open: Message,
    request: Message,
)
    requires
        open.method@ == "textDocument/didOpen"@,
        open.uri is Some,
        open.open_text is Some,
        request.uri is Some,
        request.uri->0@ == open.uri->0@,
        request.line is Some,
        request.character is Some,
    ensures
        request_target(next_docs(docs, open), request) == Some(
            (open.open_text->0@, request.line->0 as int, request.character->0 as int),
        ),
{
}

} // verus!
