# rsc_ls

A language server for MikroTik RouterOS scripts, with its analysis verified in Verus.

- `src/text.rs`: characters, trimming, lines, splitting, searching, joining.
- `src/menus.rs`: the command table (menus, arguments, flags, children of a path), the standard verbs, the parsed line.
- `src/string_map.rs`: a string-to-string map (properties of a line, open documents).
- `src/script.rs`: tokenizing a line, the command text before the cursor, parsing it into path, verb and properties.
- `src/completion.rs`: completion items for the text before the cursor.
- `src/hover.rs`: hover text for the word under the cursor.
- `src/server.rs`: one message and the open documents give the next documents and the reply; a raw message body is decoded and handled or refused.
- `src/wire.rs`: the body length from the header block, and the message fields from a JSON body.
- `app/main.rs`: reading headers and bodies from stdin, and writing replies as JSON to stdout.
