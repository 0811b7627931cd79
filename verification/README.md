# NovaWeb

NovaWeb is a small scripting language with an HTML template engine and a page
server. This crate is its verified core, written in Verus: every function in
`src/` carries a contract that Verus proves, except two small trusted wrappers
around std (`text::push_char`, which calls `String::push`, and
`value::share_body`, which calls `Rc::clone`), whose contracts restate what
std documents.

## Layout

- `src/lexer.rs`, `src/parser.rs`: the grammar as spec functions over characters
  and tokens, and the lexer and parser proved to follow it.
- `src/ast.rs`, `src/value.rs`, `src/model.rs`: programs and runtime values, with
  their mathematical models.
- `src/semantics.rs`: the meaning of programs, for every sequence of replies of
  the host that performs printing, files, the database and floating-point work.
- `src/environment.rs`, `src/interpreter.rs`: scopes and the interpreter, proved
  against the semantics.
- `src/template.rs`: `{{ name }}` placeholders filled from a map.
- `src/server.rs`, `src/database.rs`: how the page server finds the page file
  for a request path (one file-system probe at a time), the route parameters
  and the request object a page sees, the response its result becomes, and the
  values that database rows become.
- `src/laws.rs`: properties across operations (reading after writing, scoping,
  order reversal, templates without placeholders).
- `app/`: the `novaw` command (`run` and `serve`), the host of the interpreter
  (standard output, files, SQLite, floating point) and the HTTP server.

## Usage

```bash
novaw run script.novaw
novaw serve --pages pages --static-dir static
```

```novaw
let user = "Alice";
let ctx = { "user": user };
let template = "Hello, {{ user }}!";
print(render(template, ctx));
```
