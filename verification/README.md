# mcpg-expr

Dynamic configuration values, verified with Verus.

A configuration string may hold `${...}` markers. At startup, `${env.NAME}`
markers are replaced by environment variables. The rest is parsed once and
resolved per request: `${expr}` is evaluated as CEL against the variables of
the request, and `${cred://issuer/target}` is a credential reference, whose
value the caller supplies through a callback.

## Layout

| Module | What it holds |
|---|---|
| `template` | markers, their matching braces, and templates as CEL source |
| `dynamic` | `DynamicValue`: parsing a template and resolving it |
| `context` | `ExprContext`: the variables of a request |
| `env` | the startup pass over `${env.NAME}` |
| `value` | JSON and CEL values |
| `convert` | the conversions between JSON values, CEL values and text |
| `header` | header names and values |
| `error` | `ExprError` and how errors read |
| `text`, `entries` | UTF-8 text, trimming, quoting, decimals; tables of names |
| `engine`, `json`, `double` | what is asked of the `cel` and `serde_json` crates |

`app/` is ordinary Rust around the library: the process environment and
`anyhow` errors.

## What is proved

The contracts state what a function returns for every input, over mathematical
models of templates, values and requests. On top of them stand the laws, public
proof functions whose names begin with `law_`; among them:

- the credential references of a parsed value stand in its template
  (`dynamic::law_references_come_from_template`);
- the template alone decides which credentials are used, whatever the request
  (`dynamic::law_template_decides_credentials`), and only its references reach
  the resolver (`dynamic::law_only_references_reach_the_resolver`);
- `context` always has the same fields and depends on the request alone
  (`context::law_context_fields_are_fixed`,
  `context::law_context_depends_on_request_alone`);
- a JSON value comes back unchanged from CEL (`convert::law_json_survives_cel`,
  `json::law_json_survives_engine`);
- an accepted header stays on its line
  (`header::law_accepted_header_stays_on_its_line`).

## What is trusted

What CEL makes of a source text and what an evaluation gives are taken from the
`cel` crate: `engine::compiled` names the outcome of compiling, and
`engine::may_give` says which outcomes an evaluation may have. `engine`, `json`,
`double` and `text` hold every trusted declaration, each with a comment on what
is believed of the outside function.
