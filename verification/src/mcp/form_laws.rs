//! What holds of the descriptions of MCP servers: which are accepted, and what each
//! application's form of one holds under each name.

use vstd::prelude::*;

use crate::dsh_config::json_as_yaml;
use crate::error::ErrorView;
use crate::mcp::dsh::{
    dsh_form, item_of, list_fault, map_fault, part_as_yaml, text_list, text_map, text_value,
    unified_config, unified_item, usable,
};
use crate::mcp::items::client_name;
use crate::mcp::parts::{full_list, full_mapping, full_text, trimmed_field, with_some};
use crate::mcp::validation::{server_fault, type_of};
use crate::mcp::zcode::{unified_form, zcode_form};
use crate::text::{decimal, is_blank, lemma_blank, trimmed};
use crate::tree::{
    distinct_keys, field, key_at, lemma_same_text, lemma_with_key, lookup, same, text_field,
    text_of, with_key, Entries, Tree,
};

verus! {

// ----------------------------------------------------------------------------
// Parts
// ----------------------------------------------------------------------------

/// A list or a mapping counts where it is not empty, and a text where it is not blank; one
/// that is wanted trimmed is trimmed, and any other stays as it is.
pub proof fn law_parts(t: Tree, name: Seq<char>)
    ensures
        full_list(t, name) == (if field(t, name) matches Some(Tree::List(x)) && x.len() > 0 {
            field(t, name)
        } else {
            None
        }),
        full_mapping(t, name) == (if field(t, name) matches Some(Tree::Mapping(m)) && m.len() > 0 {
            field(t, name)
        } else {
            None
        }),
        text_field(t, name) matches Some(s) ==> (!is_blank(s) ==> full_text(t, name) == Some(
            Tree::Text(s),
        ) && trimmed_field(t, name) == Some(trimmed(s))),
        !(text_field(t, name) matches Some(s) && !is_blank(s)) ==> full_text(t, name) is None
            && trimmed_field(t, name) is None,
{
    if let Some(s) = text_field(t, name) {
        lemma_blank(s);
    }
}

/// The type of a server is what it gives as `type`, where that is a text, and else `stdio`.
pub proof fn law_type(spec: Tree)
    ensures
        text_field(spec, "type"@) matches Some(t) ==> type_of(spec) == t,
        text_field(spec, "type"@) is None ==> type_of(spec) == "stdio"@,
{
}

/// The description of a server is accepted exactly where it is an object that gives no type
/// or `stdio`, and a `command` that is a text and not blank, or the type `http` or `sse`,
/// and a `url` that is such a text.
pub proof fn law_server_accepted(spec: Tree)
    ensures
        server_fault(spec) is None <==> {
            let t = text_field(spec, "type"@);
            &&& spec is Mapping
            &&& {
                ||| (t is None || t == Some("stdio"@)) && (text_field(spec, "command"@) matches Some(
                    s,
                ) && !is_blank(s))
                ||| (t == Some("http"@) || t == Some("sse"@)) && (text_field(spec, "url"@)
                    matches Some(s) && !is_blank(s))
            }
        },
        server_fault(spec) matches Some(e) ==> e is McpValidation,
{
    lemma_types();
}

proof fn lemma_types()
    ensures
        "stdio"@ != "http"@,
        "stdio"@ != "sse"@,
        "http"@ != "sse"@,
        "stdio"@ != "streamable-http"@,
        ""@ != "stdio"@,
        ""@ != "streamable-http"@,
{
    reveal_strlit("");
    reveal_strlit("stdio");
    reveal_strlit("http");
    reveal_strlit("sse");
    reveal_strlit("streamable-http");
    assert("stdio"@.len() == 5 && "http"@.len() == 4 && "sse"@.len() == 3
        && "streamable-http"@.len() == 15 && ""@.len() == 0);
}

proof fn lemma_some(m: Entries, name: Seq<char>, v: Option<Tree>, other: Seq<char>)
    requires
        distinct_keys(m),
    ensures
        distinct_keys(with_some(m, name, v)),
        lookup(with_some(m, name, v), Tree::Text(other)) == (if other == name && v is Some {
            v
        } else {
            lookup(m, Tree::Text(other))
        }),
{
    broadcast use lemma_same_text;

    if let Some(v) = v {
        lemma_with_key(m, Tree::Text(name), v);
        if other != name {
            assert(!same(Tree::Text(name), Tree::Text(other)));
        }
    }
}

proof fn lemma_put(m: Entries, name: Seq<char>, v: Tree, other: Seq<char>)
    requires
        distinct_keys(m),
    ensures
        distinct_keys(with_key(m, Tree::Text(name), v)),
        lookup(with_key(m, Tree::Text(name), v), Tree::Text(other)) == (if other == name {
            Some(v)
        } else {
            lookup(m, Tree::Text(other))
        }),
{
    lemma_some(m, name, Some(v), other);
}

proof fn lemma_none(name: Seq<char>)
    ensures
        distinct_keys(Seq::empty()),
        lookup(Seq::empty(), Tree::Text(name)) is None,
{
    let none: Entries = Seq::empty();
    assert(forall|i: int| !key_at(none, Tree::Text(name), i));
}

// ----------------------------------------------------------------------------
// zcode
// ----------------------------------------------------------------------------

/// What the form of zcode holds under a name: of a `stdio` server its command, trimmed, its
/// arguments, its environment and its directory; of any other its type, its address,
/// trimmed, and its headers; and nothing else. A server without a command or an address, or
/// of another type, has no such form.
pub proof fn law_zcode_form(id: Seq<char>, spec: Tree, name: Seq<char>)
    ensures
        ({
            let t = type_of(spec);
            let command = text_field(spec, "command"@);
            let url = text_field(spec, "url"@);
            if !(spec is Mapping) {
                zcode_form(id, spec) is Err
            } else if t == "stdio"@ {
                if command is Some && !is_blank(command->0) {
                    zcode_form(id, spec) matches Ok(Tree::Mapping(m)) && lookup(m, Tree::Text(name))
                        == (if name == "cwd"@ && full_text(spec, "cwd"@) is Some {
                        full_text(spec, "cwd"@)
                    } else if name == "env"@ && full_mapping(spec, "env"@) is Some {
                        full_mapping(spec, "env"@)
                    } else if name == "args"@ && full_list(spec, "args"@) is Some {
                        full_list(spec, "args"@)
                    } else if name == "command"@ {
                        Some(Tree::Text(trimmed(command->0)))
                    } else {
                        None
                    })
                } else {
                    zcode_form(id, spec) is Err
                }
            } else if t == "http"@ || t == "sse"@ {
                if url is Some && !is_blank(url->0) {
                    zcode_form(id, spec) matches Ok(Tree::Mapping(m)) && lookup(m, Tree::Text(name))
                        == (if name == "headers"@ && full_mapping(spec, "headers"@) is Some {
                        full_mapping(spec, "headers"@)
                    } else if name == "url"@ {
                        Some(Tree::Text(trimmed(url->0)))
                    } else if name == "type"@ {
                        Some(Tree::Text(t))
                    } else {
                        None
                    })
                } else {
                    zcode_form(id, spec) is Err
                }
            } else {
                zcode_form(id, spec) is Err
            }
        }),
{
    let z: Entries = Seq::empty();
    let t = type_of(spec);
    lemma_none(name);
    law_parts(spec, "command"@);
    law_parts(spec, "url"@);
    if let Some(command) = trimmed_field(spec, "command"@) {
        let a = with_key(z, Tree::Text("command"@), Tree::Text(command));
        let b = with_some(a, "args"@, full_list(spec, "args"@));
        let c = with_some(b, "env"@, full_mapping(spec, "env"@));
        lemma_put(z, "command"@, Tree::Text(command), name);
        lemma_some(a, "args"@, full_list(spec, "args"@), name);
        lemma_some(b, "env"@, full_mapping(spec, "env"@), name);
        lemma_some(c, "cwd"@, full_text(spec, "cwd"@), name);
    }
    if let Some(url) = trimmed_field(spec, "url"@) {
        let a = with_key(z, Tree::Text("type"@), Tree::Text(t));
        let b = with_key(a, Tree::Text("url"@), Tree::Text(url));
        lemma_put(z, "type"@, Tree::Text(t), name);
        lemma_put(a, "url"@, Tree::Text(url), name);
        lemma_some(b, "headers"@, full_mapping(spec, "headers"@), name);
    }
}

/// What the form of the registry holds of a server of zcode: one with a `command` is a
/// `stdio` server with that command, its arguments, its environment and its directory; one
/// with a `url` has its type, `http` where it gives none, that address and its headers; and
/// nothing else is taken over.
pub proof fn law_zcode_unified(id: Seq<char>, spec: Tree, name: Seq<char>)
    ensures
        ({
            let command = field(spec, "command"@);
            let url = field(spec, "url"@);
            let given = text_field(spec, "type"@);
            let t = if given is Some {
                given->0
            } else {
                "http"@
            };
            if !(spec is Mapping) {
                unified_form(id, spec) is Err
            } else if command is Some {
                unified_form(id, spec) matches Ok(Tree::Mapping(m)) && lookup(m, Tree::Text(name))
                    == (if name == "cwd"@ && full_text(spec, "cwd"@) is Some {
                    full_text(spec, "cwd"@)
                } else if name == "env"@ && full_mapping(spec, "env"@) is Some {
                    full_mapping(spec, "env"@)
                } else if name == "args"@ && full_list(spec, "args"@) is Some {
                    full_list(spec, "args"@)
                } else if name == "command"@ {
                    command
                } else if name == "type"@ {
                    Some(Tree::Text("stdio"@))
                } else {
                    None
                })
            } else if url is Some && (t == "http"@ || t == "sse"@) {
                unified_form(id, spec) matches Ok(Tree::Mapping(m)) && lookup(m, Tree::Text(name))
                    == (if name == "headers"@ && full_mapping(spec, "headers"@) is Some {
                    full_mapping(spec, "headers"@)
                } else if name == "url"@ {
                    url
                } else if name == "type"@ {
                    Some(Tree::Text(t))
                } else {
                    None
                })
            } else {
                unified_form(id, spec) is Err
            }
        }),
{
    let z: Entries = Seq::empty();
    lemma_none(name);
    if let Some(command) = field(spec, "command"@) {
        let a = with_key(z, Tree::Text("type"@), Tree::Text("stdio"@));
        let b = with_key(a, Tree::Text("command"@), command);
        let c = with_some(b, "args"@, full_list(spec, "args"@));
        let d = with_some(c, "env"@, full_mapping(spec, "env"@));
        lemma_put(z, "type"@, Tree::Text("stdio"@), name);
        lemma_put(a, "command"@, command, name);
        lemma_some(b, "args"@, full_list(spec, "args"@), name);
        lemma_some(c, "env"@, full_mapping(spec, "env"@), name);
        lemma_some(d, "cwd"@, full_text(spec, "cwd"@), name);
    } else if let Some(url) = field(spec, "url"@) {
        let t = crate::mcp::zcode::url_type_of(spec);
        let a = with_key(z, Tree::Text("type"@), Tree::Text(t));
        let b = with_key(a, Tree::Text("url"@), url);
        lemma_put(z, "type"@, Tree::Text(t), name);
        lemma_put(a, "url"@, url, name);
        lemma_some(b, "headers"@, full_mapping(spec, "headers"@), name);
    }
}

// ----------------------------------------------------------------------------
// dsh
// ----------------------------------------------------------------------------

/// A part of a server as YAML, where there is one.
pub open spec fn is_yaml_of(part: Option<Tree>, yaml: Option<Tree>) -> bool {
    match part {
        Some(t) => yaml is Some && json_as_yaml(t) == Ok::<Tree, ErrorView>(yaml->0),
        None => yaml is None,
    }
}

/// What a plugin item of dsh holds under a name: its id, its plugin and its configuration;
/// and nothing else.
pub proof fn law_item(server: Seq<char>, config: Entries, name: Seq<char>)
    ensures
        item_of(server, config) matches Tree::Mapping(m) && lookup(m, Tree::Text(name)) == (if name
            == "config"@ {
            Some(Tree::Mapping(config))
        } else if name == "name"@ {
            Some(Tree::Text("@deepseek-ai/dsh-mcp-client"@))
        } else if name == "id"@ {
            Some(Tree::Text("mcp-"@ + server))
        } else {
            None
        }),
{
    let z: Entries = Seq::empty();
    lemma_none(name);
    let a = with_key(z, Tree::Text("id"@), Tree::Text("mcp-"@ + server));
    let b = with_key(a, Tree::Text("name"@), Tree::Text(client_name()));
    lemma_put(z, "id"@, Tree::Text("mcp-"@ + server), name);
    lemma_put(a, "name"@, Tree::Text(client_name()), name);
    lemma_put(b, "config"@, Tree::Mapping(config), name);
}

/// What the form of dsh holds of a server under `config`: its name and its transport; of a
/// `stdio` server its command, trimmed, its arguments, its environment and its directory;
/// of any other its address, trimmed, and its headers; and nothing else. A server without
/// a command or an address, or of another type, has no such form.
#[verifier::rlimit(30)]
pub proof fn law_dsh_form(server: Seq<char>, spec: Tree, name: Seq<char>)
    ensures
        ({
            let t = type_of(spec);
            let command = text_field(spec, "command"@);
            let url = text_field(spec, "url"@);
            let args = part_as_yaml(full_list(spec, "args"@));
            let env = part_as_yaml(full_mapping(spec, "env"@));
            let headers = part_as_yaml(full_mapping(spec, "headers"@));
            if spec is Mapping && t == "stdio"@ && command is Some && !is_blank(command->0) && args
                is Ok && env is Ok {
                exists|config: Entries|
                    {
                        &&& dsh_form(server, spec) == Ok::<Tree, ErrorView>(
                            #[trigger] item_of(server, config),
                        )
                        &&& is_yaml_of(full_list(spec, "args"@), args->Ok_0)
                        &&& is_yaml_of(full_mapping(spec, "env"@), env->Ok_0)
                        &&& lookup(config, Tree::Text(name)) == (if name == "cwd"@ && full_text(
                            spec,
                            "cwd"@,
                        ) is Some {
                            full_text(spec, "cwd"@)
                        } else if name == "env"@ && env->Ok_0 is Some {
                            env->Ok_0
                        } else if name == "args"@ && args->Ok_0 is Some {
                            args->Ok_0
                        } else if name == "command"@ {
                            Some(Tree::Text(trimmed(command->0)))
                        } else if name == "transport"@ {
                            Some(Tree::Text("stdio"@))
                        } else if name == "serverName"@ {
                            Some(Tree::Text(server))
                        } else {
                            None
                        })
                    }
            } else if spec is Mapping && (t == "http"@ || t == "sse"@) && url is Some && !is_blank(
                url->0,
            ) && headers is Ok {
                exists|config: Entries|
                    {
                        &&& dsh_form(server, spec) == Ok::<Tree, ErrorView>(
                            #[trigger] item_of(server, config),
                        )
                        &&& is_yaml_of(full_mapping(spec, "headers"@), headers->Ok_0)
                        &&& lookup(config, Tree::Text(name)) == (if name == "headers"@
                            && headers->Ok_0 is Some {
                            headers->Ok_0
                        } else if name == "url"@ {
                            Some(Tree::Text(trimmed(url->0)))
                        } else if name == "transport"@ {
                            Some(Tree::Text("streamable-http"@))
                        } else if name == "serverName"@ {
                            Some(Tree::Text(server))
                        } else {
                            None
                        })
                    }
            } else {
                dsh_form(server, spec) is Err
            }
        }),
{
    let z: Entries = Seq::empty();
    lemma_types();
    lemma_none(name);
    law_parts(spec, "command"@);
    law_parts(spec, "url"@);
    let t = type_of(spec);
    let args = part_as_yaml(full_list(spec, "args"@));
    let env = part_as_yaml(full_mapping(spec, "env"@));
    let headers = part_as_yaml(full_mapping(spec, "headers"@));
    let a = with_key(z, Tree::Text("serverName"@), Tree::Text(server));
    lemma_put(z, "serverName"@, Tree::Text(server), name);
    if t == "stdio"@ {
        if let (Some(command), Ok(args), Ok(env)) = (
            trimmed_field(spec, "command"@),
            args,
            env,
        ) {
            let b = with_key(a, Tree::Text("transport"@), Tree::Text("stdio"@));
            let c = with_key(b, Tree::Text("command"@), Tree::Text(command));
            let d = with_some(c, "args"@, args);
            let e = with_some(d, "env"@, env);
            let config = with_some(e, "cwd"@, full_text(spec, "cwd"@));
            lemma_put(a, "transport"@, Tree::Text("stdio"@), name);
            lemma_put(b, "command"@, Tree::Text(command), name);
            lemma_some(c, "args"@, args, name);
            lemma_some(d, "env"@, env, name);
            lemma_some(e, "cwd"@, full_text(spec, "cwd"@), name);
            if spec is Mapping {
                assert(dsh_form(server, spec) == Ok::<Tree, ErrorView>(item_of(server, config)));
            }
        }
    } else if t == "http"@ || t == "sse"@ {
        if let (Some(url), Ok(headers)) = (trimmed_field(spec, "url"@), headers) {
            let b = with_key(a, Tree::Text("transport"@), Tree::Text("streamable-http"@));
            let c = with_key(b, Tree::Text("url"@), Tree::Text(url));
            let config = with_some(c, "headers"@, headers);
            lemma_put(a, "transport"@, Tree::Text("streamable-http"@), name);
            lemma_put(b, "url"@, Tree::Text(url), name);
            lemma_some(c, "headers"@, headers, name);
            if spec is Mapping {
                assert(dsh_form(server, spec) == Ok::<Tree, ErrorView>(item_of(server, config)));
            }
        }
    }
}

/// What is taken over of a list of texts, a mapping of texts and a text of a server of dsh:
/// all of it where every value is a plain text, nothing where it is missing, empty or
/// blank, and an error otherwise.
pub proof fn law_plain_parts(config: Entries, server: Seq<char>, name: Seq<char>)
    ensures
        match lookup(config, Tree::Text(name)) {
            None => {
                &&& text_list(config, server, name) == Ok::<Option<Tree>, ErrorView>(None)
                &&& text_map(config, server, name) == Ok::<Option<Tree>, ErrorView>(None)
                &&& text_value(config, server, name) == Ok::<Option<Tree>, ErrorView>(None)
            },
            Some(v) => {
                &&& match v {
                    Tree::List(x) => {
                        &&& text_list(config, server, name) is Ok <==> forall|i: int|
                            0 <= i < x.len() ==> (#[trigger] x[i]) is Text
                        &&& text_list(config, server, name) matches Ok(r) ==> r == (if x.len() > 0 {
                            Some(v)
                        } else {
                            None
                        })
                    },
                    _ => text_list(config, server, name) is Err,
                }
                &&& match v {
                    Tree::Mapping(m) => {
                        &&& text_map(config, server, name) is Ok <==> forall|i: int|
                            0 <= i < m.len() ==> (#[trigger] m[i]).0 is Text && m[i].1 is Text
                        &&& text_map(config, server, name) matches Ok(r) ==> r == (if m.len() > 0 {
                            Some(v)
                        } else {
                            None
                        })
                    },
                    _ => text_map(config, server, name) is Err,
                }
                &&& match v {
                    Tree::Text(s) => text_value(config, server, name) == Ok::<
                        Option<Tree>,
                        ErrorView,
                    >(
                        if is_blank(s) {
                            None
                        } else {
                            Some(v)
                        },
                    ),
                    _ => text_value(config, server, name) is Err,
                }
            },
        },
{
    if let Some(v) = lookup(config, Tree::Text(name)) {
        if let Tree::List(x) = v {
            lemma_list_fault(x, server, name, 0);
        }
        if let Tree::Mapping(m) = v {
            lemma_map_fault(m, server, name, 0);
        }
    }
}

proof fn lemma_list_fault(x: Seq<Tree>, server: Seq<char>, name: Seq<char>, i: nat)
    ensures
        list_fault(x, server, name, i) is None <==> forall|j: int|
            i <= j < x.len() ==> (#[trigger] x[j]) is Text,
    decreases x.len() - i,
{
    if i < x.len() {
        lemma_list_fault(x, server, name, i + 1);
        assert(x[i as int] == x[i as int]);
    }
}

proof fn lemma_map_fault(m: Entries, server: Seq<char>, name: Seq<char>, i: nat)
    ensures
        map_fault(m, server, name, i) is None <==> forall|j: int|
            i <= j < m.len() ==> (#[trigger] m[j]).0 is Text && m[j].1 is Text,
    decreases m.len() - i,
{
    if i < m.len() {
        lemma_map_fault(m, server, name, i + 1);
        assert(m[i as int] == m[i as int]);
    }
}

/// What the form of the registry holds of a server of dsh under a name: of a `stdio` server
/// its type, its command, trimmed, its arguments, its environment and its directory; of one
/// that is reached by HTTP its type, its address, trimmed, and its headers; and nothing
/// else. Any other transport is refused, and so is a server without a command or an address,
/// or one of whose parts is no plain text.
#[verifier::rlimit(30)]
pub proof fn law_dsh_unified(config: Entries, server: Seq<char>, name: Seq<char>)
    ensures
        ({
            let transport = lookup(config, Tree::Text("transport"@));
            let command = lookup(config, Tree::Text("command"@));
            let url = lookup(config, Tree::Text("url"@));
            let args = text_list(config, server, "args"@);
            let env = text_map(config, server, "env"@);
            let cwd = text_value(config, server, "cwd"@);
            let headers = text_map(config, server, "headers"@);
            if transport == Some(Tree::Text("stdio"@)) && (command matches Some(Tree::Text(s))
                && !is_blank(s)) && args is Ok && env is Ok && cwd is Ok {
                unified_config(config, server) matches Ok(Tree::Mapping(m)) && lookup(
                    m,
                    Tree::Text(name),
                ) == (if name == "cwd"@ && cwd->Ok_0 is Some {
                    cwd->Ok_0
                } else if name == "env"@ && env->Ok_0 is Some {
                    env->Ok_0
                } else if name == "args"@ && args->Ok_0 is Some {
                    args->Ok_0
                } else if name == "command"@ {
                    Some(Tree::Text(trimmed(command->0->Text_0)))
                } else if name == "type"@ {
                    Some(Tree::Text("stdio"@))
                } else {
                    None
                })
            } else if transport == Some(Tree::Text("streamable-http"@)) && (url matches Some(
                Tree::Text(s),
            ) && !is_blank(s)) && headers is Ok {
                unified_config(config, server) matches Ok(Tree::Mapping(m)) && lookup(
                    m,
                    Tree::Text(name),
                ) == (if name == "headers"@ && headers->Ok_0 is Some {
                    headers->Ok_0
                } else if name == "url"@ {
                    Some(Tree::Text(trimmed(url->0->Text_0)))
                } else if name == "type"@ {
                    Some(Tree::Text("http"@))
                } else {
                    None
                })
            } else {
                unified_config(config, server) is Err
            }
        }),
{
    let z: Entries = Seq::empty();
    lemma_types();
    lemma_none(name);
    if let Some(Tree::Text(s)) = lookup(config, Tree::Text("command"@)) {
        lemma_blank(s);
    }
    if let Some(Tree::Text(s)) = lookup(config, Tree::Text("url"@)) {
        lemma_blank(s);
    }
    let command = crate::mcp::dsh::plain_trimmed(config, "command"@);
    let url = crate::mcp::dsh::plain_trimmed(config, "url"@);
    let args = text_list(config, server, "args"@);
    let env = text_map(config, server, "env"@);
    let cwd = text_value(config, server, "cwd"@);
    let headers = text_map(config, server, "headers"@);
    if let (Some(command), Ok(args), Ok(env), Ok(cwd)) = (command, args, env, cwd) {
        let a = with_key(z, Tree::Text("type"@), Tree::Text("stdio"@));
        let b = with_key(a, Tree::Text("command"@), Tree::Text(command));
        let c = with_some(b, "args"@, args);
        let d = with_some(c, "env"@, env);
        lemma_put(z, "type"@, Tree::Text("stdio"@), name);
        lemma_put(a, "command"@, Tree::Text(command), name);
        lemma_some(b, "args"@, args, name);
        lemma_some(c, "env"@, env, name);
        lemma_some(d, "cwd"@, cwd, name);
    }
    if let (Some(url), Ok(headers)) = (url, headers) {
        let a = with_key(z, Tree::Text("type"@), Tree::Text("http"@));
        let b = with_key(a, Tree::Text("url"@), Tree::Text(url));
        lemma_put(z, "type"@, Tree::Text("http"@), name);
        lemma_put(a, "url"@, Tree::Text(url), name);
        lemma_some(b, "headers"@, headers, name);
    }
}

/// An item of dsh is a server that can be used exactly where it is one of the MCP plugin,
/// has a mapping as its configuration with a server name that is a text and not blank, and
/// a form in the registry that is accepted; it goes by that name, trimmed.
pub proof fn law_usable_item(item: Tree)
    ensures
        ({
            let plugin = text_field(item, "name"@);
            let config = field(item, "config"@);
            match usable(item) {
                Some((id, spec)) => {
                    &&& plugin == Some("@deepseek-ai/dsh-mcp-client"@)
                    &&& config matches Some(Tree::Mapping(m))
                    &&& lookup(m, Tree::Text("serverName"@)) matches Some(Tree::Text(s))
                    &&& !is_blank(s) && id == trimmed(s)
                    &&& unified_config(m, id) == Ok::<Tree, ErrorView>(spec)
                    &&& server_fault(spec) is None
                },
                None => !({
                    &&& plugin == Some("@deepseek-ai/dsh-mcp-client"@)
                    &&& config matches Some(Tree::Mapping(m))
                    &&& lookup(m, Tree::Text("serverName"@)) matches Some(Tree::Text(s))
                    &&& !is_blank(s)
                    &&& unified_config(m, trimmed(s)) matches Ok(spec)
                    &&& server_fault(spec) is None
                }),
            }
        }),
{
    if let Some(Tree::Mapping(m)) = field(item, "config"@) {
        if let Some(Tree::Text(s)) = lookup(m, Tree::Text("serverName"@)) {
            lemma_blank(s);
        }
    }
}

/// An entry of the file of zcode is a server that can be used exactly where its name is not
/// blank, and it has a form in the registry that is accepted; it goes by its name, trimmed.
pub proof fn law_usable_entry(e: (Tree, Tree))
    ensures
        match crate::mcp::zcode::usable(e) {
            Some((id, spec)) => {
                &&& text_of(e.0) matches Some(s)
                &&& !is_blank(s) && id == trimmed(s)
                &&& unified_form(id, e.1) == Ok::<Tree, ErrorView>(spec)
                &&& server_fault(spec) is None
            },
            None => !({
                &&& text_of(e.0) matches Some(s)
                &&& !is_blank(s)
                &&& unified_form(trimmed(s), e.1) matches Ok(spec)
                &&& server_fault(spec) is None
            }),
        },
{
    if let Some(s) = text_of(e.0) {
        lemma_blank(s);
    }
}

/// An item of dsh is turned into the form of the registry exactly where its configuration is
/// a mapping with a server name that is a text and not blank, and can be turned into it.
pub proof fn law_unified_item(item: Tree)
    ensures
        match field(item, "config"@) {
            Some(Tree::Mapping(m)) => match lookup(m, Tree::Text("serverName"@)) {
                Some(Tree::Text(s)) => if is_blank(s) {
                    unified_item(item) is Err
                } else {
                    match unified_config(m, trimmed(s)) {
                        Ok(spec) => unified_item(item) == Ok::<(Seq<char>, Tree), ErrorView>(
                            (trimmed(s), spec),
                        ),
                        Err(e) => unified_item(item) == Err::<(Seq<char>, Tree), ErrorView>(e),
                    }
                },
                _ => unified_item(item) is Err,
            },
            _ => unified_item(item) is Err,
        },
{
    if let Some(Tree::Mapping(m)) = field(item, "config"@) {
        if let Some(Tree::Text(s)) = lookup(m, Tree::Text("serverName"@)) {
            lemma_blank(s);
        }
    }
}

/// The error for a list names the first item that is no text; the one for a mapping names
/// the first entry that is not a text under a text.
pub proof fn law_first_fault(x: Seq<Tree>, m: Entries, server: Seq<char>, name: Seq<char>, i: nat)
    ensures
        list_fault(x, server, name, i) matches Some(e) ==> exists|n: nat|
            {
                &&& i <= n < x.len()
                &&& !(x[n as int] is Text)
                &&& forall|j: int| i <= j < n ==> (#[trigger] x[j]) is Text
                &&& e == ErrorView::McpValidation(
                    "dsh MCP server '"@ + server + "': '"@ + name + "["@ + #[trigger] decimal(n)
                        + "]' is not a plain string"@,
                )
            },
        map_fault(m, server, name, i) matches Some(e) ==> exists|n: int|
            {
                &&& i <= n < m.len()
                &&& forall|j: int| i <= j < n ==> (#[trigger] m[j]).0 is Text && m[j].1 is Text
                &&& !((#[trigger] m[n]).0 is Text && m[n].1 is Text)
                &&& e == ErrorView::McpValidation(
                    "dsh MCP server '"@ + server + "': '"@ + name + (match m[n].0 {
                        Tree::Text(key) => "."@ + key
                            + "' is not a plain string (possibly a !!js expression)"@,
                        _ => "' has a non-string key"@,
                    }),
                )
            },
{
    lemma_first_in_list(x, server, name, i);
    lemma_first_in_map(m, server, name, i);
}

proof fn lemma_first_in_list(x: Seq<Tree>, server: Seq<char>, name: Seq<char>, i: nat)
    ensures
        list_fault(x, server, name, i) matches Some(e) ==> exists|n: nat|
            {
                &&& i <= n < x.len()
                &&& !(x[n as int] is Text)
                &&& forall|j: int| i <= j < n ==> (#[trigger] x[j]) is Text
                &&& e == ErrorView::McpValidation(
                    "dsh MCP server '"@ + server + "': '"@ + name + "["@ + #[trigger] decimal(n)
                        + "]' is not a plain string"@,
                )
            },
    decreases x.len() - i,
{
    if i < x.len() {
        if x[i as int] is Text {
            lemma_first_in_list(x, server, name, i + 1);
            if let Some(e) = list_fault(x, server, name, i) {
                let n = choose|n: nat|
                    {
                        &&& i + 1 <= n < x.len()
                        &&& !(x[n as int] is Text)
                        &&& forall|j: int| i + 1 <= j < n ==> (#[trigger] x[j]) is Text
                        &&& e == ErrorView::McpValidation(
                            "dsh MCP server '"@ + server + "': '"@ + name + "["@
                                + #[trigger] decimal(n) + "]' is not a plain string"@,
                        )
                    };
                assert(decimal(n) == decimal(n));
            }
        } else {
            assert(decimal(i) == decimal(i));
        }
    }
}

proof fn lemma_first_in_map(m: Entries, server: Seq<char>, name: Seq<char>, i: nat)
    ensures
        map_fault(m, server, name, i) matches Some(e) ==> exists|n: int|
            {
                &&& i <= n < m.len()
                &&& forall|j: int| i <= j < n ==> (#[trigger] m[j]).0 is Text && m[j].1 is Text
                &&& !((#[trigger] m[n]).0 is Text && m[n].1 is Text)
                &&& e == ErrorView::McpValidation(
                    "dsh MCP server '"@ + server + "': '"@ + name + (match m[n].0 {
                        Tree::Text(key) => "."@ + key
                            + "' is not a plain string (possibly a !!js expression)"@,
                        _ => "' has a non-string key"@,
                    }),
                )
            },
    decreases m.len() - i,
{
    if i < m.len() {
        let e0 = m[i as int];
        if e0.0 is Text && e0.1 is Text {
            lemma_first_in_map(m, server, name, i + 1);
            if let Some(e) = map_fault(m, server, name, i) {
                let n = choose|n: int|
                    {
                        &&& i + 1 <= n < m.len()
                        &&& forall|j: int|
                            i + 1 <= j < n ==> (#[trigger] m[j]).0 is Text && m[j].1 is Text
                        &&& !((#[trigger] m[n]).0 is Text && m[n].1 is Text)
                        &&& e == ErrorView::McpValidation(
                            "dsh MCP server '"@ + server + "': '"@ + name + (match m[n].0 {
                                Tree::Text(key) => "."@ + key
                                    + "' is not a plain string (possibly a !!js expression)"@,
                                _ => "' has a non-string key"@,
                            }),
                        )
                    };
                assert(m[n] == m[n]);
            }
        } else {
            let about = "dsh MCP server '"@ + server + "': '"@ + name;
            if let Tree::Text(key) = e0.0 {
                let tail = "' is not a plain string (possibly a !!js expression)"@;
                assert(about + "."@ + key + tail =~= about + ("."@ + key + tail));
            }
            assert(m[i as int] == e0);
        }
    }
}

/// The errors for a server say what is missing, and of which server.
pub proof fn law_form_errors(id: Seq<char>, spec: Tree)
    requires
        spec is Mapping,
    ensures
        ({
            let t = type_of(spec);
            let no_command = !(text_field(spec, "command"@) matches Some(s) && !is_blank(s));
            let no_url = !(text_field(spec, "url"@) matches Some(s) && !is_blank(s));
            &&& t == "stdio"@ && no_command ==> {
                &&& zcode_form(id, spec) == Err::<Tree, ErrorView>(
                    ErrorView::McpValidation(
                        "zcode MCP server '"@ + id + "' (stdio) requires a non-empty 'command'"@,
                    ),
                )
                &&& dsh_form(id, spec) == Err::<Tree, ErrorView>(
                    ErrorView::McpValidation(
                        "dsh MCP server '"@ + id + "' (stdio) requires a non-empty 'command'"@,
                    ),
                )
            }
            &&& (t == "http"@ || t == "sse"@) && no_url ==> {
                &&& zcode_form(id, spec) == Err::<Tree, ErrorView>(
                    ErrorView::McpValidation(
                        "zcode MCP server '"@ + id + "' ("@ + t + ") requires a non-empty 'url'"@,
                    ),
                )
                &&& dsh_form(id, spec) == Err::<Tree, ErrorView>(
                    ErrorView::McpValidation(
                        "dsh MCP server '"@ + id
                            + "' (streamable-http) requires a non-empty 'url'"@,
                    ),
                )
            }
            &&& t != "stdio"@ && t != "http"@ && t != "sse"@ ==> {
                &&& zcode_form(id, spec) == Err::<Tree, ErrorView>(
                    ErrorView::McpValidation("Unknown MCP type: "@ + t),
                )
                &&& dsh_form(id, spec) == Err::<Tree, ErrorView>(
                    ErrorView::McpValidation("Unknown MCP type: "@ + t),
                )
            }
        }),
{
    lemma_types();
    law_parts(spec, "command"@);
    law_parts(spec, "url"@);
}

} // verus!
