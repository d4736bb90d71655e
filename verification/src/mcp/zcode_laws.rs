//! What holds of the MCP servers of zcode.

use vstd::prelude::*;

use crate::error::ErrorView;
use crate::mcp::parts::{
    full_list, full_mapping, full_text, lemma_with_some, trimmed_field, with_some,
};
use crate::mcp::registry::ServerView;
use crate::mcp::validation::type_of;
use crate::mcp::zcode::{
    projected, server_removed, server_synced, servers_of, servers_synced, unified_form, upserted,
    with_servers, without_server, zcode_form,
};
use crate::merge::{
    keeps_order, law_overlaid_order, law_with_key_order, law_without_key_order, lemma_order_chain,
    lemma_overlaid, lemma_overlaid_held, lemma_overlaid_twice, lemma_prefix_order,
};
use crate::plan::{carried_out, PlanView};
use crate::tree::{
    distinct_keys, entries_of, field, has_key, index_of, is_exact, is_json, key_at,
    lemma_lookup_same, lemma_lookup_well_formed, lemma_same_reflexive, lemma_same_text,
    lemma_untagged, lemma_with_key, lemma_with_key_twice, lemma_with_key_well_formed,
    lemma_without_key, lemma_without_key_well_formed, lookup, overlaid, same, untagged, with_key,
    without_key, Entries, Tree,
};
use crate::zcode_config::{object_of, object_under, stored};

verus! {

// ----------------------------------------------------------------------------
// One server
// ----------------------------------------------------------------------------

/// The object under a name is well-formed.
proof fn lemma_object_under(m: Entries, name: Seq<char>)
    requires
        is_json(Tree::Mapping(m)),
    ensures
        is_json(Tree::Mapping(object_under(m, name))),
{
    if has_key(m, Tree::Text(name)) {
        lemma_lookup_well_formed(m, Tree::Text(name));
    }
    let t = Tree::Mapping(Seq::<(Tree, Tree)>::empty());
    assert(t->Mapping_0 == Seq::<(Tree, Tree)>::empty());
    assert(is_json(t));
}

/// The servers of a file are well-formed.
proof fn lemma_servers_of(root: Entries)
    requires
        is_json(Tree::Mapping(root)),
    ensures
        is_json(Tree::Mapping(servers_of(root))),
{
    lemma_object_under(root, "mcp"@);
    lemma_object_under(object_under(root, "mcp"@), "servers"@);
}

/// Servers that were put into the file are the servers of the file. What the file
/// holds besides, under `mcp` too, stays.
pub proof fn law_servers_replaced(root: Entries, servers: Entries)
    requires
        is_json(Tree::Mapping(root)),
    ensures
        servers_of(with_servers(root, servers)) == servers,
        forall|name: Seq<char>|
            name != "mcp"@ ==> #[trigger] lookup(with_servers(root, servers), Tree::Text(name))
                == lookup(root, Tree::Text(name)),
        forall|name: Seq<char>|
            name != "servers"@ ==> #[trigger] lookup(
                object_under(with_servers(root, servers), "mcp"@),
                Tree::Text(name),
            ) == lookup(object_under(root, "mcp"@), Tree::Text(name)),
{
    broadcast use lemma_same_text;

    let mcp = object_under(root, "mcp"@);
    lemma_object_under(root, "mcp"@);
    let mcp2 = with_key(mcp, Tree::Text("servers"@), Tree::Mapping(servers));
    lemma_with_key(mcp, Tree::Text("servers"@), Tree::Mapping(servers));
    lemma_with_key(root, Tree::Text("mcp"@), Tree::Mapping(mcp2));
    assert(object_under(with_servers(root, servers), "mcp"@) == mcp2);
}

/// A server that was written is there with every field that it came with; a field
/// that it does not mention, such as `enable`, stays as the file has it. The other
/// servers are as they were.
pub proof fn law_server_written(servers: Entries, id: Seq<char>, new: Entries)
    requires
        is_json(Tree::Mapping(servers)),
        is_json(Tree::Mapping(new)),
    ensures
        ({
            let after = upserted(servers, id, Tree::Mapping(new));
            let old = object_under(servers, id);
            &&& lookup(after, Tree::Text(id)) matches Some(Tree::Mapping(entry)) && forall|k: Tree|
                #[trigger] lookup(entry, k) == (if has_key(new, k) {
                    lookup(new, k)
                } else {
                    lookup(old, k)
                })
            &&& forall|other: Seq<char>|
                other != id ==> #[trigger] lookup(after, Tree::Text(other)) == lookup(
                    servers,
                    Tree::Text(other),
                )
        }),
{
    broadcast use lemma_same_text;

    let k = Tree::Text(id);
    lemma_object_under(servers, id);
    lemma_overlaid(object_under(servers, id), new);
    let entry = match lookup(servers, k) {
        Some(Tree::Mapping(old)) => Tree::Mapping(overlaid(old, new)),
        _ => Tree::Mapping(new),
    };
    lemma_with_key(servers, k, entry);
    assert forall|l: Tree| !has_key(new, l) && !(lookup(servers, k) matches Some(Tree::Mapping(_))) implies #[trigger] lookup(
        new,
        l,
    ) == lookup(object_under(servers, id), l) by {
        assert(!has_key(Seq::<(Tree, Tree)>::empty(), l));
    }
}

/// A written server keeps the servers well-formed.
proof fn lemma_upserted(servers: Entries, id: Seq<char>, spec: Tree)
    requires
        is_json(Tree::Mapping(servers)),
        is_json(spec),
    ensures
        is_json(Tree::Mapping(upserted(servers, id, spec))),
{
    let k = Tree::Text(id);
    lemma_object_under(servers, id);
    if let (Tree::Mapping(new), Some(Tree::Mapping(old))) = (spec, lookup(servers, k)) {
        lemma_overlaid(old, new);
        lemma_with_key_well_formed(servers, k, Tree::Mapping(overlaid(old, new)));
    }
    lemma_with_key_well_formed(servers, k, spec);
}

/// Writing a server a second time changes nothing.
pub proof fn law_write_twice(servers: Entries, id: Seq<char>, spec: Tree)
    requires
        is_json(Tree::Mapping(servers)),
        is_json(spec),
    ensures
        upserted(upserted(servers, id, spec), id, spec) == upserted(servers, id, spec),
{
    let k = Tree::Text(id);
    let entry = match (spec, lookup(servers, k)) {
        (Tree::Mapping(new), Some(Tree::Mapping(old))) => Tree::Mapping(overlaid(old, new)),
        _ => spec,
    };
    lemma_with_key(servers, k, entry);
    lemma_with_key_twice(servers, k, entry);
    if let Tree::Mapping(new) = spec {
        lemma_overlaid_held(new, new);
        if let Some(Tree::Mapping(old)) = lookup(servers, k) {
            lemma_overlaid_twice(old, new);
        }
    }
}

/// A server that was removed is gone; the other servers and everything else in the
/// file are as they were.
pub proof fn law_server_removed(root: Entries, id: Seq<char>)
    requires
        is_json(Tree::Mapping(root)),
    ensures
        lookup(servers_of(without_server(root, id)), Tree::Text(id)) is None,
        forall|other: Seq<char>|
            other != id ==> #[trigger] lookup(servers_of(without_server(root, id)), Tree::Text(other))
                == lookup(servers_of(root), Tree::Text(other)),
        forall|name: Seq<char>|
            name != "mcp"@ ==> #[trigger] lookup(without_server(root, id), Tree::Text(name))
                == lookup(root, Tree::Text(name)),
{
    broadcast use lemma_same_text;

    let servers = servers_of(root);
    lemma_servers_of(root);
    let rest = without_key(servers, Tree::Text(id));
    lemma_without_key(servers, Tree::Text(id));
    lemma_same_reflexive(Tree::Text(id));
    law_servers_replaced(root, rest);
    if without_server(root, id) == root {
        // There are no servers, so that none can be found.
        if lookup(servers, Tree::Text(id)) is Some {
            assert(has_key(servers, Tree::Text(id)));
            lemma_no_servers(root, id);
        }
    }
    assert forall|other: Seq<char>| other != id implies #[trigger] lookup(
        servers_of(without_server(root, id)),
        Tree::Text(other),
    ) == lookup(servers, Tree::Text(other)) by {
        assert(!same(Tree::Text(id), Tree::Text(other)));
    }
}

/// Where a server is found, there is an object of servers to remove it from.
proof fn lemma_no_servers(root: Entries, id: Seq<char>)
    requires
        is_json(Tree::Mapping(root)),
        has_key(servers_of(root), Tree::Text(id)),
    ensures
        field(Tree::Mapping(root), "mcp"@) matches Some(mcp) && field(mcp, "servers"@) matches Some(
            Tree::Mapping(_),
        ),
{
    assert(untagged(Tree::Mapping(root)) == Tree::Mapping(root));
    assert(!has_key(Seq::<(Tree, Tree)>::empty(), Tree::Text(id)));
    assert(!has_key(Seq::<(Tree, Tree)>::empty(), Tree::Text("servers"@)));
    let mcp = lookup(root, Tree::Text("mcp"@))->0;
    assert(mcp is Mapping);
    assert(untagged(mcp) == mcp);
}

// ----------------------------------------------------------------------------
// The registry
// ----------------------------------------------------------------------------

/// The ids of servers differ from each other.
pub open spec fn distinct_ids(list: Seq<ServerView>) -> bool {
    forall|i: int, j: int|
        0 <= i < list.len() && 0 <= j < list.len() && i != j ==> (#[trigger] list[i]).id != (
        #[trigger] list[j]).id
}

/// The descriptions of the servers are well-formed.
pub open spec fn all_json(list: Seq<ServerView>) -> bool {
    forall|i: int| 0 <= i < list.len() ==> is_json((#[trigger] list[i]).server)
}

/// What a well-formed document holds under a name is well-formed.
proof fn lemma_field_json(t: Tree, name: Seq<char>)
    requires
        is_json(t),
    ensures
        field(t, name) matches Some(v) ==> is_json(v),
{
    lemma_untagged(t);
    if let Some(m) = entries_of(t) {
        if has_key(m, Tree::Text(name)) {
            lemma_lookup_well_formed(m, Tree::Text(name));
        }
    }
}

/// Writing a part keeps a mapping well-formed.
proof fn lemma_with_some_json(m: Entries, name: Seq<char>, v: Option<Tree>)
    requires
        is_json(Tree::Mapping(m)),
        v matches Some(t) ==> is_json(t),
    ensures
        is_json(Tree::Mapping(with_some(m, name, v))),
{
    if let Some(t) = v {
        lemma_with_key_well_formed(m, Tree::Text(name), t);
    }
}

/// The form of a well-formed server is well-formed.
proof fn lemma_form_json(id: Seq<char>, spec: Tree)
    requires
        is_json(spec),
    ensures
        zcode_form(id, spec) matches Ok(form) ==> is_json(form),
{
    if zcode_form(id, spec) is Ok {
        let z: Entries = Seq::empty();
        assert(Tree::Mapping(z)->Mapping_0 == z);
        assert(is_json(Tree::Mapping(z)));
        lemma_field_json(spec, "args"@);
        lemma_field_json(spec, "env"@);
        lemma_field_json(spec, "headers"@);
        if type_of(spec) == "stdio"@ {
            let command = Tree::Text(trimmed_field(spec, "command"@)->0);
            lemma_with_key_well_formed(z, Tree::Text("command"@), command);
            let a = with_key(z, Tree::Text("command"@), command);
            lemma_with_some_json(a, "args"@, full_list(spec, "args"@));
            let b = with_some(a, "args"@, full_list(spec, "args"@));
            lemma_with_some_json(b, "env"@, full_mapping(spec, "env"@));
            let c = with_some(b, "env"@, full_mapping(spec, "env"@));
            lemma_with_some_json(c, "cwd"@, full_text(spec, "cwd"@));
        } else {
            let t = Tree::Text(type_of(spec));
            let url = Tree::Text(trimmed_field(spec, "url"@)->0);
            lemma_with_key_well_formed(z, Tree::Text("type"@), t);
            let a = with_key(z, Tree::Text("type"@), t);
            lemma_with_key_well_formed(a, Tree::Text("url"@), url);
            let b = with_key(a, Tree::Text("url"@), url);
            lemma_with_some_json(b, "headers"@, full_mapping(spec, "headers"@));
        }
    }
}

/// What the file holds under a name after the first `n` servers.
proof fn lemma_projected(servers: Entries, list: Seq<ServerView>, n: nat, name: Seq<char>)
    requires
        is_json(Tree::Mapping(servers)),
        n <= list.len(),
        distinct_ids(list),
        all_json(list),
        projected(servers, list, n) is Ok,
    ensures
        is_json(Tree::Mapping(projected(servers, list, n)->Ok_0)),
        (forall|i: int| 0 <= i < n ==> (#[trigger] list[i]).id != name) ==> lookup(
            projected(servers, list, n)->Ok_0,
            Tree::Text(name),
        ) == lookup(servers, Tree::Text(name)),
        forall|i: int|
            0 <= i < n && (#[trigger] list[i]).id == name ==> lookup(
                projected(servers, list, n)->Ok_0,
                Tree::Text(name),
            ) == synced(servers, list[i]),
    decreases n,
{
    broadcast use lemma_same_text;

    if n > 0 {
        let m = (n - 1) as nat;
        lemma_projected(servers, list, m, name);
        let before = projected(servers, list, m)->Ok_0;
        let server = list[n - 1];
        lemma_projected(servers, list, m, server.id);
        assert forall|i: int| 0 <= i < m implies (#[trigger] list[i]).id != server.id by {}
        assert(lookup(before, Tree::Text(server.id)) == lookup(servers, Tree::Text(server.id)));
        lemma_same_reflexive(Tree::Text(server.id));
        if server.apps.zcode {
            let form = zcode_form(server.id, server.server)->Ok_0;
            lemma_form_json(server.id, server.server);
            lemma_upserted(before, server.id, form);
            let entry = upserted_value(before, server.id, form);
            lemma_with_key(before, Tree::Text(server.id), entry);
        } else {
            lemma_without_key(before, Tree::Text(server.id));
            lemma_without_key_well_formed(before, Tree::Text(server.id));
        }
        if name != server.id {
            assert(!same(Tree::Text(server.id), Tree::Text(name)));
        }
    }
}

/// What the file gets of a server.
pub open spec fn upserted_value(servers: Entries, id: Seq<char>, spec: Tree) -> Tree {
    match (spec, lookup(servers, Tree::Text(id))) {
        (Tree::Mapping(new), Some(Tree::Mapping(old))) => Tree::Mapping(overlaid(old, new)),
        _ => spec,
    }
}

/// What the file is to hold of a server of the registry: nothing where zcode does not
/// use it.
pub open spec fn synced(servers: Entries, server: ServerView) -> Option<Tree> {
    if server.apps.zcode {
        Some(
            upserted_value(servers, server.id, zcode_form(server.id, server.server)->Ok_0),
        )
    } else {
        None
    }
}

/// Once the file is in step, it holds every server that zcode uses, in the form of
/// zcode and with what the file held of it besides; it holds no server of the
/// registry that zcode does not use; and a server that the registry does not know
/// is there as before.
pub proof fn law_registry_synced(servers: Entries, list: Seq<ServerView>, name: Seq<char>)
    requires
        is_json(Tree::Mapping(servers)),
        distinct_ids(list),
        all_json(list),
    ensures
        projected(servers, list, list.len()) matches Ok(after) ==> {
            &&& (forall|i: int| 0 <= i < list.len() ==> (#[trigger] list[i]).id != name) ==> lookup(
                after,
                Tree::Text(name),
            ) == lookup(servers, Tree::Text(name))
            &&& forall|i: int|
                0 <= i < list.len() && (#[trigger] list[i]).id == name ==> lookup(
                    after,
                    Tree::Text(name),
                ) == synced(servers, list[i])
        },
{
    if projected(servers, list, list.len()) is Ok {
        lemma_projected(servers, list, list.len(), name);
    }
}

/// Bringing servers in step that are in step changes nothing.
proof fn lemma_in_step(after: Entries, list: Seq<ServerView>, n: nat)
    requires
        is_json(Tree::Mapping(after)),
        n <= list.len(),
        forall|i: int|
            0 <= i < n ==> {
                let server = #[trigger] list[i];
                &&& server.apps.zcode ==> {
                    &&& zcode_form(server.id, server.server) is Ok
                    &&& lookup(after, Tree::Text(server.id)) == Some(
                        upserted_value(
                            after,
                            server.id,
                            zcode_form(server.id, server.server)->Ok_0,
                        ),
                    )
                }
                &&& !server.apps.zcode ==> lookup(after, Tree::Text(server.id)) is None
            },
    ensures
        projected(after, list, n) == Ok::<Entries, ErrorView>(after),
    decreases n,
{
    if n > 0 {
        lemma_in_step(after, list, (n - 1) as nat);
        let server = list[n - 1];
        let k = Tree::Text(server.id);
        if server.apps.zcode {
            let v = lookup(after, k)->0;
            assert(has_key(after, k));
            assert(key_at(after, k, index_of(after, k)));
            assert(with_key(after, k, v) =~= after);
        } else {
            assert(!has_key(after, k));
        }
    }
}

/// Every server that zcode uses has a form, where bringing the file in step succeeds.
proof fn lemma_forms(servers: Entries, list: Seq<ServerView>, n: nat, i: int)
    requires
        0 <= i < n <= list.len(),
        projected(servers, list, n) is Ok,
        list[i].apps.zcode,
    ensures
        zcode_form(list[i].id, list[i].server) is Ok,
    decreases n,
{
    if i < n - 1 {
        lemma_forms(servers, list, (n - 1) as nat, i);
    }
}

/// Bringing the file in step a second time changes nothing.
pub proof fn law_sync_registry_twice(servers: Entries, list: Seq<ServerView>)
    requires
        is_json(Tree::Mapping(servers)),
        distinct_ids(list),
        all_json(list),
    ensures
        projected(servers, list, list.len()) matches Ok(after) ==> projected(
            after,
            list,
            list.len(),
        ) == Ok::<Entries, ErrorView>(after),
{
    let n = list.len();
    if projected(servers, list, n) is Ok {
        let after = projected(servers, list, n)->Ok_0;
        lemma_projected(servers, list, n, Seq::empty());
        assert forall|i: int| 0 <= i < n implies {
            let server = #[trigger] list[i];
            &&& server.apps.zcode ==> {
                &&& zcode_form(server.id, server.server) is Ok
                &&& lookup(after, Tree::Text(server.id)) == Some(
                    upserted_value(after, server.id, zcode_form(server.id, server.server)->Ok_0),
                )
            }
            &&& !server.apps.zcode ==> lookup(after, Tree::Text(server.id)) is None
        } by {
            let server = list[i];
            lemma_projected(servers, list, n, server.id);
            if server.apps.zcode {
                lemma_forms(servers, list, n, i);
                let form = zcode_form(server.id, server.server)->Ok_0;
                lemma_form_json(server.id, server.server);
                lemma_object_under(servers, server.id);
                if let Tree::Mapping(new) = form {
                    lemma_overlaid_held(new, new);
                    if let Some(Tree::Mapping(old)) = lookup(servers, Tree::Text(server.id)) {
                        lemma_overlaid_twice(old, new);
                    }
                }
            }
        }
        lemma_in_step(after, list, n);
    }
}

/// Writing a server moves no key that is in the file: not among the servers, and not
/// among the fields of the server itself.
pub proof fn law_write_in_order(servers: Entries, id: Seq<char>, spec: Tree)
    requires
        is_json(Tree::Mapping(servers)),
        is_json(spec),
    ensures
        keeps_order(servers, upserted(servers, id, spec)),
        keeps_order(object_under(servers, id), object_under(upserted(servers, id, spec), id)),
{
    let k = Tree::Text(id);
    let entry = upserted_value(servers, id, spec);
    lemma_with_key(servers, k, entry);
    law_with_key_order(servers, k, entry);
    lemma_object_under(servers, id);
    if let (Tree::Mapping(new), Some(Tree::Mapping(old))) = (spec, lookup(servers, k)) {
        law_overlaid_order(old, new);
        assert(object_under(servers, id) == old);
    }
}

/// Removing a server moves no other server.
pub proof fn law_remove_in_order(servers: Entries, id: Seq<char>)
    requires
        is_json(Tree::Mapping(servers)),
    ensures
        keeps_order(servers, without_key(servers, Tree::Text(id))),
{
    law_without_key_order(servers, Tree::Text(id));
}

/// Bringing the file in step with the registry moves no server that stays.
pub proof fn law_sync_registry_in_order(servers: Entries, list: Seq<ServerView>, n: nat)
    requires
        is_json(Tree::Mapping(servers)),
        distinct_ids(list),
        all_json(list),
        n <= list.len(),
    ensures
        projected(servers, list, n) matches Ok(after) ==> keeps_order(servers, after),
    decreases n,
{
    broadcast use lemma_same_text;

    if n == 0 {
        lemma_prefix_order(servers, servers);
    } else if projected(servers, list, n) is Ok {
        let m = (n - 1) as nat;
        let server = list[n - 1];
        let before = projected(servers, list, m)->Ok_0;
        let after = projected(servers, list, n)->Ok_0;
        law_sync_registry_in_order(servers, list, m);
        lemma_projected(servers, list, m, server.id);
        assert forall|i: int| 0 <= i < m implies (#[trigger] list[i]).id != server.id by {}
        let k = Tree::Text(server.id);
        if server.apps.zcode {
            let form = zcode_form(server.id, server.server)->Ok_0;
            lemma_form_json(server.id, server.server);
            law_write_in_order(before, server.id, form);
            lemma_with_key(before, k, upserted_value(before, server.id, form));
        } else {
            law_remove_in_order(before, server.id);
            lemma_without_key(before, k);
        }
        assert forall|l: Tree| has_key(servers, l) && #[trigger] has_key(after, l) implies has_key(
            before,
            l,
        ) by {
            if same(k, l) {
                lemma_lookup_same(before, k, l);
                lemma_lookup_same(servers, k, l);
            }
        }
        lemma_order_chain(servers, before, after);
    }
}

// ----------------------------------------------------------------------------
// The file
// ----------------------------------------------------------------------------

/// Servers that are put into the file a second time change nothing.
proof fn lemma_servers_twice(root: Entries, servers: Entries)
    requires
        is_json(Tree::Mapping(root)),
    ensures
        with_servers(with_servers(root, servers), servers) == with_servers(root, servers),
{
    let mcp = object_under(root, "mcp"@);
    lemma_object_under(root, "mcp"@);
    let v = Tree::Mapping(servers);
    let mcp2 = with_key(mcp, Tree::Text("servers"@), v);
    let after = with_key(root, Tree::Text("mcp"@), Tree::Mapping(mcp2));
    lemma_with_key(root, Tree::Text("mcp"@), Tree::Mapping(mcp2));
    lemma_same_reflexive(Tree::Text("mcp"@));
    assert(object_under(after, "mcp"@) == mcp2);
    lemma_with_key_twice(mcp, Tree::Text("servers"@), v);
    lemma_with_key_twice(root, Tree::Text("mcp"@), Tree::Mapping(mcp2));
}

/// A server that was written is read back where the file has no floats and not too many
/// levels; where it is read back, writing it again leaves the file alone.
pub open spec fn server_sticks(path: Seq<char>, raw: Seq<char>, id: Seq<char>, spec: Tree) -> bool {
    match (zcode_form(id, spec), object_of(path, raw)) {
        (Ok(form), Ok(root)) => {
            let after = with_servers(root, upserted(servers_of(root), id, form));
            let text = carried_out(raw, server_synced(true, path, raw, id, spec)->Ok_0);
            &&& is_exact(Tree::Mapping(after)) ==> stored(path, raw, after)
            &&& stored(path, raw, after) ==> server_synced(true, path, text, id, spec) == Ok::<
                PlanView,
                ErrorView,
            >(PlanView::Keep)
        },
        _ => true,
    }
}

/// Writing a server a second time leaves the file alone, where the file is read back
/// as it was written.
pub proof fn law_server_settles(
    path: Seq<char>,
    raw: Seq<char>,
    id: Seq<char>,
    spec: Tree,
    root: Entries,
)
    requires
        is_json(Tree::Mapping(root)),
        is_json(spec),
        zcode_form(id, spec) is Ok,
        object_of(path, raw) == Ok::<Entries, ErrorView>(root),
        ({
            let after = with_servers(
                root,
                upserted(servers_of(root), id, zcode_form(id, spec)->Ok_0),
            );
            is_exact(Tree::Mapping(after)) ==> stored(path, raw, after)
        }),
    ensures
        server_sticks(path, raw, id, spec),
{
    let form = zcode_form(id, spec)->Ok_0;
    let servers = upserted(servers_of(root), id, form);
    lemma_form_json(id, spec);
    lemma_servers_of(root);
    law_write_twice(servers_of(root), id, form);
    law_servers_replaced(root, servers);
    lemma_servers_twice(root, servers);
}

/// Once a server was removed, the file is read as what was left of it where that has no
/// floats and not too many levels; where it is, removing the server again leaves the
/// file alone.
pub open spec fn server_leaves(path: Seq<char>, raw: Seq<char>, id: Seq<char>) -> bool {
    match object_of(path, raw) {
        Ok(root) => {
            let after = without_server(root, id);
            let text = carried_out(raw, server_removed(true, path, raw, id)->Ok_0);
            &&& is_exact(Tree::Mapping(after)) ==> stored(path, raw, after)
            &&& stored(path, raw, after) ==> server_removed(true, path, text, id) == Ok::<
                PlanView,
                ErrorView,
            >(PlanView::Keep)
        },
        Err(_) => true,
    }
}

/// Removing a server a second time leaves the file alone, where the file is read back
/// as it was written.
pub proof fn law_removal_settles(path: Seq<char>, raw: Seq<char>, id: Seq<char>, root: Entries)
    requires
        is_json(Tree::Mapping(root)),
        object_of(path, raw) == Ok::<Entries, ErrorView>(root),
        is_exact(Tree::Mapping(without_server(root, id))) ==> stored(
            path,
            raw,
            without_server(root, id),
        ),
    ensures
        server_leaves(path, raw, id),
{
    let servers = without_key(servers_of(root), Tree::Text(id));
    lemma_servers_of(root);
    lemma_without_key(servers_of(root), Tree::Text(id));
    lemma_same_reflexive(Tree::Text(id));
    law_servers_replaced(root, servers);
    lemma_servers_twice(root, servers);
}

/// Once the file was brought in step, it is read as it was written where it has no floats
/// and not too many levels; where it is, bringing it in step again leaves it alone, as
/// the registry holds no id twice.
pub open spec fn registry_sticks(path: Seq<char>, raw: Seq<char>, list: Seq<ServerView>) -> bool {
    match object_of(path, raw) {
        Ok(root) => projected(servers_of(root), list, list.len()) matches Ok(servers) ==> {
            let after = with_servers(root, servers);
            let text = carried_out(raw, servers_synced(true, path, raw, list)->Ok_0);
            &&& is_exact(Tree::Mapping(after)) ==> stored(path, raw, after)
            &&& stored(path, raw, after) && distinct_ids(list) ==> servers_synced(
                true,
                path,
                text,
                list,
            ) == Ok::<PlanView, ErrorView>(PlanView::Keep)
        },
        Err(_) => true,
    }
}

/// Bringing the file in step a second time leaves it alone, where it is read back as
/// it was written.
pub proof fn law_registry_settles(
    path: Seq<char>,
    raw: Seq<char>,
    list: Seq<ServerView>,
    root: Entries,
)
    requires
        is_json(Tree::Mapping(root)),
        all_json(list),
        object_of(path, raw) == Ok::<Entries, ErrorView>(root),
        projected(servers_of(root), list, list.len()) matches Ok(servers) && (is_exact(
            Tree::Mapping(with_servers(root, servers)),
        ) ==> stored(path, raw, with_servers(root, servers))),
    ensures
        registry_sticks(path, raw, list),
{
    let servers = projected(servers_of(root), list, list.len())->Ok_0;
    if distinct_ids(list) {
        lemma_servers_of(root);
        law_sync_registry_twice(servers_of(root), list);
        lemma_projected(servers_of(root), list, list.len(), Seq::empty());
        law_servers_replaced(root, servers);
        lemma_servers_twice(root, servers);
    }
}

// ----------------------------------------------------------------------------
// The two forms of a server
// ----------------------------------------------------------------------------

/// The names of the parts of a server differ from each other.
proof fn lemma_part_names()
    ensures
        "type"@ != "command"@,
        "type"@ != "args"@,
        "type"@ != "env"@,
        "type"@ != "cwd"@,
        "type"@ != "url"@,
        "type"@ != "headers"@,
        "command"@ != "args"@,
        "command"@ != "env"@,
        "command"@ != "cwd"@,
        "command"@ != "url"@,
        "args"@ != "env"@,
        "args"@ != "cwd"@,
        "env"@ != "cwd"@,
        "url"@ != "headers"@,
        "command"@ != "headers"@,
        "stdio"@ != "http"@,
        "stdio"@ != "sse"@,
        "enable"@ != "type"@,
        "enable"@ != "command"@,
        "enable"@ != "args"@,
        "enable"@ != "env"@,
        "enable"@ != "cwd"@,
        "enable"@ != "url"@,
        "enable"@ != "headers"@,
{
    reveal_strlit("type");
    reveal_strlit("command");
    reveal_strlit("args");
    reveal_strlit("env");
    reveal_strlit("cwd");
    reveal_strlit("url");
    reveal_strlit("headers");
    reveal_strlit("stdio");
    reveal_strlit("http");
    reveal_strlit("sse");
    reveal_strlit("enable");
    assert("type"@.len() == 4 && "type"@[0] == 't');
    assert("command"@.len() == 7 && "command"@[0] == 'c');
    assert("args"@.len() == 4 && "args"@[0] == 'a');
    assert("env"@.len() == 3 && "env"@[0] == 'e');
    assert("cwd"@.len() == 3 && "cwd"@[0] == 'c');
    assert("url"@.len() == 3 && "url"@[0] == 'u');
    assert("headers"@.len() == 7 && "headers"@[0] == 'h');
    assert("stdio"@.len() == 5 && "http"@.len() == 4 && "sse"@.len() == 3);
    assert("enable"@.len() == 6);
}

/// What is full stays full.
proof fn lemma_parts(m: Entries, spec: Tree)
    requires
        distinct_keys(m),
    ensures
        lookup(m, Tree::Text("args"@)) == full_list(spec, "args"@) ==> full_list(
            Tree::Mapping(m),
            "args"@,
        ) == full_list(spec, "args"@),
        lookup(m, Tree::Text("env"@)) == full_mapping(spec, "env"@) ==> full_mapping(
            Tree::Mapping(m),
            "env"@,
        ) == full_mapping(spec, "env"@),
        lookup(m, Tree::Text("headers"@)) == full_mapping(spec, "headers"@) ==> full_mapping(
            Tree::Mapping(m),
            "headers"@,
        ) == full_mapping(spec, "headers"@),
        lookup(m, Tree::Text("cwd"@)) == full_text(spec, "cwd"@) ==> full_text(
            Tree::Mapping(m),
            "cwd"@,
        ) == full_text(spec, "cwd"@),
{
    assert(untagged(Tree::Mapping(m)) == Tree::Mapping(m));
}

/// A `stdio` server that was written comes back with its command, its arguments, its
/// environment and its directory.
pub proof fn law_stdio_comes_back(id: Seq<char>, name: Seq<char>, spec: Tree)
    requires
        zcode_form(id, spec) is Ok,
        type_of(spec) == "stdio"@,
    ensures
        unified_form(name, zcode_form(id, spec)->Ok_0) == Ok::<Tree, ErrorView>(
            {
                let a = with_key(Seq::empty(), Tree::Text("type"@), Tree::Text("stdio"@));
                let b = with_key(
                    a,
                    Tree::Text("command"@),
                    Tree::Text(trimmed_field(spec, "command"@)->0),
                );
                let c = with_some(b, "args"@, full_list(spec, "args"@));
                let d = with_some(c, "env"@, full_mapping(spec, "env"@));
                Tree::Mapping(with_some(d, "cwd"@, full_text(spec, "cwd"@)))
            },
        ),
{
    broadcast use lemma_same_text;

    lemma_part_names();
    let command = trimmed_field(spec, "command"@)->0;
    let z: Entries = Seq::empty();
    let a = with_key(z, Tree::Text("command"@), Tree::Text(command));
    lemma_with_key(z, Tree::Text("command"@), Tree::Text(command));
    lemma_with_some(a, "args"@, full_list(spec, "args"@));
    let b = with_some(a, "args"@, full_list(spec, "args"@));
    lemma_with_some(b, "env"@, full_mapping(spec, "env"@));
    let c = with_some(b, "env"@, full_mapping(spec, "env"@));
    lemma_with_some(c, "cwd"@, full_text(spec, "cwd"@));
    let m = with_some(c, "cwd"@, full_text(spec, "cwd"@));
    assert(zcode_form(id, spec)->Ok_0 == Tree::Mapping(m));
    assert(untagged(Tree::Mapping(m)) == Tree::Mapping(m));
    lemma_parts(m, spec);
}

/// An `http` or `sse` server that was written comes back with its type, its address
/// and its headers.
pub proof fn law_url_comes_back(id: Seq<char>, name: Seq<char>, spec: Tree)
    requires
        zcode_form(id, spec) is Ok,
        type_of(spec) == "http"@ || type_of(spec) == "sse"@,
    ensures
        unified_form(name, zcode_form(id, spec)->Ok_0) == Ok::<Tree, ErrorView>(
            {
                let a = with_key(Seq::empty(), Tree::Text("type"@), Tree::Text(type_of(spec)));
                let b = with_key(
                    a,
                    Tree::Text("url"@),
                    Tree::Text(trimmed_field(spec, "url"@)->0),
                );
                Tree::Mapping(with_some(b, "headers"@, full_mapping(spec, "headers"@)))
            },
        ),
{
    broadcast use lemma_same_text;

    lemma_part_names();
    let t = type_of(spec);
    let url = trimmed_field(spec, "url"@)->0;
    let z: Entries = Seq::empty();
    let a = with_key(z, Tree::Text("type"@), Tree::Text(t));
    lemma_with_key(z, Tree::Text("type"@), Tree::Text(t));
    let b = with_key(a, Tree::Text("url"@), Tree::Text(url));
    lemma_with_key(a, Tree::Text("url"@), Tree::Text(url));
    lemma_with_some(b, "headers"@, full_mapping(spec, "headers"@));
    let m = with_some(b, "headers"@, full_mapping(spec, "headers"@));
    assert(zcode_form(id, spec)->Ok_0 == Tree::Mapping(m));
    assert(untagged(Tree::Mapping(m)) == Tree::Mapping(m));
    lemma_parts(m, spec);
}

/// The registry never gets `enable`, which only zcode knows.
pub proof fn law_enable_stays_out(name: Seq<char>, spec: Tree)
    ensures
        unified_form(name, spec) matches Ok(unified) ==> field(unified, "enable"@) is None,
{
    broadcast use lemma_same_text;

    lemma_part_names();
    if unified_form(name, spec) is Ok {
        let z: Entries = Seq::empty();
        let enable = Tree::Text("enable"@);
        assert(!has_key(z, enable));
        if field(spec, "command"@) is Some {
            let command = field(spec, "command"@)->0;
            let a = with_key(z, Tree::Text("type"@), Tree::Text("stdio"@));
            lemma_with_key(z, Tree::Text("type"@), Tree::Text("stdio"@));
            let b = with_key(a, Tree::Text("command"@), command);
            lemma_with_key(a, Tree::Text("command"@), command);
            lemma_with_some(b, "args"@, full_list(spec, "args"@));
            let c = with_some(b, "args"@, full_list(spec, "args"@));
            lemma_with_some(c, "env"@, full_mapping(spec, "env"@));
            let d = with_some(c, "env"@, full_mapping(spec, "env"@));
            lemma_with_some(d, "cwd"@, full_text(spec, "cwd"@));
        } else {
            let url = field(spec, "url"@)->0;
            let t = crate::mcp::zcode::url_type_of(spec);
            let a = with_key(z, Tree::Text("type"@), Tree::Text(t));
            lemma_with_key(z, Tree::Text("type"@), Tree::Text(t));
            let b = with_key(a, Tree::Text("url"@), url);
            lemma_with_key(a, Tree::Text("url"@), url);
            lemma_with_some(b, "headers"@, full_mapping(spec, "headers"@));
        }
    }
}

} // verus!
