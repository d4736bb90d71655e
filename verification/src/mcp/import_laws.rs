//! What holds of servers that are taken into the registry from the file of an application.

use vstd::prelude::*;

use crate::error::ErrorView;
use crate::mcp::dsh::{found, found_in, found_items, import_result, usable};
use crate::mcp::items::inserted;
use crate::mcp::patch::entries_in;
use crate::mcp::registry::{
    found_server, imported, news_count, no_apps, uses, with_app, App, McpApps, ServerView,
};
use crate::tree::{Entries, Tree};
use crate::zcode_config::object_of;

verus! {

/// An application uses a server where its own mark is set; marking it sets that mark, and
/// no other.
pub proof fn law_apps(apps: McpApps)
    ensures
        uses(apps, App::Dsh) == apps.dsh,
        uses(apps, App::Zcode) == apps.zcode,
        ({
            let a = with_app(apps, App::Dsh);
            &&& a.dsh
            &&& a.claude == apps.claude && a.codex == apps.codex && a.gemini == apps.gemini
            &&& a.opencode == apps.opencode && a.hermes == apps.hermes && a.zcode == apps.zcode
        }),
        ({
            let a = with_app(apps, App::Zcode);
            &&& a.zcode
            &&& a.claude == apps.claude && a.codex == apps.codex && a.gemini == apps.gemini
            &&& a.opencode == apps.opencode && a.hermes == apps.hermes && a.dsh == apps.dsh
        }),
        ({
            let a = no_apps();
            &&& !a.claude && !a.codex && !a.gemini && !a.opencode
            &&& !a.hermes && !a.dsh && !a.zcode
        }),
{
}

/// A server that is new to the registry goes by its id, has the description that was found,
/// is used by that application alone, and has nothing else.
pub proof fn law_found_server(id: Seq<char>, spec: Tree, app: App)
    ensures
        ({
            let s = found_server(id, spec, app);
            &&& s.id == id && s.name == id && s.server == spec
            &&& s.apps.dsh == (app is Dsh) && s.apps.zcode == (app is Zcode)
            &&& !s.apps.claude && !s.apps.codex && !s.apps.gemini && !s.apps.opencode
            &&& !s.apps.hermes
            &&& s.description is None && s.homepage is None && s.docs is None && s.tags.len() == 0
        }),
{
}

/// The registry after an import, id by id. One that was not found is as it was. One that
/// was there before keeps everything, and is marked as used by the application. One that is
/// new has the description that was found first.
pub proof fn law_imported(
    reg: Map<Seq<char>, ServerView>,
    list: Seq<(Seq<char>, Tree)>,
    app: App,
    id: Seq<char>,
    i: int,
)
    ensures
        ({
            let after = imported(reg, list, app);
            &&& (forall|j: int| 0 <= j < list.len() ==> (#[trigger] list[j]).0 != id) ==> (
            after.dom().contains(id) <==> reg.dom().contains(id)) && (reg.dom().contains(id)
                ==> after[id] == reg[id])
            &&& 0 <= i < list.len() && list[i].0 == id && reg.dom().contains(id) ==> {
                let s = reg[id];
                &&& after.dom().contains(id)
                &&& after[id].id == s.id && after[id].name == s.name && after[id].server == s.server
                &&& after[id].description == s.description && after[id].homepage == s.homepage
                &&& after[id].docs == s.docs && after[id].tags == s.tags
                &&& after[id].apps == with_app(s.apps, app)
            }
            &&& 0 <= i < list.len() && list[i].0 == id && !reg.dom().contains(id) && (forall|j: int|
                0 <= j < i ==> (#[trigger] list[j]).0 != id) ==> after.dom().contains(id)
                && after[id] == found_server(id, list[i].1, app)
        }),
    decreases list.len(),
{
    if list.len() > 0 {
        let front = list.drop_last();
        let last = list.last();
        assert(last == list[list.len() - 1]);
        assert(forall|j: int| 0 <= j < front.len() ==> #[trigger] front[j] == list[j]);
        let before = imported(reg, front, app);
        if i < front.len() {
            law_imported(reg, front, app, id, i);
            if last.0 == id {
                assert(with_app(with_app(reg[id].apps, app), app) == with_app(reg[id].apps, app));
                assert(with_app(with_app(no_apps(), app), app) == with_app(no_apps(), app));
            }
        } else if i == front.len() {
            if exists|j: int| 0 <= j < front.len() && (#[trigger] front[j]).0 == id {
                let j = choose|j: int| 0 <= j < front.len() && (#[trigger] front[j]).0 == id;
                law_imported(reg, front, app, id, j);
                assert(with_app(with_app(reg[id].apps, app), app) == with_app(reg[id].apps, app));
                assert(list[j].0 == id);
            } else {
                law_imported(reg, front, app, id, -1);
            }
        } else {
            law_imported(reg, front, app, id, i);
        }
    }
}

/// The ids that were found and that are news to the registry.
pub open spec fn news(
    reg: Map<Seq<char>, ServerView>,
    list: Seq<(Seq<char>, Tree)>,
    app: App,
) -> Set<Seq<char>> {
    Set::new(
        |id: Seq<char>|
            (exists|i: int| 0 <= i < list.len() && (#[trigger] list[i]).0 == id) && (
            !reg.dom().contains(id) || (app is Dsh && !reg[id].apps.dsh) || (app is Zcode
                && !reg[id].apps.zcode)),
    )
}

/// The number that is reported is that of the servers that were new, or newly marked as
/// used by the application; one that was found twice counts once.
pub proof fn law_news_counted(
    reg: Map<Seq<char>, ServerView>,
    list: Seq<(Seq<char>, Tree)>,
    app: App,
)
    ensures
        news(reg, list, app).finite(),
        news_count(reg, list, app) == news(reg, list, app).len(),
    decreases list.len(),
{
    let after = news(reg, list, app);
    if list.len() == 0 {
        assert(after =~= Set::empty());
    } else {
        let front = list.drop_last();
        let id = list.last().0;
        let before = news(reg, front, app);
        law_news_counted(reg, front, app);
        assert(list.last() == list[list.len() - 1]);
        assert(forall|j: int| 0 <= j < front.len() ==> #[trigger] front[j] == list[j]);
        let known = exists|j: int| 0 <= j < front.len() && (#[trigger] front[j]).0 == id;
        let fresh = !reg.dom().contains(id) || (app is Dsh && !reg[id].apps.dsh) || (app is Zcode
            && !reg[id].apps.zcode);
        assert forall|x: Seq<char>| #[trigger] after.contains(x) <==> before.contains(x) || (x == id
            && fresh) by {
            if after.contains(x) {
                let j = choose|j: int| 0 <= j < list.len() && (#[trigger] list[j]).0 == x;
                if j < front.len() {
                    assert(front[j].0 == x);
                }
            }
            if before.contains(x) {
                let j = choose|j: int| 0 <= j < front.len() && (#[trigger] front[j]).0 == x;
                assert(list[j].0 == x);
            }
        }
        if known {
            let j = choose|j: int| 0 <= j < front.len() && (#[trigger] front[j]).0 == id;
            let j0 = first_of(front, id, j);
            law_imported(reg, front, app, id, j0);
            assert(front[j].0 == id);
            assert(after =~= before);
        } else {
            law_imported(reg, front, app, id, -1);
            if fresh {
                assert(after =~= before.insert(id));
            } else {
                assert(after =~= before);
            }
        }
    }
}

/// The first place of an id.
proof fn first_of(list: Seq<(Seq<char>, Tree)>, id: Seq<char>, j: int) -> (r: int)
    requires
        0 <= j < list.len(),
        list[j].0 == id,
    ensures
        0 <= r <= j,
        list[r].0 == id,
        forall|l: int| 0 <= l < r ==> (#[trigger] list[l]).0 != id,
    decreases j,
{
    if exists|l: int| 0 <= l < j && (#[trigger] list[l]).0 == id {
        let l = choose|l: int| 0 <= l < j && (#[trigger] list[l]).0 == id;
        first_of(list, id, l)
    } else {
        j
    }
}

/// The servers of the file of dsh are found entry by entry and item by item, in their order;
/// each item that can be used gives one, and no other gives any.
pub proof fn law_found(entries: Seq<Tree>, items: Seq<Tree>, entry: Tree, item: Tree)
    ensures
        found(Seq::empty(), 0) == Seq::<(Seq<char>, Tree)>::empty(),
        found(entries.push(entry), entries.len() + 1) == found(entries, entries.len()) + found_in(
            entry,
        ),
        inserted(entry) is None ==> found_in(entry) == Seq::<(Seq<char>, Tree)>::empty(),
        inserted(entry) matches Some(x) ==> found_in(entry) == found_items(x, x.len()),
        found_items(Seq::empty(), 0) == Seq::<(Seq<char>, Tree)>::empty(),
        found_items(items.push(item), items.len() + 1) == (match usable(item) {
            Some(x) => found_items(items, items.len()).push(x),
            None => found_items(items, items.len()),
        }),
{
    lemma_found_prefix(entries, entries.push(entry), entries.len());
    lemma_items_prefix(items, items.push(item), items.len());
    assert(entries.push(entry)[entries.len() as int] == entry);
    assert(items.push(item)[items.len() as int] == item);
}

proof fn lemma_found_prefix(a: Seq<Tree>, b: Seq<Tree>, n: nat)
    requires
        n <= a.len() <= b.len(),
        forall|i: int| 0 <= i < a.len() ==> a[i] == b[i],
    ensures
        found(a, n) == found(b, n),
    decreases n,
{
    if n > 0 {
        lemma_found_prefix(a, b, (n - 1) as nat);
    }
}

proof fn lemma_items_prefix(a: Seq<Tree>, b: Seq<Tree>, n: nat)
    requires
        n <= a.len() <= b.len(),
        forall|i: int| 0 <= i < a.len() ==> a[i] == b[i],
    ensures
        found_items(a, n) == found_items(b, n),
    decreases n,
{
    if n > 0 {
        lemma_items_prefix(a, b, (n - 1) as nat);
    }
}

/// The servers of the file of zcode are found one by one, in their order.
pub proof fn law_found_in_zcode(servers: Entries, e: (Tree, Tree))
    ensures
        crate::mcp::zcode::found(Seq::empty(), 0) == Seq::<(Seq<char>, Tree)>::empty(),
        crate::mcp::zcode::found(servers.push(e), servers.len() + 1) == (match crate::mcp::zcode::usable(e) {
            Some(x) => crate::mcp::zcode::found(servers, servers.len()).push(x),
            None => crate::mcp::zcode::found(servers, servers.len()),
        }),
{
    lemma_zcode_prefix(servers, servers.push(e), servers.len());
    assert(servers.push(e)[servers.len() as int] == e);
}

proof fn lemma_zcode_prefix(a: Entries, b: Entries, n: nat)
    requires
        n <= a.len() <= b.len(),
        forall|i: int| 0 <= i < a.len() ==> a[i] == b[i],
    ensures
        crate::mcp::zcode::found(a, n) == crate::mcp::zcode::found(b, n),
    decreases n,
{
    if n > 0 {
        lemma_zcode_prefix(a, b, (n - 1) as nat);
    }
}

/// An import takes in what was found in the whole file; a file that cannot be read changes
/// nothing, and neither does one that is not there or has no entries.
pub proof fn law_import(
    raw: Option<Seq<char>>,
    path: Seq<char>,
    text: Seq<char>,
    reg: Map<Seq<char>, ServerView>,
)
    ensures
        import_result(None, Some(reg)) == Ok::<
            (Option<Map<Seq<char>, ServerView>>, nat),
            ErrorView,
        >((Some(reg), 0)),
        raw matches Some(t) ==> match entries_in(t) {
            Ok(x) => import_result(raw, Some(reg)) == Ok::<
                (Option<Map<Seq<char>, ServerView>>, nat),
                ErrorView,
            >(
                (
                    Some(imported(reg, found(x, x.len()), App::Dsh)),
                    news_count(reg, found(x, x.len()), App::Dsh),
                ),
            ),
            Err(e) => import_result(raw, Some(reg)) is Err,
        },
        match object_of(path, text) {
            Ok(root) => {
                let servers = crate::mcp::zcode::servers_of(root);
                let list = crate::mcp::zcode::found(servers, servers.len());
                crate::mcp::zcode::import_result(path, text, Some(reg)) == Ok::<
                    (Option<Map<Seq<char>, ServerView>>, nat),
                    ErrorView,
                >((Some(imported(reg, list, App::Zcode)), news_count(reg, list, App::Zcode)))
            },
            Err(e) => crate::mcp::zcode::import_result(path, text, Some(reg)) is Err,
        },
{
    let none: Seq<(Seq<char>, Tree)> = Seq::empty();
    assert(imported(reg, none, App::Dsh) == reg);
}

/// The first import makes a registry, where there is something to be looked through.
pub proof fn law_first_import(raw: Option<Seq<char>>, path: Seq<char>, text: Seq<char>)
    ensures
        ({
            let none: Map<Seq<char>, ServerView> = Map::empty();
            &&& import_result(None, None) == Ok::<
                (Option<Map<Seq<char>, ServerView>>, nat),
                ErrorView,
            >((None, 0))
            &&& raw matches Some(t) ==> (entries_in(t) matches Ok(x) ==> import_result(raw, None) == (
            if x.len() == 0 {
                import_result(None, None)
            } else {
                import_result(raw, Some(none))
            }))
            &&& object_of(path, text) matches Ok(root) ==> {
                let made = crate::mcp::zcode::import_result(path, text, None);
                if crate::mcp::zcode::servers_of(root).len() == 0 {
                    made == import_result(None, None)
                } else {
                    made == crate::mcp::zcode::import_result(path, text, Some(none))
                }
            }
        }),
{
}

} // verus!
